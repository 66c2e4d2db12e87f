use awsst::profile::configs::Config;
use awsst::profile::configure::AWSConfigure;
use awsst::profile::credentials::Credential;
use awsst::utils::prompt::{StringWriter, WriteError};
use awsst::utils::text::{chars_of, is_whitespace, split_chars, string_of, trimmed};

fn s(text: &str) -> String {
    text.to_string()
}

fn trim_text(text: &str) -> String {
    string_of(&trimmed(&chars_of(text)))
}

#[test]
fn writer_collects_text() {
    let mut w = StringWriter::new();
    assert_eq!(w.as_string(), "");
    assert_eq!(w.write("a\nb".as_bytes()), Ok(3));
    assert_eq!(w.write("ç\n".as_bytes()), Ok(3));
    w.flush();
    assert_eq!(w.as_string(), "a\nbç\n");
    assert_eq!(w.as_vec(), vec![s("a"), s("bç"), s("")]);
    assert_eq!(w.printed_lines(), vec![s("a"), s("bç")]);
}

#[test]
fn writer_refuses_bytes_that_are_no_text() {
    let mut w = StringWriter::new();
    assert_eq!(w.write("ok".as_bytes()), Ok(2));
    assert_eq!(w.write(&[0xff, 0xfe]), Err(WriteError::NotUtf8));
    assert_eq!(w.write(&[0xc3]), Err(WriteError::NotUtf8));
    assert_eq!(w.as_string(), "ok");
}

#[test]
fn empty_writer_has_one_empty_line() {
    let w = StringWriter::new();
    assert_eq!(w.as_vec(), vec![s("")]);
    assert_eq!(w.printed_lines(), Vec::<String>::new());
}

#[test]
fn split_keeps_empty_parts() {
    assert_eq!(split_chars(&chars_of("a;;b;"), ';'), vec![s("a"), s(""), s("b"), s("")]);
    assert_eq!(split_chars(&chars_of(""), ';'), vec![s("")]);
}

#[test]
fn trimming_agrees_with_the_standard_library() {
    for text in [
        "", " ", "a", "  a b  ", "\t\r\n x \u{a0}", "\u{3000}x\u{2003}", "\u{85}y\u{1680}",
        "\u{200b}z\u{200b}", "\u{2028}\u{2029}\u{202f}\u{205f}q", "\u{feff}r", "\u{1c}s",
    ] {
        assert_eq!(trim_text(text), text.trim(), "text {:?}", text);
    }
    for code in 0u32..0x3100 {
        if let Some(c) = char::from_u32(code) {
            assert_eq!(is_whitespace(c), c.is_whitespace(), "code {:x}", code);
        }
    }
}

#[test]
fn dialog_for_a_new_profile() {
    let d = AWSConfigure::default();
    assert_eq!(d.profile, "");
    assert_eq!(d.mfa_role, None);
    let q = d.dialog_questions();
    assert_eq!(q.len(), 6);
    assert_eq!(q[0].label, "Profile Name");
    assert!(q[0].required);
    assert_eq!(q[0].initial, None);
    assert_eq!(q[1].label, "Region");
    assert_eq!(q[1].initial, Some(s("ap-northeast-1")));
    assert_eq!(q[2].label, "Output");
    assert_eq!(q[2].initial, Some(s("json")));
    assert_eq!(q[3].label, "Access Key ID");
    assert_eq!(q[3].initial, None);
    assert_eq!(q[4].label, "Secret Access Key");
    assert_eq!(q[4].initial, None);
    assert_eq!(q[5].label, "MFA Device ARN (Optional)");
    assert!(!q[5].required);
    assert_eq!(q[5].initial, None);
}

#[test]
fn dialog_for_an_existing_profile() {
    let config = Config { name: s("prod"), region: s("us-east-1"), output: s("text") };
    let cred = Credential::from_configure(s("prod-awsst"), s("AK"), s("SK"), Some(s("mfa")));
    let d = AWSConfigure::from_conf(config, Some(cred));
    assert_eq!(d.profile, "prod");
    assert_eq!(d.region, "us-east-1");
    assert_eq!(d.output, "text");
    assert_eq!(d.access_key, "AK");
    assert_eq!(d.secret_access_key, "SK");
    assert_eq!(d.mfa_role, Some(s("mfa")));
    let q = d.dialog_questions();
    assert_eq!(q.len(), 5);
    assert_eq!(q[0].label, "Region");
    assert_eq!(q[0].initial, Some(s("us-east-1")));
    assert_eq!(q[1].initial, Some(s("text")));
    assert_eq!(q[2].initial, Some(s("AK")));
    assert_eq!(q[3].initial, Some(s("SK")));
    assert_eq!(q[4].initial, Some(s("mfa")));
    assert_eq!(
        d.dialog_summary(),
        vec![
            (s("1. Profile Name"), s("prod")),
            (s("2. Region"), s("us-east-1")),
            (s("3. Output"), s("text")),
            (s("4. Access Key ID"), s("AK")),
            (s("5. Secret Access Key"), s("SK")),
            (s("6. MFA Device ARN"), s("mfa")),
        ]
    );
}

#[test]
fn dialog_without_credential() {
    let config = Config { name: s("prod"), region: s("r"), output: s("o") };
    let d = AWSConfigure::from_conf(config, None);
    assert_eq!(d.access_key, "");
    assert_eq!(d.secret_access_key, "");
    assert_eq!(d.mfa_role, None);
}

#[test]
fn answers_are_taken_over_when_confirmed() {
    let answers = || AWSConfigure {
        profile: s("new"),
        region: s("r2"),
        output: s("o2"),
        access_key: s("A2"),
        secret_access_key: s("S2"),
        mfa_role: Some(s("")),
    };
    let mut d = AWSConfigure::default();
    d.dialog_for_user(answers(), false);
    assert_eq!(d.profile, "");
    assert_eq!(d.region, "");
    d.dialog_for_user(answers(), true);
    assert_eq!(d.profile, "new");
    assert_eq!(d.region, "r2");
    assert_eq!(d.output, "o2");
    assert_eq!(d.access_key, "A2");
    assert_eq!(d.secret_access_key, "S2");
    assert_eq!(d.mfa_role, None);
    let mut other = answers();
    other.profile = s("renamed");
    other.mfa_role = Some(s("device"));
    d.dialog_for_user(other, true);
    assert_eq!(d.profile, "new");
    assert_eq!(d.mfa_role, Some(s("device")));
}
