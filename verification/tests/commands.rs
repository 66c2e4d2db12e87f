use awsst::profile::configs::{AWSConfigs, Config};
use awsst::profile::configure::AWSConfigure;
use awsst::profile::credentials::{
    AWSCredentials, Credential, Expiration, TemporaryCredential,
};
use awsst::profile::select::{AWSSelecteds, Selected};
use awsst::profile::{
    _set_tool_file, configure, initialize, list, list_titles, read_config, read_credential,
    read_tool, remove, session_commit, session_token, session_token_at, update, update_dialog,
    use_profile, SessionEnd, SessionStep, CONFIG_FILE_NAME, CREDENTIAL_FILE_NAME, TOOL_FILE_NAME,
};
use awsst::sts_client::{aws_sts_request, StsRequest};
use awsst::utils::AWSFileManager;
use chrono::{Duration, Local};

fn s(text: &str) -> String {
    text.to_string()
}

fn config_text(store: &AWSConfigs) -> String {
    awsst::utils::file::write(&store.to_file())
}

fn credentials_text(store: &AWSCredentials) -> String {
    awsst::utils::file::write(&store.to_file())
}

fn stamp_in(seconds: i64) -> String {
    (Local::now() + Duration::seconds(seconds)).format("%Y-%m-%d %H:%M:%S").to_string()
}

const CONFIG: &str = "[prod]\nregion = us-east-1\noutput = json\n\n";
const CREDENTIALS: &str = "[prod]\naws_access_key_id = AKIALONG\naws_secret_access_key = long/secret==\n\n";

#[test]
fn file_names() {
    assert_eq!(CONFIG_FILE_NAME, "config");
    assert_eq!(CREDENTIAL_FILE_NAME, "credentials");
    assert_eq!(TOOL_FILE_NAME, "awsst");
}

#[test]
fn stores_are_read_from_text() {
    assert_eq!(read_config(CONFIG).unwrap().items.len(), 1);
    assert!(read_config("[prod]\nregion = x\n").is_none());
    assert_eq!(read_config("").unwrap().items.len(), 0);
    assert_eq!(read_credential(CREDENTIALS).bases.len(), 1);
    assert_eq!(read_credential("").bases.len(), 0);
    assert!(read_tool("[selected]\nname = a\nregion = b\n").is_some());
    assert!(read_tool("[selected]\nname = a\n").is_none());
}

#[test]
fn initialize_gives_the_selected_name() {
    let sel = read_tool("[selected]\nname = prod\nregion = b\n").unwrap();
    assert_eq!(initialize(&sel), Some(s("prod")));
    let none = read_tool("[other]\nname = prod\nregion = b\n").unwrap();
    assert_eq!(initialize(&none), None);
    assert_eq!(initialize(&AWSSelecteds { items: Vec::new() }), None);
}

#[test]
fn rotation_of_a_profile_without_expiration() {
    let configs = read_config(CONFIG).unwrap();
    let mut credentials = read_credential(CREDENTIALS);
    let step = session_token(&configs, &mut credentials, None, false);
    let (name, candidate) = match step {
        SessionStep::Rotate { name, region, candidate, prompt } => {
            assert_eq!(name, "prod");
            assert_eq!(region, "us-east-1");
            assert_eq!(prompt, None);
            (name, candidate)
        }
        _ => panic!("the rotation is due"),
    };
    assert_eq!(candidate.name, "prod-awsst");
    assert_eq!(candidate.access_key_id, Some(s("AKIALONG")));
    match aws_sts_request(candidate.clone(), None) {
        Ok(StsRequest::SessionToken { duration_seconds, .. }) => assert_eq!(duration_seconds, 43200),
        _ => panic!("a session token is asked for"),
    }
    let received = TemporaryCredential {
        access_key_id: Some(s("ASIATEMP")),
        secret_access_key: Some(s("tempsecret")),
        session_token: Some(s("temptoken==")),
        expiration: Expiration::At(s("2030-06-01 12:00:00")),
    };
    assert!(credentials.wants_account(&candidate.name, &received));
    let end = session_commit(
        &configs,
        &mut credentials,
        candidate.name.clone(),
        received,
        Some(s("123456789012")),
    );
    match end {
        SessionEnd::Persist { written, expiration } => {
            assert_eq!(expiration, Some(s("2030-06-01 12:00:00")));
            assert_eq!(written.config, CONFIG);
            let text = written.credentials;
            assert_eq!(
                text,
                "[prod-awsst]\naws_access_key_id = AKIALONG\naws_secret_access_key = long/secret==\n\n[prod]\naws_access_key_id = ASIATEMP\naws_secret_access_key = tempsecret\naws_session_token = temptoken==\naws_security_token = temptoken==\nexpiration = 2030-06-01 12:00:00\naccount = 123456789012\n\n"
            );
            assert_eq!(credentials_text(&read_credential(&text)), text);
        }
        SessionEnd::CommitMismatch => panic!("the base is there"),
    }
    assert_eq!(config_text(&configs), CONFIG);
    assert_eq!(
        use_profile(&configs, &name),
        Some(s("[selected]\nname = prod\nregion = us-east-1\n\n"))
    );
}

#[test]
fn no_rotation_while_ten_hours_are_left() {
    let configs = read_config(CONFIG).unwrap();
    let text = format!(
        "[prod]\naws_access_key_id = ASIATEMP\nexpiration = {}\n\n[prod-awsst]\naws_access_key_id = AKIALONG\n\n",
        stamp_in(10 * 3600)
    );
    let mut credentials = read_credential(&text);
    let before = credentials_text(&credentials);
    match session_token(&configs, &mut credentials, Some(s("prod")), false) {
        SessionStep::NotYetExpired(name) => assert_eq!(name, "prod"),
        _ => panic!("no rotation is due"),
    }
    assert_eq!(credentials_text(&credentials), before);
    assert_eq!(config_text(&configs), CONFIG);
    match session_token(&configs, &mut credentials, Some(s("prod")), true) {
        SessionStep::Rotate { candidate, .. } => {
            assert_eq!(candidate.access_key_id, Some(s("AKIALONG")))
        }
        _ => panic!("the rotation is forced"),
    }
}

#[test]
fn step_at_given_remaining_time() {
    let configs = read_config(CONFIG).unwrap();
    let text = "[prod]\naws_access_key_id = A\nexpiration = 2030-01-01 00:00:00\nmfa_serial = arn:aws:iam::1:mfa/me\n";
    let mut credentials = read_credential(text);
    assert!(matches!(
        session_token_at(&configs, &mut credentials, None, false, Some(3 * 3600 + 60)),
        SessionStep::NotYetExpired(_)
    ));
    assert_eq!(credentials.originals.len(), 0);
    match session_token_at(&configs, &mut credentials, None, false, Some(2 * 3600 + 59 * 60)) {
        SessionStep::Rotate { prompt, candidate, .. } => {
            assert_eq!(prompt, Some(s("Enter AWS MFA code for device [arn:aws:iam::1:mfa/me]")));
            assert_eq!(candidate.name, "prod-awsst");
        }
        _ => panic!("the rotation is due"),
    }
    assert_eq!(credentials.originals.len(), 1);
    let mut untouched = read_credential(text);
    match session_token_at(&configs, &mut untouched, None, false, None) {
        SessionStep::UnreadableExpiration(stamp) => assert_eq!(stamp, "2030-01-01 00:00:00"),
        _ => panic!("without a reading nothing can be decided"),
    }
    assert_eq!(untouched.originals.len(), 0);
}

#[test]
fn steps_that_stop_the_request() {
    let none = AWSConfigs { items: Vec::new() };
    let mut credentials = read_credential(CREDENTIALS);
    assert!(matches!(
        session_token(&none, &mut credentials, None, true),
        SessionStep::NoProfiles
    ));
    let two = read_config("[a]\nregion = r\noutput = o\n[b]\nregion = r\noutput = o\n").unwrap();
    match session_token(&two, &mut credentials, None, true) {
        SessionStep::AskProfile(names) => assert_eq!(names, vec![s("a"), s("b")]),
        _ => panic!("the user has to pick"),
    }
    match session_token(&two, &mut credentials, Some(s("c")), true) {
        SessionStep::UnknownProfile(n) => assert_eq!(n, "c"),
        _ => panic!("c is not registered"),
    }
    match session_token(&two, &mut credentials, Some(s("a")), true) {
        SessionStep::MissingCredential(n) => assert_eq!(n, "a"),
        _ => panic!("a has no credential"),
    }
    let configs = read_config(CONFIG).unwrap();
    let mut unreadable = read_credential("[prod]\nexpiration = soon\n");
    match session_token(&configs, &mut unreadable, None, false) {
        SessionStep::UnreadableExpiration(stamp) => assert_eq!(stamp, "soon"),
        _ => panic!("the expiration cannot be read"),
    }
    assert_eq!(credentials_text(&credentials), CREDENTIALS);
}

#[test]
fn unknown_name_beside_the_only_profile_stops_the_request() {
    let configs = read_config(CONFIG).unwrap();
    let mut credentials = read_credential(CREDENTIALS);
    match session_token(&configs, &mut credentials, Some(s("prdo")), true) {
        SessionStep::UnknownProfile(n) => assert_eq!(n, "prdo"),
        _ => panic!("the named profile is not registered"),
    }
    assert_eq!(credentials_text(&credentials), CREDENTIALS);
}

#[test]
fn commit_without_base_writes_nothing() {
    let mut credentials = read_credential(CREDENTIALS);
    let received = TemporaryCredential {
        access_key_id: None,
        secret_access_key: None,
        session_token: None,
        expiration: Expiration::Unset,
    };
    let configs = read_config(CONFIG).unwrap();
    assert!(matches!(
        session_commit(&configs, &mut credentials, s("dev-awsst"), received, None),
        SessionEnd::CommitMismatch
    ));
    assert_eq!(credentials_text(&credentials), CREDENTIALS);
}

#[test]
fn tool_file_names_the_profile() {
    let c = Config { name: s("dev"), region: s("eu-west-1"), output: s("json") };
    assert_eq!(_set_tool_file(&c), "[selected]\nname = dev\nregion = eu-west-1\n\n");
    let configs = read_config(CONFIG).unwrap();
    assert_eq!(use_profile(&configs, &s("dev")), None);
}

#[test]
fn removal_cascades() {
    let mut configs = read_config("[dev]\nregion = r\noutput = o\n[prod]\nregion = r\noutput = o\n").unwrap();
    let mut credentials = read_credential("[dev]\nk = v\n[prod]\naws_access_key_id = T\n[prod-awsst]\naws_access_key_id = L\n[dev-awsst]\naws_access_key_id = L\n");
    let w = remove(&mut configs, &mut credentials, s("prod"));
    assert!(!configs.exists_config(s("prod")));
    assert!(configs.exists_config(s("dev")));
    assert!(!credentials.exists_credential(s("prod")));
    assert!(credentials.exists_credential(s("dev")));
    assert_eq!(credentials.originals.len(), 1);
    assert_eq!(credentials.originals[0].name, "dev-awsst");
    assert_eq!(w.config, "[dev]\nregion = r\noutput = o\n\n");
    assert_eq!(w.credentials, "[dev-awsst]\naws_access_key_id = L\n\n[dev]\n\n");
}

#[test]
fn configure_registers_a_new_profile() {
    let mut configs = read_config(CONFIG).unwrap();
    let mut credentials = read_credential(CREDENTIALS);
    let entered = AWSConfigure {
        profile: s("dev"),
        region: s("ap-northeast-1"),
        output: s("json"),
        access_key: s("AKIADEV"),
        secret_access_key: s("devsecret"),
        mfa_role: Some(s("arn:aws:iam::1:mfa/dev")),
    };
    let w = configure(&mut configs, &mut credentials, &entered).unwrap();
    assert_eq!(
        w.config,
        "[prod]\nregion = us-east-1\noutput = json\n\n[dev]\nregion = ap-northeast-1\noutput = json\n\n"
    );
    assert_eq!(
        w.credentials,
        "[prod]\naws_access_key_id = AKIALONG\naws_secret_access_key = long/secret==\n\n[dev]\naws_access_key_id = AKIADEV\naws_secret_access_key = devsecret\nmfa_serial = arn:aws:iam::1:mfa/dev\n\n"
    );
    assert!(configure(&mut configs, &mut credentials, &entered).is_none());
    assert_eq!(configs.items.len(), 2);
    assert_eq!(credentials.bases.len(), 2);
}

#[test]
fn update_changes_config_and_preferred_credential() {
    let mut configs = read_config(CONFIG).unwrap();
    let mut credentials = read_credential("[prod]\naws_access_key_id = TEMP\naws_session_token = tok\n[prod-awsst]\naws_access_key_id = LONG\naws_secret_access_key = S\nmfa_serial = m\n");
    let dialog = update_dialog(&configs, &credentials, s("prod")).unwrap();
    assert_eq!(dialog.profile, "prod");
    assert_eq!(dialog.region, "us-east-1");
    assert_eq!(dialog.access_key, "LONG");
    assert_eq!(dialog.secret_access_key, "S");
    assert_eq!(dialog.mfa_role, Some(s("m")));
    let entered = AWSConfigure {
        profile: s("prod"),
        region: s("eu-west-1"),
        output: s("text"),
        access_key: s("NEWLONG"),
        secret_access_key: s("NEWS"),
        mfa_role: None,
    };
    let w = update(&mut configs, &mut credentials, s("prod"), entered).unwrap();
    assert_eq!(w.config, "[prod]\nregion = eu-west-1\noutput = text\n\n");
    assert_eq!(credentials.originals[0].access_key_id, Some(s("NEWLONG")));
    assert_eq!(credentials.originals[0].secret_access_key, Some(s("NEWS")));
    assert_eq!(credentials.originals[0].mfa_serial, None);
    assert_eq!(credentials.bases[0].access_key_id, Some(s("TEMP")));
    assert_eq!(credentials.bases[0].session_token, Some(s("tok")));
    assert_eq!(
        w.credentials,
        "[prod-awsst]\naws_access_key_id = NEWLONG\naws_secret_access_key = NEWS\n\n[prod]\naws_access_key_id = TEMP\naws_session_token = tok\n\n"
    );
}

#[test]
fn update_without_original_changes_the_base() {
    let mut configs = read_config(CONFIG).unwrap();
    let mut credentials = read_credential(CREDENTIALS);
    let entered = AWSConfigure {
        profile: s("prod"),
        region: s("r"),
        output: s("o"),
        access_key: s("A2"),
        secret_access_key: s("S2"),
        mfa_role: Some(s("m")),
    };
    assert!(update(&mut configs, &mut credentials, s("prod"), entered).is_some());
    assert_eq!(credentials.bases[0].access_key_id, Some(s("A2")));
    assert_eq!(credentials.bases[0].mfa_serial, Some(s("m")));
    assert_eq!(credentials.originals.len(), 0);
}

#[test]
fn update_of_unknown_profile_changes_nothing() {
    let mut configs = read_config(CONFIG).unwrap();
    let mut credentials = read_credential("[other]\nk = v\n");
    assert!(update_dialog(&configs, &credentials, s("prod")).is_none());
    assert!(update_dialog(&configs, &credentials, s("other")).is_none());
    assert!(update(&mut configs, &mut credentials, s("prod"), AWSConfigure::default()).is_none());
    assert!(update(&mut configs, &mut credentials, s("other"), AWSConfigure::default()).is_none());
    assert_eq!(config_text(&configs), CONFIG);
    assert_eq!(credentials_text(&credentials), "[other]\n\n");
}

#[test]
fn list_rows() {
    assert_eq!(
        list_titles(),
        vec![s(""), s("NAME"), s("ACCOUNT"), s("MFA"), s("ROLE ARN"), s("EXPIRATION")]
    );
    let credentials = read_credential("[dev]\naccount = 1\nmfa_serial = m\nrole_arn = r\nexpiration = e\n[prod]\nk = v\n[prod-awsst]\nk = v\n");
    let selected = Selected { name: s("prod"), region: s("x") };
    let rows = list(&credentials, Some(&selected));
    assert_eq!(
        rows,
        vec![
            vec![s(""), s("dev"), s("1"), s("m"), s("r"), s("e")],
            vec![s("*"), s("prod"), s(""), s(""), s(""), s("")],
        ]
    );
    let rows = list(&credentials, None);
    assert_eq!(rows[1][0], "");
    let _ = Credential::default();
}
