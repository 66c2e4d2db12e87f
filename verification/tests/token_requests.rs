use awsst::profile::credentials::Credential;
use awsst::sts_client::{
    aws_sts_request, aws_sts_request_from, get_mfa_info, mfa_prompt, session_name,
    session_name_from, sts_assume_role, sts_session_token, AssumeRoleReq, MFAInfo, StsError,
    StsRequest, ASSUME_ROLE_SECONDS, ROLE_PATTERN, SESSION_TOKEN_SECONDS,
};

fn s(text: &str) -> String {
    text.to_string()
}

fn cred(mfa: Option<&str>, role: Option<&str>) -> Credential {
    let mut c = Credential::from_configure(s("prod-awsst"), s("AK"), s("SK"), mfa.map(s));
    c.role_arn = role.map(s);
    c
}

#[test]
fn session_name_is_the_name_of_the_role() {
    assert_eq!(session_name("arn:aws:iam::123456789012:role/DeployRole"), "DeployRole");
}

#[test]
fn session_name_of_other_text_is_the_text() {
    assert_eq!(session_name("not-an-arn"), "not-an-arn");
    assert_eq!(session_name("arn:aws:iam::12a:role/x"), "arn:aws:iam::12a:role/x");
    assert_eq!(session_name(""), "");
}

#[test]
fn session_name_edge_cases() {
    assert_eq!(session_name("arn:aws:iam:::role/"), "");
    assert_eq!(session_name("xx arn:aws:iam::1:role/path/Name tail"), "path/Name tail");
    assert_eq!(ROLE_PATTERN, "arn:aws:iam::[0-9]*:role/(.*)");
}

#[test]
fn session_name_from_capture() {
    assert_eq!(session_name_from(Some(s("Deploy")), "whatever"), "Deploy");
    assert_eq!(session_name_from(None, "whatever"), "whatever");
}

#[test]
fn durations() {
    assert_eq!(SESSION_TOKEN_SECONDS, 43200);
    assert_eq!(ASSUME_ROLE_SECONDS, 3600);
    match sts_session_token(MFAInfo { arn: None, code: None }) {
        StsRequest::SessionToken { duration_seconds, .. } => assert_eq!(duration_seconds, 43200),
        _ => panic!("a session token is asked for"),
    }
    match sts_assume_role(
        AssumeRoleReq { arn: Some(s("a")), session_name: s("n") },
        MFAInfo { arn: None, code: None },
    ) {
        StsRequest::AssumeRole { duration_seconds, role, .. } => {
            assert_eq!(duration_seconds, 3600);
            assert_eq!(role.session_name, "n");
        }
        _ => panic!("a role is assumed"),
    }
}

#[test]
fn mfa_prompt_names_the_device() {
    assert_eq!(
        mfa_prompt(&Some(s("arn:aws:iam::1:mfa/me"))),
        Some(s("Enter AWS MFA code for device [arn:aws:iam::1:mfa/me]"))
    );
    assert_eq!(mfa_prompt(&None), None);
}

#[test]
fn mfa_info_without_device_has_no_code() {
    let m = get_mfa_info(None, Some(s("123456")));
    assert_eq!(m.arn, None);
    assert_eq!(m.code, None);
    let m = get_mfa_info(Some(s("dev")), Some(s("123456")));
    assert_eq!(m.arn, Some(s("dev")));
    assert_eq!(m.code, Some(s("123456")));
}

#[test]
fn plain_credential_asks_for_a_session_token() {
    match aws_sts_request(cred(None, None), None) {
        Ok(StsRequest::SessionToken { mfa, duration_seconds }) => {
            assert_eq!(duration_seconds, 43200);
            assert_eq!(mfa.arn, None);
            assert_eq!(mfa.code, None);
        }
        _ => panic!("a session token is asked for"),
    }
}

#[test]
fn device_without_code_is_refused() {
    assert_eq!(aws_sts_request(cred(Some("dev"), None), None).err(), Some(StsError::NoCodeEntered));
    assert_eq!(
        aws_sts_request(cred(Some("dev"), Some("arn:aws:iam::1:role/R")), None).err(),
        Some(StsError::NoCodeEntered)
    );
}

#[test]
fn device_with_code_is_passed_on() {
    match aws_sts_request(cred(Some("dev"), None), Some(s("654321"))) {
        Ok(StsRequest::SessionToken { mfa, duration_seconds }) => {
            assert_eq!(duration_seconds, 43200);
            assert_eq!(mfa.arn, Some(s("dev")));
            assert_eq!(mfa.code, Some(s("654321")));
        }
        _ => panic!("a session token is asked for"),
    }
}

#[test]
fn role_is_assumed_for_an_hour() {
    match aws_sts_request(
        cred(Some("dev"), Some("arn:aws:iam::123456789012:role/DeployRole")),
        Some(s("1")),
    ) {
        Ok(StsRequest::AssumeRole { role, mfa, duration_seconds }) => {
            assert_eq!(duration_seconds, 3600);
            assert_eq!(role.arn, Some(s("arn:aws:iam::123456789012:role/DeployRole")));
            assert_eq!(role.session_name, "DeployRole");
            assert_eq!(mfa.arn, Some(s("dev")));
        }
        _ => panic!("a role is assumed"),
    }
    match aws_sts_request(cred(None, Some("custom-role")), None) {
        Ok(StsRequest::AssumeRole { role, .. }) => {
            assert_eq!(role.session_name, "custom-role");
        }
        _ => panic!("a role is assumed"),
    }
}

#[test]
fn request_from_given_capture() {
    match aws_sts_request_from(cred(None, Some("r")), None, Some(s("captured"))) {
        Ok(StsRequest::AssumeRole { role, .. }) => assert_eq!(role.session_name, "captured"),
        _ => panic!("a role is assumed"),
    }
    match aws_sts_request_from(cred(None, Some("r")), None, None) {
        Ok(StsRequest::AssumeRole { role, .. }) => assert_eq!(role.session_name, "r"),
        _ => panic!("a role is assumed"),
    }
}
