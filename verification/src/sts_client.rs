//! What is asked of the token service for one rotation: which of the two
//! exchanges, with which device and code, under which session name and for how
//! long. The exchange itself is made by the caller.

use crate::profile::credentials::{Credential, CredentialView};
use regex::Regex;
use vstd::prelude::*;

verus! {

/// The pattern of the name of a role: the role's own name is its first group.
pub const ROLE_PATTERN: &'static str = "arn:aws:iam::[0-9]*:role/(.*)";

/// The validity asked for when a session token is requested: twelve hours.
pub const SESSION_TOKEN_SECONDS: i32 = 43200;

/// The validity asked for when a role is assumed: one hour.
pub const ASSUME_ROLE_SECONDS: i32 = 3600;

/// What the first group of the regular expression `pattern` holds in its
/// leftmost match in `text`; `None` where `pattern` is no regular expression,
/// where it matches nowhere in `text`, or where it has no first group that
/// took part in the match.
pub uninterp spec fn first_group(pattern: Seq<char>, text: Seq<char>) -> Option<Seq<char>>;

/// Compiles `pattern` with `regex::Regex::new`, searches `text` with
/// `Regex::captures` and hands out the text of group 1 of the match.
/// The contract only gives that text its name, `first_group`.
#[verifier::external_body]
pub(crate) fn capture_first_group(pattern: &str, text: &str) -> (r: Option<String>)
    ensures
        r.deep_view() == first_group(pattern@, text@),
{
    match Regex::new(pattern) {
        Ok(re) => match re.captures(text) {
            Some(found) => match found.get(1) {
                Some(group) => Some(group.as_str().to_string()),
                None => None,
            },
            None => None,
        },
        Err(_) => None,
    }
}

/// The device that confirms a request, and the code read from it.
pub struct MFAInfo {
    pub arn: Option<String>,
    pub code: Option<String>,
}

/// `MFAInfo` as the contracts see it.
pub struct MFAView {
    pub arn: Option<Seq<char>>,
    pub code: Option<Seq<char>>,
}

impl View for MFAInfo {
    type V = MFAView;

    open spec fn view(&self) -> MFAView {
        MFAView { arn: self.arn.deep_view(), code: self.code.deep_view() }
    }
}

/// The role to assume, and the name of the session in it.
pub struct AssumeRoleReq {
    pub arn: Option<String>,
    pub session_name: String,
}

/// `AssumeRoleReq` as the contracts see it.
pub struct RoleView {
    pub arn: Option<Seq<char>>,
    pub session_name: Seq<char>,
}

impl View for AssumeRoleReq {
    type V = RoleView;

    open spec fn view(&self) -> RoleView {
        RoleView { arn: self.arn.deep_view(), session_name: self.session_name@ }
    }
}

/// One request to the token service.
pub enum StsRequest {
    /// Temporary credentials for the caller itself.
    SessionToken { mfa: MFAInfo, duration_seconds: i32 },
    /// Temporary credentials in a role.
    AssumeRole { role: AssumeRoleReq, mfa: MFAInfo, duration_seconds: i32 },
}

/// `StsRequest` as the contracts see it.
pub enum RequestView {
    SessionToken { mfa: MFAView, duration_seconds: int },
    AssumeRole { role: RoleView, mfa: MFAView, duration_seconds: int },
}

impl View for StsRequest {
    type V = RequestView;

    open spec fn view(&self) -> RequestView {
        match self {
            StsRequest::SessionToken { mfa, duration_seconds } => RequestView::SessionToken {
                mfa: mfa@,
                duration_seconds: *duration_seconds as int,
            },
            StsRequest::AssumeRole { role, mfa, duration_seconds } => RequestView::AssumeRole {
                role: role@,
                mfa: mfa@,
                duration_seconds: *duration_seconds as int,
            },
        }
    }
}

/// Why no request can be made.
#[derive(Debug, Clone, Copy, PartialEq, Eq, Structural)]
pub enum StsError {
    /// The credential names a device, and no code was entered for it.
    NoCodeEntered,
}

/// The name of a session in the role `role_arn`, when the pattern of role
/// names captured `capture` in it: what was captured, and the whole of
/// `role_arn` where nothing was.
pub open spec fn session_name_of(capture: Option<Seq<char>>, role_arn: Seq<char>) -> Seq<char> {
    match capture {
        Some(name) => name,
        None => role_arn,
    }
}

/// The device and code of a request for a credential with the device
/// `mfa_serial`, when `code` was entered: without a device there is no code.
pub open spec fn mfa_of(mfa_serial: Option<Seq<char>>, code: Option<Seq<char>>) -> MFAView {
    match mfa_serial {
        Some(arn) => MFAView { arn: Some(arn), code },
        None => MFAView { arn: None, code: None },
    }
}

/// The request that the credential `c` makes when `code` was entered and the
/// pattern of role names captured `capture` in its role, if it has one. With
/// a role, the role is assumed for an hour; without, a session token is asked
/// for twelve hours. A credential with a device and no code makes none.
pub open spec fn request_of(
    c: CredentialView,
    code: Option<Seq<char>>,
    capture: Option<Seq<char>>,
) -> Result<RequestView, StsError> {
    if c.mfa_serial is Some && code is None {
        Err(StsError::NoCodeEntered)
    } else {
        match c.role_arn {
            Some(arn) => Ok(
                RequestView::AssumeRole {
                    role: RoleView { arn: Some(arn), session_name: session_name_of(capture, arn) },
                    mfa: mfa_of(c.mfa_serial, code),
                    duration_seconds: 3600,
                },
            ),
            None => Ok(
                RequestView::SessionToken {
                    mfa: mfa_of(c.mfa_serial, code),
                    duration_seconds: 43200,
                },
            ),
        }
    }
}

/// The view of a result of `aws_sts_request`.
pub open spec fn request_view(r: Result<StsRequest, StsError>) -> Result<RequestView, StsError> {
    match r {
        Ok(q) => Ok(q@),
        Err(e) => Err(e),
    }
}

/// The question to put to the user before a request with the device
/// `mfa_serial`: none without a device.
pub fn mfa_prompt(mfa_serial: &Option<String>) -> (r: Option<String>)
    ensures
        match mfa_serial {
            Some(arn) => r.is_some() && r.unwrap()@ == "Enter AWS MFA code for device ["@ + arn@
                + "]"@,
            None => r.is_none(),
        },
{
    match mfa_serial {
        Some(arn) => {
            let mut msg = "Enter AWS MFA code for device [".to_string();
            msg.append(arn.as_str());
            msg.append("]");
            Some(msg)
        },
        None => None,
    }
}

/// The device and the code for a request; see `mfa_of`.
pub fn get_mfa_info(mfa_serial: Option<String>, code: Option<String>) -> (r: MFAInfo)
    ensures
        r@ == mfa_of(mfa_serial.deep_view(), code.deep_view()),
{
    match mfa_serial {
        None => MFAInfo { arn: None, code: None },
        Some(arn) => MFAInfo { arn: Some(arn), code },
    }
}

/// The name of a session in a role, from what the pattern captured.
pub fn session_name_from(capture: Option<String>, role_arn: &str) -> (r: String)
    ensures
        r@ == session_name_of(capture.deep_view(), role_arn@),
{
    match capture {
        Some(name) => name,
        None => role_arn.to_owned(),
    }
}

/// The name of a session in the role `role_arn`: the role's own name where
/// `role_arn` has the form of a role's name, else `role_arn` itself.
pub fn session_name(role_arn: &str) -> (r: String)
    ensures
        r@ == session_name_of(first_group(ROLE_PATTERN@, role_arn@), role_arn@),
{
    session_name_from(capture_first_group(ROLE_PATTERN, role_arn), role_arn)
}

/// The request for a session token, for twelve hours.
pub fn sts_session_token(mfa: MFAInfo) -> (r: StsRequest)
    ensures
        r@ == (RequestView::SessionToken { mfa: mfa@, duration_seconds: 43200 }),
{
    StsRequest::SessionToken { mfa, duration_seconds: SESSION_TOKEN_SECONDS }
}

/// The request to assume a role, for one hour.
pub fn sts_assume_role(role: AssumeRoleReq, mfa: MFAInfo) -> (r: StsRequest)
    ensures
        r@ == (RequestView::AssumeRole { role: role@, mfa: mfa@, duration_seconds: 3600 }),
{
    StsRequest::AssumeRole { role, mfa, duration_seconds: ASSUME_ROLE_SECONDS }
}

/// The request that `credential` makes when `code` was entered and the
/// pattern captured `capture` in its role; see `request_of`.
pub fn aws_sts_request_from(
    credential: Credential,
    code: Option<String>,
    capture: Option<String>,
) -> (r: Result<StsRequest, StsError>)
    ensures
        request_view(r) == request_of(credential@, code.deep_view(), capture.deep_view()),
{
    if credential.mfa_serial.is_some() && code.is_none() {
        return Err(StsError::NoCodeEntered);
    }
    let mfa = get_mfa_info(credential.mfa_serial, code);
    match credential.role_arn {
        Some(assume_role) => {
            let session_name = session_name_from(capture, assume_role.as_str());
            let role_req = AssumeRoleReq { arn: Some(assume_role), session_name };
            Ok(sts_assume_role(role_req, mfa))
        },
        None => Ok(sts_session_token(mfa)),
    }
}

/// What the pattern of role names captures in the role of `c`.
pub open spec fn role_capture(c: CredentialView) -> Option<Seq<char>> {
    match c.role_arn {
        Some(arn) => first_group(ROLE_PATTERN@, arn),
        None => None,
    }
}

/// The request that `credential` makes when `code` was entered for its
/// device.
pub fn aws_sts_request(credential: Credential, code: Option<String>) -> (r: Result<
    StsRequest,
    StsError,
>)
    ensures
        request_view(r) == request_of(credential@, code.deep_view(), role_capture(credential@)),
{
    let capture = match &credential.role_arn {
        Some(arn) => capture_first_group(ROLE_PATTERN, arn.as_str()),
        None => None,
    };
    aws_sts_request_from(credential, code, capture)
}

} // verus!
