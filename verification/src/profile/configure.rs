//! What the user enters when a profile is set up or changed.

use crate::profile::configs::{Config, ConfigView};
use crate::profile::credentials::{blank_credential, Credential, CredentialView};
use vstd::prelude::*;

verus! {

/// The entries of the set-up dialog. An empty text stands for "not given".
pub struct AWSConfigure {
    pub profile: String,
    pub region: String,
    pub output: String,
    pub access_key: String,
    pub secret_access_key: String,
    pub mfa_role: Option<String>,
}

/// `AWSConfigure` as the contracts see it.
pub struct ConfigureView {
    pub profile: Seq<char>,
    pub region: Seq<char>,
    pub output: Seq<char>,
    pub access_key: Seq<char>,
    pub secret_access_key: Seq<char>,
    pub mfa_role: Option<Seq<char>>,
}

impl View for AWSConfigure {
    type V = ConfigureView;

    open spec fn view(&self) -> ConfigureView {
        ConfigureView {
            profile: self.profile@,
            region: self.region@,
            output: self.output@,
            access_key: self.access_key@,
            secret_access_key: self.secret_access_key@,
            mfa_role: self.mfa_role.deep_view(),
        }
    }
}

/// The dialog with nothing entered.
pub open spec fn nothing_entered() -> ConfigureView {
    ConfigureView {
        profile: Seq::empty(),
        region: Seq::empty(),
        output: Seq::empty(),
        access_key: Seq::empty(),
        secret_access_key: Seq::empty(),
        mfa_role: None,
    }
}

impl Default for AWSConfigure {
    fn default() -> (r: Self)
        ensures
            r@ == nothing_entered(),
    {
        AWSConfigure {
            profile: String::new(),
            region: String::new(),
            output: String::new(),
            access_key: String::new(),
            secret_access_key: String::new(),
            mfa_role: None,
        }
    }
}

/// The text of an entry that may be missing.
pub open spec fn text_or_empty(o: Option<Seq<char>>) -> Seq<char> {
    match o {
        Some(s) => s,
        None => Seq::empty(),
    }
}

/// The dialog as it starts for a profile that exists.
pub open spec fn configure_of(config: ConfigView, c: CredentialView) -> ConfigureView {
    ConfigureView {
        profile: config.name,
        region: config.region,
        output: config.output,
        access_key: text_or_empty(c.access_key_id),
        secret_access_key: text_or_empty(c.secret_access_key),
        mfa_role: c.mfa_serial,
    }
}

/// The credential that the dialog starts from.
pub open spec fn credential_or_blank(c: Option<Credential>) -> CredentialView {
    match c {
        Some(c) => c@,
        None => blank_credential(),
    }
}

/// One question of the dialog.
pub struct Question {
    pub label: String,
    /// Whether an empty answer is refused.
    pub required: bool,
    /// The text that the answer starts with.
    pub initial: Option<String>,
}

/// `Question` as the contracts see it.
pub struct QuestionView {
    pub label: Seq<char>,
    pub required: bool,
    pub initial: Option<Seq<char>>,
}

impl View for Question {
    type V = QuestionView;

    open spec fn view(&self) -> QuestionView {
        QuestionView {
            label: self.label@,
            required: self.required,
            initial: self.initial.deep_view(),
        }
    }
}

/// The text that a required answer starts with: what was entered before, or
/// `fallback` where nothing was.
pub open spec fn initial_of(current: Seq<char>, fallback: Option<Seq<char>>) -> Option<Seq<char>> {
    if current.len() == 0 {
        fallback
    } else {
        Some(current)
    }
}

/// The questions of the dialog, in their order. The name of the profile is
/// asked only while there is none.
pub open spec fn questions_of(c: ConfigureView) -> Seq<QuestionView> {
    let fixed = seq![
        QuestionView {
            label: "Region"@,
            required: true,
            initial: initial_of(c.region, Some("ap-northeast-1"@)),
        },
        QuestionView {
            label: "Output"@,
            required: true,
            initial: initial_of(c.output, Some("json"@)),
        },
        QuestionView {
            label: "Access Key ID"@,
            required: true,
            initial: initial_of(c.access_key, None),
        },
        QuestionView {
            label: "Secret Access Key"@,
            required: true,
            initial: initial_of(c.secret_access_key, None),
        },
        QuestionView { label: "MFA Device ARN (Optional)"@, required: false, initial: c.mfa_role },
    ];
    if c.profile.len() == 0 {
        seq![QuestionView { label: "Profile Name"@, required: true, initial: None }] + fixed
    } else {
        fixed
    }
}

/// The dialog after the answers were given and confirmed. The name of a
/// profile that had one stays; an empty device is no device.
pub open spec fn answered(c: ConfigureView, a: ConfigureView) -> ConfigureView {
    ConfigureView {
        profile: if c.profile.len() == 0 {
            a.profile
        } else {
            c.profile
        },
        region: a.region,
        output: a.output,
        access_key: a.access_key,
        secret_access_key: a.secret_access_key,
        mfa_role: match a.mfa_role {
            Some(m) => if m.len() == 0 {
                None
            } else {
                Some(m)
            },
            None => None,
        },
    }
}

/// The rows that are shown before the user confirms: each entry under its
/// numbered title.
pub open spec fn summary_of(c: ConfigureView) -> Seq<(Seq<char>, Seq<char>)> {
    seq![
        ("1. Profile Name"@, c.profile),
        ("2. Region"@, c.region),
        ("3. Output"@, c.output),
        ("4. Access Key ID"@, c.access_key),
        ("5. Secret Access Key"@, c.secret_access_key),
        ("6. MFA Device ARN"@, text_or_empty(c.mfa_role)),
    ]
}

/// The rows as the contracts see them.
pub open spec fn rows_view(rows: Seq<(String, String)>) -> Seq<(Seq<char>, Seq<char>)> {
    Seq::new(rows.len(), |i: int| (rows[i].0@, rows[i].1@))
}

/// The text that an answer starts with.
fn initial_text(current: &String, fallback: Option<String>) -> (r: Option<String>)
    ensures
        r.deep_view() == initial_of(current@, fallback.deep_view()),
{
    if current.as_str().is_empty() {
        fallback
    } else {
        Some(current.clone())
    }
}

impl AWSConfigure {
    /// The dialog as it starts for the profile `config` with the credential
    /// `credential`.
    pub fn from_conf(config: Config, credential: Option<Credential>) -> (r: Self)
        ensures
            r@ == configure_of(config@, credential_or_blank(credential)),
    {
        let c = match credential {
            Some(c) => c,
            None => Credential::default(),
        };
        AWSConfigure {
            profile: config.name,
            region: config.region,
            output: config.output,
            access_key: match c.access_key_id {
                Some(ak) => ak,
                None => String::new(),
            },
            secret_access_key: match c.secret_access_key {
                Some(sak) => sak,
                None => String::new(),
            },
            mfa_role: c.mfa_serial,
        }
    }

    /// The questions to put to the user; see `questions_of`.
    pub fn dialog_questions(&self) -> (r: Vec<Question>)
        ensures
            r.len() == questions_of(self@).len(),
            forall|i: int| 0 <= i < r.len() ==> (#[trigger] r@[i])@ == questions_of(self@)[i],
    {
        let mut out: Vec<Question> = Vec::new();
        if self.profile.as_str().is_empty() {
            out.push(Question { label: "Profile Name".to_string(), required: true, initial: None });
        }
        out.push(
            Question {
                label: "Region".to_string(),
                required: true,
                initial: initial_text(&self.region, Some("ap-northeast-1".to_string())),
            },
        );
        out.push(
            Question {
                label: "Output".to_string(),
                required: true,
                initial: initial_text(&self.output, Some("json".to_string())),
            },
        );
        out.push(
            Question {
                label: "Access Key ID".to_string(),
                required: true,
                initial: initial_text(&self.access_key, None),
            },
        );
        out.push(
            Question {
                label: "Secret Access Key".to_string(),
                required: true,
                initial: initial_text(&self.secret_access_key, None),
            },
        );
        out.push(
            Question {
                label: "MFA Device ARN (Optional)".to_string(),
                required: false,
                initial: self.mfa_role.clone(),
            },
        );
        out
    }

    /// The rows to show before the user confirms; see `summary_of`.
    pub fn dialog_summary(&self) -> (r: Vec<(String, String)>)
        ensures
            rows_view(r@) == summary_of(self@),
    {
        let mut out: Vec<(String, String)> = Vec::new();
        out.push(("1. Profile Name".to_string(), self.profile.clone()));
        out.push(("2. Region".to_string(), self.region.clone()));
        out.push(("3. Output".to_string(), self.output.clone()));
        out.push(("4. Access Key ID".to_string(), self.access_key.clone()));
        out.push(("5. Secret Access Key".to_string(), self.secret_access_key.clone()));
        out.push(
            (
                "6. MFA Device ARN".to_string(),
                match &self.mfa_role {
                    Some(m) => m.clone(),
                    None => String::new(),
                },
            ),
        );
        assert(rows_view(out@) =~= summary_of(self@));
        out
    }

    /// Takes over the answers, if the user confirmed them; see `answered`.
    /// Without the confirmation nothing changes.
    pub fn dialog_for_user(&mut self, answers: AWSConfigure, confirmed: bool)
        ensures
            confirmed ==> final(self)@ == answered(old(self)@, answers@),
            !confirmed ==> final(self)@ == old(self)@,
    {
        if !confirmed {
            return ;
        }
        if self.profile.as_str().is_empty() {
            self.profile = answers.profile;
        }
        self.region = answers.region;
        self.output = answers.output;
        self.access_key = answers.access_key;
        self.secret_access_key = answers.secret_access_key;
        self.mfa_role = match answers.mfa_role {
            Some(m) => if m.as_str().is_empty() {
                None
            } else {
                Some(m)
            },
            None => None,
        };
    }
}

} // verus!
