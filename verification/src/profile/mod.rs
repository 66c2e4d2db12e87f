//! The stores of profiles, credentials and the selection, and what each
//! command decides on them. Reading and writing the files, asking the user
//! and talking to the token service are left to the caller: a function here
//! takes what was read or answered, and hands back what is to be done and the
//! text that is to be written.

use crate::profile::configs::{
    config_index, distinct_names, dropped, lemma_chosen_registered, lemma_config_index,
    selection_of, AWSConfigs, Config, ConfigView, Selection, SelectionView,
};
use crate::profile::configure::{configure_of, AWSConfigure, ConfigureView};
use crate::profile::credentials::{
    base_name, blank_credential, candidate, committed, find, is_managed, lemma_find,
    lemma_find_push, lemma_find_update, managed_name, paired, promoted, reading_of, renamed,
    rotation_by, Rotation,
    without, AWSCredentials, Credential, CredentialView, StoreView, TemporaryCredential,
    SAFETY_MARGIN_SECS,
};
use crate::profile::select::{
    new_selected, selecteds_stored, AWSSelecteds, Selected, SelectedView,
};
use crate::sts_client::mfa_prompt;
use crate::utils::file::{parse_spec, read, serialize_spec, shape_aws_toml, SectionSeq};
use crate::utils::sections::lookup;
use crate::utils::AWSFileManager;
use vstd::prelude::*;

pub mod configs;
pub mod configure;
pub mod credentials;
pub mod select;

verus! {

/// The file of the config store.
pub const CONFIG_FILE_NAME: &'static str = "config";

/// The file of the credential store.
pub const CREDENTIAL_FILE_NAME: &'static str = "credentials";

/// The file of the selection store.
pub const TOOL_FILE_NAME: &'static str = "awsst";

/// The config store that the text of its file gives, or `None` where a
/// section lacks the region or the output format.
pub fn read_config(text: &str) -> (r: Option<AWSConfigs>)
    ensures
        r is Some <==> AWSConfigs::loadable(parse_spec(text@)),
        r matches Some(store) ==> store.loaded_from(parse_spec(text@)),
{
    read::<AWSConfigs, Config>(text)
}

/// The credential store that the text of its file gives.
pub fn read_credential(text: &str) -> (r: AWSCredentials)
    ensures
        r.loaded_from(parse_spec(text@)),
{
    AWSCredentials::new(shape_aws_toml(text))
}

/// The selection store that the text of its file gives, or `None` where a
/// section lacks the name or the region.
pub fn read_tool(text: &str) -> (r: Option<AWSSelecteds>)
    ensures
        r is Some <==> AWSSelecteds::loadable(parse_spec(text@)),
        r matches Some(store) ==> store.loaded_from(parse_spec(text@)),
{
    read::<AWSSelecteds, Selected>(text)
}

/// The name of the active profile, for the shell to take over: that of the
/// record `selected`, if the store has it.
pub fn initialize(selecteds: &AWSSelecteds) -> (r: Option<String>)
    ensures
        r.deep_view() == match lookup(selecteds@, "selected"@) {
            Some(s) => Some(s.name),
            None => None,
        },
{
    match selecteds.get("selected") {
        Some(p) => Some(p.name.clone()),
        None => None,
    }
}

/// What a request for a rotation leads to.
pub enum SessionStep {
    /// No profile is registered; nothing is done.
    NoProfiles,
    /// The profile that was named is not registered; nothing is done.
    UnknownProfile(String),
    /// The user has to pick one of these profiles; the request is then made
    /// again for that profile.
    AskProfile(Vec<String>),
    /// The profile has no credential; nothing is done.
    MissingCredential(String),
    /// The credential is still good for the safety margin or longer, and the
    /// rotation was not forced; nothing is done.
    NotYetExpired(String),
    /// The expiration of the credential cannot be read; nothing is done.
    UnreadableExpiration(String),
    /// New credentials are to be asked for: with `candidate`, in `region`,
    /// after `prompt` was put to the user where there is one.
    Rotate { name: String, region: String, candidate: Credential, prompt: Option<String> },
}

/// `SessionStep` as the contracts see it.
pub enum StepView {
    NoProfiles,
    UnknownProfile(Seq<char>),
    AskProfile(Seq<Seq<char>>),
    MissingCredential(Seq<char>),
    NotYetExpired(Seq<char>),
    UnreadableExpiration(Seq<char>),
    Rotate {
        name: Seq<char>,
        region: Seq<char>,
        candidate: CredentialView,
        prompt: Option<Seq<char>>,
    },
}

impl View for SessionStep {
    type V = StepView;

    open spec fn view(&self) -> StepView {
        match self {
            SessionStep::NoProfiles => StepView::NoProfiles,
            SessionStep::UnknownProfile(n) => StepView::UnknownProfile(n@),
            SessionStep::AskProfile(v) => StepView::AskProfile(v.deep_view()),
            SessionStep::MissingCredential(n) => StepView::MissingCredential(n@),
            SessionStep::NotYetExpired(n) => StepView::NotYetExpired(n@),
            SessionStep::UnreadableExpiration(s) => StepView::UnreadableExpiration(s@),
            SessionStep::Rotate { name, region, candidate, prompt } => StepView::Rotate {
                name: name@,
                region: region@,
                candidate: candidate@,
                prompt: prompt.deep_view(),
            },
        }
    }
}

/// The question for the code of the device `mfa_serial`.
pub open spec fn prompt_of(mfa_serial: Option<Seq<char>>) -> Option<Seq<char>> {
    match mfa_serial {
        Some(arn) => Some("Enter AWS MFA code for device ["@ + arn + "]"@),
        None => None,
    }
}

/// What a request to rotate `profile` leads to, and the credential store
/// after it, when the clock gave `reading` for the expiration of the
/// profile's credential: the seconds that are left, or nothing where the
/// expiration could not be read.
///
/// The profile is settled first. It needs a credential. What is decided of
/// the rotation then is `rotation_by`: where it is not due, or cannot be
/// decided, the request stops and the store stays as it is; where it is due,
/// the original of the profile is made sure of, and new credentials are asked
/// for with it.
pub open spec fn session_step(
    configs: Seq<ConfigView>,
    store: StoreView,
    profile: Option<Seq<char>>,
    force: bool,
    reading: Option<int>,
) -> (StepView, StoreView) {
    match selection_of(configs, profile) {
        SelectionView::NoProfiles => (StepView::NoProfiles, store),
        SelectionView::Unknown(p) => (StepView::UnknownProfile(p), store),
        SelectionView::Ask(names) => (StepView::AskProfile(names), store),
        SelectionView::Chosen(name) => {
            let i = find(store.bases, name);
            if i < 0 {
                (StepView::MissingCredential(name), store)
            } else {
                match rotation_by(store.bases[i], force, reading) {
                    Rotation::NotDue => (StepView::NotYetExpired(name), store),
                    Rotation::Unreadable(stamp) => (StepView::UnreadableExpiration(stamp), store),
                    Rotation::Due => {
                        let c = candidate(store, name);
                        (
                            StepView::Rotate {
                                name,
                                region: configs[config_index(configs, name)].region,
                                candidate: c,
                                prompt: prompt_of(c.mfa_serial),
                            },
                            promoted(store, name),
                        )
                    },
                }
            }
        },
    }
}

/// A profile that is not forced and whose credential is still good for the
/// safety margin or longer is left alone: the request stops, and the
/// credential store is as it was, so that nothing is exchanged and nothing
/// has to be written.
pub proof fn lemma_fresh_profile_rests(
    configs: Seq<ConfigView>,
    store: StoreView,
    profile: Option<Seq<char>>,
    remaining: int,
)
    requires
        selection_of(configs, profile) matches SelectionView::Chosen(name) && find(
            store.bases,
            name,
        ) >= 0 && store.bases[find(store.bases, name)].expiration is Some,
        remaining >= SAFETY_MARGIN_SECS,
    ensures
        session_step(configs, store, profile, false, Some(remaining)).0 is NotYetExpired,
        session_step(configs, store, profile, false, Some(remaining)).1 == store,
{
}

/// A forced request, or one for a profile whose credential has no
/// expiration, leads to a rotation whatever the clock gave: the original of
/// the profile is made sure of and handed out under the name with the suffix.
pub proof fn lemma_due_profile_rotates(
    configs: Seq<ConfigView>,
    store: StoreView,
    profile: Option<Seq<char>>,
    force: bool,
    reading: Option<int>,
)
    requires
        selection_of(configs, profile) matches SelectionView::Chosen(name) && find(
            store.bases,
            name,
        ) >= 0 && (force || store.bases[find(store.bases, name)].expiration is None),
    ensures
        session_step(configs, store, profile, force, reading).0 matches StepView::Rotate {
            name,
            candidate,
            ..
        } && candidate.name == managed_name(name) && session_step(
            configs,
            store,
            profile,
            force,
            reading,
        ).1 == promoted(store, name),
{
    let name = selection_of(configs, profile)->Chosen_0;
    let p = promoted(store, name);
    lemma_find(store.bases, name);
    lemma_find(store.originals, managed_name(name));
    lemma_find(p.originals, managed_name(name));
    lemma_find_push(
        store.originals,
        renamed(store.bases[find(store.bases, name)], managed_name(name)),
        managed_name(name),
    );
}

/// Whatever the clock gave, the step is one of three: that for a credential
/// that has expired, that for one that is still good, and that for one whose
/// expiration cannot be read.
pub proof fn lemma_three_steps(
    configs: Seq<ConfigView>,
    store: StoreView,
    profile: Option<Seq<char>>,
    force: bool,
    reading: Option<int>,
)
    ensures
        ({
            let step = session_step(configs, store, profile, force, reading);
            ||| step == session_step(configs, store, profile, force, Some(0))
            ||| step == session_step(
                configs,
                store,
                profile,
                force,
                Some(SAFETY_MARGIN_SECS as int),
            )
            ||| step == session_step(configs, store, profile, force, None)
        }),
{
}

/// The region of the profile `name`.
fn region_of(configs: &AWSConfigs, name: &String) -> (r: String)
    requires
        config_index(configs@, name@) >= 0,
    ensures
        r@ == configs@[config_index(configs@, name@)].region,
{
    match configs.get(name) {
        Some(c) => c.region.clone(),
        None => String::new(),
    }
}

/// What a request to rotate `profile` leads to when the clock gave `reading`
/// for the expiration of its credential; see `session_step`.
pub fn session_token_at(
    configs: &AWSConfigs,
    credentials: &mut AWSCredentials,
    profile: Option<String>,
    force: bool,
    reading: Option<i64>,
) -> (r: SessionStep)
    ensures
        (r@, final(credentials)@) == session_step(
            configs@,
            old(credentials)@,
            profile.deep_view(),
            force,
            reading_of(reading),
        ),
        paired(old(credentials)@) ==> paired(final(credentials)@),
{
    proof {
        lemma_chosen_registered(configs@, profile.deep_view());
    }
    match configs.selection_config_name(profile) {
        Selection::NoProfiles => SessionStep::NoProfiles,
        Selection::Unknown(p) => SessionStep::UnknownProfile(p),
        Selection::Ask(names) => SessionStep::AskProfile(names),
        Selection::Chosen(name) => {
            if !credentials.exists_credential(name.clone()) {
                return SessionStep::MissingCredential(name);
            }
            match credentials.auth_credential_at(name.clone(), force, reading) {
                Err(e) => SessionStep::UnreadableExpiration(e.stamp),
                Ok(None) => SessionStep::NotYetExpired(name),
                Ok(Some(candidate)) => {
                    let region = region_of(configs, &name);
                    let prompt = mfa_prompt(&candidate.mfa_serial);
                    SessionStep::Rotate { name, region, candidate, prompt }
                },
            }
        },
    }
}

/// What the machine's clock says of the expiration of the credential that a
/// request to rotate `profile` is about. The clock is not asked where the
/// request is forced, where the profile is not settled or has no credential,
/// or where the credential has no expiration.
fn session_reading(
    configs: &AWSConfigs,
    credentials: &AWSCredentials,
    profile: Option<String>,
    force: bool,
) -> (r: Option<i64>)
{
    if force {
        return None;
    }
    match configs.selection_config_name(profile) {
        Selection::Chosen(name) => {
            if credentials.exists_credential(name.clone()) {
                credentials.use_credential(name).clock_reading()
            } else {
                None
            }
        },
        _ => None,
    }
}

/// What a request to rotate `profile` leads to now, by the machine's clock:
/// the clock is read, and the reading decides as `session_step` says.
///
/// Whatever the clock says, the step is the one for a credential that has
/// expired, the one for a credential that is still good, or the one for an
/// expiration that cannot be read, which carries that expiration. The three
/// are the same where the clock has no say: for a profile that is not
/// settled or has no credential, for a forced request, and for a credential
/// without an expiration.
pub fn session_token(
    configs: &AWSConfigs,
    credentials: &mut AWSCredentials,
    profile: Option<String>,
    force: bool,
) -> (r: SessionStep)
    ensures
        ({
            let step = (r@, final(credentials)@);
            let before = old(credentials)@;
            ||| step == session_step(configs@, before, profile.deep_view(), force, Some(0))
            ||| step == session_step(
                configs@,
                before,
                profile.deep_view(),
                force,
                Some(SAFETY_MARGIN_SECS as int),
            )
            ||| step == session_step(configs@, before, profile.deep_view(), force, None)
        }),
        paired(old(credentials)@) ==> paired(final(credentials)@),
{
    let reading = session_reading(configs, credentials, profile.clone(), force);
    proof {
        lemma_three_steps(
            configs@,
            credentials@,
            profile.deep_view(),
            force,
            reading_of(reading),
        );
    }
    session_token_at(configs, credentials, profile, force, reading)
}

/// The texts of the two files that a command leaves to be written.
pub struct Written {
    pub config: String,
    pub credentials: String,
}

/// Whether `w` holds the texts of the two stores.
pub open spec fn written_of(w: Written, configs: AWSConfigs, credentials: AWSCredentials) -> bool {
    &&& w.config@ == serialize_spec(configs.file_sections())
    &&& w.credentials@ == serialize_spec(credentials.file_sections())
}

/// The texts of the two stores.
fn written(configs: &AWSConfigs, credentials: &AWSCredentials) -> (r: Written)
    ensures
        written_of(r, *configs, *credentials),
{
    Written {
        config: crate::utils::file::write(&configs.to_file()),
        credentials: crate::utils::file::write(&credentials.to_file()),
    }
}

/// How a rotation ends once the new credentials are there.
pub enum SessionEnd {
    /// No base stands for the name under which the credentials were asked
    /// for: nothing was taken over, and nothing is to be written.
    CommitMismatch,
    /// The credentials were taken over: both files are to be written, and
    /// `expiration` is the new expiration of the base.
    Persist { written: Written, expiration: Option<String> },
}

/// Takes over the credentials `received` that were asked for with the
/// credential named `key`, and hands back the texts of both files: that of
/// the config store, which does not change, and that of the credential
/// store.
pub fn session_commit(
    configs: &AWSConfigs,
    credentials: &mut AWSCredentials,
    key: String,
    received: TemporaryCredential,
    account: Option<String>,
) -> (r: SessionEnd)
    ensures
        final(credentials)@ == committed(
            old(credentials)@,
            key@,
            received@,
            account.deep_view(),
        ),
        match r {
            SessionEnd::CommitMismatch => find(old(credentials)@.bases, base_name(key@)) < 0,
            SessionEnd::Persist { written, expiration } => {
                let i = find(old(credentials)@.bases, base_name(key@));
                &&& i >= 0
                &&& written_of(written, *configs, *final(credentials))
                &&& expiration.deep_view() == final(credentials)@.bases[i].expiration
            },
        },
        paired(old(credentials)@) ==> paired(final(credentials)@),
{
    match credentials.set_credential(key, received, account) {
        None => SessionEnd::CommitMismatch,
        Some(updated) => {
            SessionEnd::Persist {
                written: written(configs, credentials),
                expiration: updated.expiration,
            }
        },
    }
}

/// The sections of the selection file that names `config` as the active
/// profile.
pub open spec fn selection_sections(config: ConfigView) -> SectionSeq {
    let only = seq![("selected"@, (SelectedView { name: config.name, region: config.region }))];
    selecteds_stored(only, Seq::empty())
}

/// The text of the selection file that names `config` as the active profile.
pub fn _set_tool_file(config: &Config) -> (r: String)
    ensures
        r@ == serialize_spec(selection_sections(config@)),
{
    let selecteds = new_selected(config.name.clone(), config.region.clone());
    crate::utils::file::write(&selecteds.to_file())
}

/// The text of the selection file that makes `name` the active profile, or
/// `None` where no such profile is registered.
pub fn use_profile(configs: &AWSConfigs, name: &String) -> (r: Option<String>)
    ensures
        match r {
            Some(text) => config_index(configs@, name@) >= 0 && text@ == serialize_spec(
                selection_sections(configs@[config_index(configs@, name@)]),
            ),
            None => config_index(configs@, name@) < 0,
        },
{
    match configs.get(name) {
        Some(config) => Some(_set_tool_file(config)),
        None => None,
    }
}

/// Drops the profile `name` from both stores: its config, its bases, and the
/// originals that were put aside for it. Afterwards neither store holds
/// anything under the name, nor the credential store anything under the name
/// with the suffix.
pub fn remove(configs: &mut AWSConfigs, credentials: &mut AWSCredentials, name: String) -> (r:
    Written)
    ensures
        final(configs)@ == dropped(old(configs)@, name@),
        final(credentials)@.bases == without(old(credentials)@.bases, name@),
        final(credentials)@.originals == without(
            old(credentials)@.originals,
            managed_name(name@),
        ),
        config_index(final(configs)@, name@) < 0,
        find(final(credentials)@.bases, name@) < 0,
        find(final(credentials)@.originals, managed_name(name@)) < 0,
        written_of(r, *final(configs), *final(credentials)),
        old(configs).wf() ==> final(configs).wf(),
        paired(old(credentials)@) ==> paired(final(credentials)@),
{
    configs.remove(name.clone());
    credentials.remove(name);
    written(configs, credentials)
}

/// The config that the dialog gives.
pub open spec fn entered_config(e: ConfigureView) -> ConfigView {
    ConfigView { name: e.profile, region: e.region, output: e.output }
}

/// The credential that the dialog gives for a new profile.
pub open spec fn entered_credential(e: ConfigureView) -> CredentialView {
    CredentialView {
        name: e.profile,
        access_key_id: Some(e.access_key),
        secret_access_key: Some(e.secret_access_key),
        mfa_serial: e.mfa_role,
        ..blank_credential()
    }
}

/// Registers the profile that was entered, with its config and its
/// credential. A profile whose name is taken is refused: the result is
/// `None`, and both stores stay as they are.
pub fn configure(
    configs: &mut AWSConfigs,
    credentials: &mut AWSCredentials,
    entered: &AWSConfigure,
) -> (r: Option<Written>)
    ensures
        r is None <==> config_index(old(configs)@, entered@.profile) >= 0,
        r is None ==> final(configs)@ == old(configs)@ && final(credentials)@ == old(credentials)@,
        r matches Some(w) ==> {
            &&& final(configs)@ == old(configs)@.push(entered_config(entered@))
            &&& final(credentials)@.bases == old(credentials)@.bases.push(
                entered_credential(entered@),
            )
            &&& final(credentials)@.originals == old(credentials)@.originals
            &&& written_of(w, *final(configs), *final(credentials))
        },
        old(configs).wf() ==> final(configs).wf(),
        paired(old(credentials)@) ==> paired(final(credentials)@),
{
    if configs.exists_config(entered.profile.clone()) {
        return None;
    }
    configs.add(
        Config {
            name: entered.profile.clone(),
            region: entered.region.clone(),
            output: entered.output.clone(),
        },
    );
    credentials.add(
        Credential::from_configure(
            entered.profile.clone(),
            entered.access_key.clone(),
            entered.secret_access_key.clone(),
            entered.mfa_role.clone(),
        ),
    );
    Some(written(configs, credentials))
}

/// The credential that an update of the profile `key` changes: the original
/// where one was put aside, else the base.
pub open spec fn preferred(s: StoreView, key: Seq<char>) -> CredentialView {
    if find(s.originals, managed_name(key)) >= 0 {
        s.originals[find(s.originals, managed_name(key))]
    } else {
        s.bases[find(s.bases, key)]
    }
}

/// `c` with the long-lived keys and the device that were entered.
pub open spec fn edited(c: CredentialView, e: ConfigureView) -> CredentialView {
    CredentialView {
        access_key_id: Some(e.access_key),
        secret_access_key: Some(e.secret_access_key),
        mfa_serial: e.mfa_role,
        ..c
    }
}

/// The credential store after the entries were taken over for the profile
/// `key`.
pub open spec fn store_edited(s: StoreView, key: Seq<char>, e: ConfigureView) -> StoreView {
    let o = find(s.originals, managed_name(key));
    let b = find(s.bases, key);
    if o >= 0 {
        StoreView { bases: s.bases, originals: s.originals.update(o, edited(s.originals[o], e)) }
    } else {
        StoreView { bases: s.bases.update(b, edited(s.bases[b], e)), originals: s.originals }
    }
}

/// The config `c` with the region and the output format that were entered.
pub open spec fn config_edited(c: ConfigView, e: ConfigureView) -> ConfigView {
    ConfigView { name: c.name, region: e.region, output: e.output }
}

/// Taking entries over keeps the originals paired.
pub proof fn lemma_edited_paired(s: StoreView, key: Seq<char>, e: ConfigureView)
    requires
        find(s.bases, key) >= 0,
    ensures
        paired(s) ==> paired(store_edited(s, key, e)),
{
    let r = store_edited(s, key, e);
    let o = find(s.originals, managed_name(key));
    let b = find(s.bases, key);
    lemma_find(s.originals, managed_name(key));
    lemma_find(s.bases, key);
    if paired(s) {
        assert forall|i: int| 0 <= i < r.originals.len() implies is_managed(
            (#[trigger] r.originals[i]).name,
        ) && find(r.bases, base_name(r.originals[i].name)) >= 0 by {
            assert(r.originals[i].name == s.originals[i].name);
            assert(is_managed(s.originals[i].name));
            if o < 0 {
                lemma_find_update(
                    s.bases,
                    b,
                    edited(s.bases[b], e),
                    base_name(s.originals[i].name),
                );
            }
        }
    }
}

/// Taking entries over keeps the names of the configs distinct.
pub proof fn lemma_config_edited(list: Seq<ConfigView>, name: Seq<char>, e: ConfigureView)
    requires
        config_index(list, name) >= 0,
    ensures
        distinct_names(list) ==> distinct_names(
            list.update(
                config_index(list, name),
                config_edited(list[config_index(list, name)], e),
            ),
        ),
{
    let i = config_index(list, name);
    lemma_config_index(list, name);
    let r = list.update(i, config_edited(list[i], e));
    if distinct_names(list) {
        assert forall|a: int, b: int| 0 <= a < b < r.len() implies (#[trigger] r[a]).name != (
        #[trigger] r[b]).name by {
            assert(list[a].name != list[b].name);
        }
    }
}

/// Whether the profile `name` can be updated: it is registered and has a
/// credential.
pub open spec fn updatable(configs: Seq<ConfigView>, s: StoreView, name: Seq<char>) -> bool {
    config_index(configs, name) >= 0 && find(s.bases, name) >= 0
}

/// The dialog with which an update of the profile `name` starts: its config,
/// and the keys of its original where one was put aside, else of its base.
/// `None` where the profile cannot be updated.
pub fn update_dialog(configs: &AWSConfigs, credentials: &AWSCredentials, name: String) -> (r:
    Option<AWSConfigure>)
    ensures
        r is Some <==> updatable(configs@, credentials@, name@),
        r matches Some(d) ==> d@ == configure_of(
            configs@[config_index(configs@, name@)],
            preferred(credentials@, name@),
        ),
{
    let config = match configs.get(&name) {
        Some(c) => c.clone(),
        None => {
            return None;
        },
    };
    if !credentials.exists_credential(name.clone()) {
        return None;
    }
    let cred = credentials.preferred_credential(&name);
    Some(AWSConfigure::from_conf(config, cred))
}

/// Takes the entries over for the profile `name`: region and output format
/// go to its config, the keys and the device to its original where one was
/// put aside, else to its base. `None`, and no change, where the profile
/// cannot be updated.
pub fn update(
    configs: &mut AWSConfigs,
    credentials: &mut AWSCredentials,
    name: String,
    entered: AWSConfigure,
) -> (r: Option<Written>)
    ensures
        r is Some <==> updatable(old(configs)@, old(credentials)@, name@),
        r is None ==> final(configs)@ == old(configs)@ && final(credentials)@ == old(credentials)@,
        r matches Some(w) ==> {
            let i = config_index(old(configs)@, name@);
            &&& final(configs)@ == old(configs)@.update(
                i,
                config_edited(old(configs)@[i], entered@),
            )
            &&& final(credentials)@ == store_edited(old(credentials)@, name@, entered@)
            &&& written_of(w, *final(configs), *final(credentials))
        },
        old(configs).wf() ==> final(configs).wf(),
        paired(old(credentials)@) ==> paired(final(credentials)@),
{
    proof {
        if updatable(old(configs)@, old(credentials)@, name@) {
            lemma_edited_paired(old(credentials)@, name@, entered@);
            lemma_config_edited(old(configs)@, name@, entered@);
        }
    }
    let at = match configs.position(&name) {
        Some(i) => i,
        None => {
            return None;
        },
    };
    if !credentials.exists_credential(name.clone()) {
        return None;
    }
    let ghost before = credentials@;
    let ghost o = find(before.originals, managed_name(name@));
    let ghost b = find(before.bases, name@);
    proof {
        lemma_find(before.originals, managed_name(name@));
        lemma_find(before.bases, name@);
    }
    match credentials.suffix_credential(name) {
        Some(cred) => {
            cred.access_key_id = Some(entered.access_key);
            cred.secret_access_key = Some(entered.secret_access_key);
            cred.mfa_serial = entered.mfa_role;
        },
        None => {},
    }
    proof {
        let after = store_edited(before, name@, entered@);
        if o >= 0 {
            assert(credentials.originals@.len() == old(credentials).originals@.len());
            assert(credentials.originals@[o]@ == edited(before.originals[o], entered@));
            assert(credentials@.originals =~= after.originals);
            assert(credentials@.bases =~= after.bases);
        } else {
            assert(credentials.bases@[b]@ == edited(before.bases[b], entered@));
            assert(credentials@.bases =~= after.bases);
            assert(credentials@.originals =~= after.originals);
        }
    }
    let ghost configs_before = configs@;
    configs.items[at].region = entered.region;
    configs.items[at].output = entered.output;
    proof {
        assert(configs@ =~= configs_before.update(
            at as int,
            config_edited(configs_before[at as int], entered@),
        ));
    }
    Some(written(configs, credentials))
}

/// The titles of the table of profiles.
pub open spec fn list_titles_of() -> Seq<Seq<char>> {
    seq![""@, "NAME"@, "ACCOUNT"@, "MFA"@, "ROLE ARN"@, "EXPIRATION"@]
}

/// The text of a field that may be unset.
pub open spec fn shown(o: Option<Seq<char>>) -> Seq<char> {
    match o {
        Some(s) => s,
        None => Seq::empty(),
    }
}

/// The row of one base: a mark where it is the active profile, its name, and
/// its account, device, role and expiration as far as they are set.
pub open spec fn list_row(c: CredentialView, selected: Option<SelectedView>) -> Seq<Seq<char>> {
    seq![
        if selected is Some && selected.unwrap().name == c.name {
            "*"@
        } else {
            ""@
        },
        c.name,
        shown(c.account),
        shown(c.mfa_serial),
        shown(c.role_arn),
        shown(c.expiration),
    ]
}

/// The view of an optional selection.
pub open spec fn selected_view(s: Option<&Selected>) -> Option<SelectedView> {
    match s {
        Some(s) => Some(s@),
        None => None,
    }
}

/// The titles of the table of profiles.
pub fn list_titles() -> (r: Vec<String>)
    ensures
        r.deep_view() == list_titles_of(),
{
    let mut out: Vec<String> = Vec::new();
    out.push("".to_string());
    out.push("NAME".to_string());
    out.push("ACCOUNT".to_string());
    out.push("MFA".to_string());
    out.push("ROLE ARN".to_string());
    out.push("EXPIRATION".to_string());
    assert(out.deep_view() =~= list_titles_of());
    out
}

/// The text of a field that may be unset.
fn shown_text(o: &Option<String>) -> (r: String)
    ensures
        r@ == shown(o.deep_view()),
{
    match o {
        Some(s) => s.clone(),
        None => String::new(),
    }
}

/// The rows of the table of profiles: one for each base, in their order.
pub fn list(credentials: &AWSCredentials, selected: Option<&Selected>) -> (r: Vec<Vec<String>>)
    ensures
        r.len() == credentials@.bases.len(),
        forall|i: int| 0 <= i < r.len() ==> (#[trigger] r@[i]).deep_view() == list_row(
            credentials@.bases[i],
            selected_view(selected),
        ),
{
    let mut rows: Vec<Vec<String>> = Vec::new();
    let mut i: usize = 0;
    while i < credentials.bases.len()
        invariant
            i <= credentials.bases.len(),
            rows.len() == i,
            forall|j: int| 0 <= j < i ==> (#[trigger] rows@[j]).deep_view() == list_row(
                credentials@.bases[j],
                selected_view(selected),
            ),
        decreases credentials.bases.len() - i,
    {
        let cred = &credentials.bases[i];
        let used = match selected {
            Some(s) => if s.name == cred.name {
                "*".to_string()
            } else {
                "".to_string()
            },
            None => "".to_string(),
        };
        let mut row: Vec<String> = Vec::new();
        row.push(used);
        row.push(cred.name.clone());
        row.push(shown_text(&cred.account));
        row.push(shown_text(&cred.mfa_serial));
        row.push(shown_text(&cred.role_arn));
        row.push(shown_text(&cred.expiration));
        proof {
            reveal_strlit("");
            assert(row.deep_view()
                =~= list_row(credentials@.bases[i as int], selected_view(selected)));
        }
        rows.push(row);
        i += 1;
    }
    rows
}

} // verus!
