//! The credential store: the entries that other tools read (the bases), and
//! beside them the copies of the long-lived credentials that this tool keeps
//! for the next rotation (the originals), named with a suffix.

use crate::utils::file::{FieldSeq, SectionSeq};
use crate::utils::sections::{
    key_index, lemma_key_index, lemma_key_index_is, lookup, put, Fields, Sections,
};
use crate::utils::clock::{local_stamp, seconds_until, STAMP_FORMAT};
use crate::utils::text::{chars_of, ends_with, slice, string_of};
use crate::utils::{AWSFile, AWSFileManager};
use vstd::prelude::*;

verus! {

/// The tag of the names under which the originals are kept.
pub const KEY_SUFFIX: &'static str = "awsst";

/// One set of credentials. A field that is `None` is not set, and is left
/// out of the file.
#[derive(Debug)]
pub struct Credential {
    pub name: String,
    pub access_key_id: Option<String>,
    pub secret_access_key: Option<String>,
    pub session_token: Option<String>,
    pub security_token: Option<String>,
    pub expiration: Option<String>,
    pub mfa_serial: Option<String>,
    pub role_arn: Option<String>,
    pub account: Option<String>,
    pub source_profile: Option<String>,
    pub assumed_role: bool,
}

/// A credential as the contracts see it.
pub struct CredentialView {
    pub name: Seq<char>,
    pub access_key_id: Option<Seq<char>>,
    pub secret_access_key: Option<Seq<char>>,
    pub session_token: Option<Seq<char>>,
    pub security_token: Option<Seq<char>>,
    pub expiration: Option<Seq<char>>,
    pub mfa_serial: Option<Seq<char>>,
    pub role_arn: Option<Seq<char>>,
    pub account: Option<Seq<char>>,
    pub source_profile: Option<Seq<char>>,
    pub assumed_role: bool,
}

impl View for Credential {
    type V = CredentialView;

    open spec fn view(&self) -> CredentialView {
        CredentialView {
            name: self.name@,
            access_key_id: self.access_key_id.deep_view(),
            secret_access_key: self.secret_access_key.deep_view(),
            session_token: self.session_token.deep_view(),
            security_token: self.security_token.deep_view(),
            expiration: self.expiration.deep_view(),
            mfa_serial: self.mfa_serial.deep_view(),
            role_arn: self.role_arn.deep_view(),
            account: self.account.deep_view(),
            source_profile: self.source_profile.deep_view(),
            assumed_role: self.assumed_role,
        }
    }
}

impl Clone for Credential {
    fn clone(&self) -> (r: Self)
        ensures
            r@ == self@,
    {
        Credential {
            name: self.name.clone(),
            access_key_id: self.access_key_id.clone(),
            secret_access_key: self.secret_access_key.clone(),
            session_token: self.session_token.clone(),
            security_token: self.security_token.clone(),
            expiration: self.expiration.clone(),
            mfa_serial: self.mfa_serial.clone(),
            role_arn: self.role_arn.clone(),
            account: self.account.clone(),
            source_profile: self.source_profile.clone(),
            assumed_role: self.assumed_role,
        }
    }
}

/// The credential without a name and with no field set.
pub open spec fn blank_credential() -> CredentialView {
    CredentialView {
        name: Seq::empty(),
        access_key_id: None,
        secret_access_key: None,
        session_token: None,
        security_token: None,
        expiration: None,
        mfa_serial: None,
        role_arn: None,
        account: None,
        source_profile: None,
        assumed_role: false,
    }
}

impl Default for Credential {
    fn default() -> (r: Self)
        ensures
            r@ == blank_credential(),
    {
        Credential {
            name: String::new(),
            access_key_id: None,
            secret_access_key: None,
            session_token: None,
            security_token: None,
            expiration: None,
            mfa_serial: None,
            role_arn: None,
            account: None,
            source_profile: None,
            assumed_role: false,
        }
    }
}

/// The remaining validity, in seconds, below which a credential is rotated:
/// three hours.
pub const SAFETY_MARGIN_SECS: i64 = 10800;

/// What ends the name of an original: a hyphen and the tag.
pub open spec fn suffix() -> Seq<char> {
    seq!['-', 'a', 'w', 's', 's', 't']
}

/// The name under which the original of the base `key` is kept.
pub open spec fn managed_name(key: Seq<char>) -> Seq<char> {
    key + suffix()
}

/// Whether `name` is the name of an original.
pub open spec fn is_managed(name: Seq<char>) -> bool {
    suffix().is_suffix_of(name)
}

/// The name of the base that `key` stands for: `key` without the suffix, if
/// it ends with it.
pub open spec fn base_name(key: Seq<char>) -> Seq<char> {
    if is_managed(key) {
        key.take(key.len() - suffix().len())
    } else {
        key
    }
}

/// The credentials as the contracts see them.
pub open spec fn views(list: Seq<Credential>) -> Seq<CredentialView> {
    Seq::new(list.len(), |i: int| list[i]@)
}

/// The credentials, each under its name.
pub open spec fn named(list: Seq<CredentialView>) -> Seq<(Seq<char>, CredentialView)> {
    Seq::new(list.len(), |i: int| (list[i].name, list[i]))
}

/// Place of the first credential named `name`, or -1.
pub open spec fn find(list: Seq<CredentialView>, name: Seq<char>) -> int {
    key_index(named(list), name)
}

/// `c` under another name.
pub open spec fn renamed(c: CredentialView, name: Seq<char>) -> CredentialView {
    CredentialView { name, ..c }
}

/// `find` is the least place that holds the name.
pub proof fn lemma_find(list: Seq<CredentialView>, name: Seq<char>)
    ensures
        -1 <= find(list, name) < list.len(),
        find(list, name) >= 0 ==> list[find(list, name)].name == name,
        forall|j: int| 0 <= j < list.len() && (#[trigger] list[j]).name == name
            ==> 0 <= find(list, name) <= j,
{
    lemma_key_index(named(list), name);
    assert forall|j: int| 0 <= j < list.len() && (#[trigger] list[j]).name == name implies 0
        <= find(list, name) <= j by {
        assert(named(list)[j].0 == name);
    }
}

/// A place that holds the name with none before it is `find`.
pub proof fn lemma_find_is(list: Seq<CredentialView>, name: Seq<char>, r: int)
    requires
        -1 <= r < list.len(),
        r >= 0 ==> list[r].name == name,
        forall|j: int| 0 <= j < (if r >= 0 { r } else { list.len() as int })
            ==> (#[trigger] list[j]).name != name,
    ensures
        find(list, name) == r,
{
    let m = named(list);
    assert forall|j: int| 0 <= j < (if r >= 0 { r } else { m.len() as int }) implies
        (#[trigger] m[j]).0 != name by {
        assert(list[j].name != name);
    }
    lemma_key_index_is(m, name, r);
}

/// A name with the suffix stands for the name without it.
pub proof fn lemma_base_of_managed(key: Seq<char>)
    ensures
        is_managed(managed_name(key)),
        base_name(managed_name(key)) == key,
{
    let m = managed_name(key);
    assert(m.skip(m.len() - suffix().len()) =~= suffix());
    assert(m.take(m.len() - suffix().len()) =~= key);
}

/// The name of the original of `key`.
pub fn managed_key(key: &String) -> (r: String)
    ensures
        r@ == managed_name(key@),
{
    let mut r = key.clone();
    r.push('-');
    r.append(KEY_SUFFIX);
    proof {
        reveal_strlit("awsst");
        assert(r@ =~= managed_name(key@));
    }
    r
}

/// The name of the base that `key` stands for.
pub fn base_key(key: &String) -> (r: String)
    ensures
        r@ == base_name(key@),
{
    let chars = chars_of(key.as_str());
    let tail = chars_of(managed_key(&String::new()).as_str());
    proof {
        assert(tail@ =~= suffix());
    }
    if ends_with(&chars, &tail) {
        string_of(&slice(&chars, 0, chars.len() - tail.len()))
    } else {
        key.clone()
    }
}

/// Place of the first credential named `name`.
pub fn position(list: &Vec<Credential>, name: &String) -> (r: Option<usize>)
    ensures
        match r {
            Some(i) => i < list.len() && i == find(views(list@), name@),
            None => find(views(list@), name@) == -1,
        },
{
    let mut i: usize = 0;
    while i < list.len()
        invariant
            i <= list.len(),
            forall|j: int| 0 <= j < i ==> (#[trigger] views(list@)[j]).name != name@,
        decreases list.len() - i,
    {
        if list[i].name == *name {
            proof {
                lemma_find_is(views(list@), name@, i as int);
            }
            return Some(i);
        }
        i += 1;
    }
    proof {
        lemma_find_is(views(list@), name@, -1);
    }
    None
}

/// What a renewal hands over of the time at which the new credentials end.
pub enum Expiration {
    /// The service named no time.
    Unset,
    /// The service named a time that the machine cannot represent.
    Unreadable,
    /// The time, in local time and written as the store keeps it.
    At(String),
}

/// `Expiration` as the contracts see it.
pub enum ExpirationView {
    Unset,
    Unreadable,
    At(Seq<char>),
}

impl View for Expiration {
    type V = ExpirationView;

    open spec fn view(&self) -> ExpirationView {
        match self {
            Expiration::Unset => ExpirationView::Unset,
            Expiration::Unreadable => ExpirationView::Unreadable,
            Expiration::At(s) => ExpirationView::At(s@),
        }
    }
}

/// The temporary credentials that a renewal hands over.
pub struct TemporaryCredential {
    pub access_key_id: Option<String>,
    pub secret_access_key: Option<String>,
    pub session_token: Option<String>,
    pub expiration: Expiration,
}

/// `TemporaryCredential` as the contracts see it.
pub struct TemporaryView {
    pub access_key_id: Option<Seq<char>>,
    pub secret_access_key: Option<Seq<char>>,
    pub session_token: Option<Seq<char>>,
    pub expiration: ExpirationView,
}

impl View for TemporaryCredential {
    type V = TemporaryView;

    open spec fn view(&self) -> TemporaryView {
        TemporaryView {
            access_key_id: self.access_key_id.deep_view(),
            secret_access_key: self.secret_access_key.deep_view(),
            session_token: self.session_token.deep_view(),
            expiration: self.expiration@,
        }
    }
}

/// The time `seconds` after the start of 1970 (UTC) as an expiration: written
/// in the machine's local time, or `Unreadable` where the machine has no such
/// time.
pub fn local_expiration(seconds: i64) -> (r: Expiration)
    ensures
        r@ !is Unset,
{
    let written = local_stamp(seconds, STAMP_FORMAT);
    expiration_from(written)
}

/// The expiration that the writing of a time gives: the text where the time
/// could be written, `Unreadable` where it could not.
pub open spec fn expiration_of(written: Option<Seq<char>>) -> ExpirationView {
    match written {
        Some(text) => ExpirationView::At(text),
        None => ExpirationView::Unreadable,
    }
}

/// The expiration that the writing of a time gives; see `expiration_of`.
pub fn expiration_from(written: Option<String>) -> (r: Expiration)
    ensures
        r@ == expiration_of(written.deep_view()),
{
    match written {
        Some(text) => Expiration::At(text),
        None => Expiration::Unreadable,
    }
}

/// Whether a credential has to be rotated when `remaining` seconds are left
/// until its expiration: always if it has none, else if less than the safety
/// margin is left.
pub open spec fn expired_after(c: CredentialView, remaining: int) -> bool {
    c.expiration is None || remaining < SAFETY_MARGIN_SECS
}

/// `c` after a renewal handed over `t`, and `account` where the account could
/// be asked for. The keys and the token are taken over, the token under both
/// of its names. The expiration is replaced if a readable one came. The
/// account is replaced if one was found, but left alone together with the
/// expiration where that was unreadable.
pub open spec fn refreshed(
    c: CredentialView,
    t: TemporaryView,
    account: Option<Seq<char>>,
) -> CredentialView {
    CredentialView {
        access_key_id: t.access_key_id,
        secret_access_key: t.secret_access_key,
        session_token: t.session_token,
        security_token: t.session_token,
        expiration: match t.expiration {
            ExpirationView::At(s) => Some(s),
            _ => c.expiration,
        },
        account: if t.expiration is Unreadable || account is None {
            c.account
        } else {
            account
        },
        ..c
    }
}

/// The error of a credential whose expiration cannot be read.
pub struct UnreadableStamp {
    pub stamp: String,
}

impl Credential {
    /// The credential that a new profile starts with.
    pub fn from_configure(
        profile_name: String,
        access_key_id: String,
        secret_access_key: String,
        mfa: Option<String>,
    ) -> (r: Self)
        ensures
            r@ == (CredentialView {
                name: profile_name@,
                access_key_id: Some(access_key_id@),
                secret_access_key: Some(secret_access_key@),
                mfa_serial: mfa.deep_view(),
                ..blank_credential()
            }),
    {
        Credential {
            name: profile_name,
            access_key_id: Some(access_key_id),
            secret_access_key: Some(secret_access_key),
            session_token: None,
            security_token: None,
            expiration: None,
            mfa_serial: mfa,
            role_arn: None,
            account: None,
            source_profile: None,
            assumed_role: false,
        }
    }

    /// Whether the credential has to be rotated when `remaining` seconds are
    /// left until its expiration.
    pub fn is_expired_after(&self, remaining: i64) -> (r: bool)
        ensures
            r == expired_after(self@, remaining as int),
    {
        self.expiration.is_none() || remaining < SAFETY_MARGIN_SECS
    }

    /// Whether the credential has to be rotated now, by the machine's clock.
    /// One without an expiration always has to be. The error is that of an
    /// expiration that cannot be read as a local time.
    pub fn is_expired(&self) -> (r: Result<bool, UnreadableStamp>)
        ensures
            self@.expiration is None ==> r == Ok::<bool, UnreadableStamp>(true),
            r matches Err(e) ==> self@.expiration == Some(e.stamp@),
    {
        let reading = self.clock_reading();
        self.is_expired_by(reading)
    }

    /// What the machine's clock says of the expiration: the whole seconds
    /// from now until then, or nothing where the expiration cannot be read as
    /// a local time. The clock is not asked for a credential without an
    /// expiration.
    pub fn clock_reading(&self) -> (r: Option<i64>)
        ensures
            self@.expiration is None ==> r is None,
    {
        match &self.expiration {
            None => None,
            Some(stamp) => seconds_until(stamp.as_str(), STAMP_FORMAT),
        }
    }

    /// Whether the credential has to be rotated when the clock was read
    /// against its expiration and gave `reading`: the seconds that are left,
    /// or nothing where the expiration could not be read. A credential without
    /// an expiration always has to be rotated, whatever the reading. For one
    /// with an expiration, a reading decides by the safety margin, and a
    /// missing reading is the error, which carries the expiration.
    pub fn is_expired_by(&self, reading: Option<i64>) -> (r: Result<bool, UnreadableStamp>)
        ensures
            match (self@.expiration, reading) {
                (None, _) => r == Ok::<bool, UnreadableStamp>(true),
                (Some(_), Some(remaining)) => r == Ok::<bool, UnreadableStamp>(
                    remaining < SAFETY_MARGIN_SECS,
                ),
                (Some(stamp), None) => r matches Err(e) && e.stamp@ == stamp,
            },
    {
        match (&self.expiration, reading) {
            (None, _) => Ok(true),
            (Some(_), Some(remaining)) => Ok(self.is_expired_after(remaining)),
            (Some(stamp), None) => Err(UnreadableStamp { stamp: stamp.clone() }),
        }
    }

    /// Takes over what a renewal handed over; see `refreshed`.
    pub fn update_credential(&mut self, aws_cred: TemporaryCredential, account: Option<String>)
        ensures
            final(self)@ == refreshed(old(self)@, aws_cred@, account.deep_view()),
    {
        self.access_key_id = aws_cred.access_key_id;
        self.secret_access_key = aws_cred.secret_access_key;
        self.security_token = aws_cred.session_token.clone();
        self.session_token = aws_cred.session_token;
        match aws_cred.expiration {
            Expiration::Unset => {},
            Expiration::Unreadable => {
                return ;
            },
            Expiration::At(stamp) => {
                self.expiration = Some(stamp);
            },
        }
        match account {
            Some(a) => {
                self.account = Some(a);
            },
            None => {},
        }
    }
}

/// `f` with one more field, if the field is set.
pub open spec fn with_field(f: FieldSeq, key: Seq<char>, value: Option<Seq<char>>) -> FieldSeq {
    match value {
        Some(v) => put(f, key, v),
        None => f,
    }
}

/// The fields that a credential writes: those that are set, and the flag
/// only where it is up.
pub open spec fn fields_of(c: CredentialView) -> FieldSeq {
    let f0 = Seq::<(Seq<char>, Seq<char>)>::empty();
    let f1 = with_field(f0, "aws_access_key_id"@, c.access_key_id);
    let f2 = with_field(f1, "aws_secret_access_key"@, c.secret_access_key);
    let f3 = with_field(f2, "aws_session_token"@, c.session_token);
    let f4 = with_field(f3, "aws_security_token"@, c.security_token);
    let f5 = with_field(f4, "expiration"@, c.expiration);
    let f6 = with_field(f5, "mfa_serial"@, c.mfa_serial);
    let f7 = with_field(f6, "role_arn"@, c.role_arn);
    let f8 = with_field(f7, "account"@, c.account);
    let f9 = with_field(f8, "source_profile"@, c.source_profile);
    with_field(
        f9,
        "assumed_role"@,
        if c.assumed_role {
            Some("true"@)
        } else {
            None
        },
    )
}

/// The credential that a section gives: each field is what stands under its
/// key, and the flag is up where the section says `true`.
pub open spec fn credential_of(name: Seq<char>, f: FieldSeq) -> CredentialView {
    CredentialView {
        name,
        access_key_id: lookup(f, "aws_access_key_id"@),
        secret_access_key: lookup(f, "aws_secret_access_key"@),
        session_token: lookup(f, "aws_session_token"@),
        security_token: lookup(f, "aws_security_token"@),
        expiration: lookup(f, "expiration"@),
        mfa_serial: lookup(f, "mfa_serial"@),
        role_arn: lookup(f, "role_arn"@),
        account: lookup(f, "account"@),
        source_profile: lookup(f, "source_profile"@),
        assumed_role: lookup(f, "assumed_role"@) == Some("true"@),
    }
}

impl Credential {
    /// Adds the field to `list` if it is set.
    pub fn __to_file_list_push(&self, list: &mut Fields, key: &str, data: &Option<String>)
        ensures
            final(list)@ == with_field(old(list)@, key@, data.deep_view()),
            old(list).wf() ==> final(list).wf(),
    {
        match data {
            Some(val) => {
                list.insert(key.to_owned(), val.clone());
            },
            None => {},
        }
    }
}

impl AWSFile for Credential {
    open spec fn file_fields(&self) -> FieldSeq {
        fields_of(self@)
    }

    fn to_file_map(&self) -> (r: Fields) {
        let mut list = Fields::new();
        self.__to_file_list_push(&mut list, "aws_access_key_id", &self.access_key_id);
        self.__to_file_list_push(&mut list, "aws_secret_access_key", &self.secret_access_key);
        self.__to_file_list_push(&mut list, "aws_session_token", &self.session_token);
        self.__to_file_list_push(&mut list, "aws_security_token", &self.security_token);
        self.__to_file_list_push(&mut list, "expiration", &self.expiration);
        self.__to_file_list_push(&mut list, "mfa_serial", &self.mfa_serial);
        self.__to_file_list_push(&mut list, "role_arn", &self.role_arn);
        self.__to_file_list_push(&mut list, "account", &self.account);
        self.__to_file_list_push(&mut list, "source_profile", &self.source_profile);
        if self.assumed_role {
            list.insert("assumed_role".to_string(), "true".to_string());
        }
        list
    }
}

/// The credential store.
#[derive(Debug)]
pub struct AWSCredentials {
    /// The entries that other tools read, each under the name of its profile.
    pub bases: Vec<Credential>,
    /// The long-lived credentials that were put aside, each under the name of
    /// its profile with the suffix.
    pub originals: Vec<Credential>,
}

/// The store as the contracts see it.
pub struct StoreView {
    pub bases: Seq<CredentialView>,
    pub originals: Seq<CredentialView>,
}

impl View for AWSCredentials {
    type V = StoreView;

    open spec fn view(&self) -> StoreView {
        StoreView { bases: views(self.bases@), originals: views(self.originals@) }
    }
}

/// The first base named `key`.
pub open spec fn base_of(s: StoreView, key: Seq<char>) -> CredentialView {
    s.bases[find(s.bases, key)]
}

/// The store after the original of the base `key` was made sure of: where
/// there is a base `key` and no original of it yet, a copy of the base is put
/// aside under the name with the suffix.
pub open spec fn promoted(s: StoreView, key: Seq<char>) -> StoreView {
    if find(s.originals, managed_name(key)) >= 0 || find(s.bases, key) < 0 {
        s
    } else {
        StoreView {
            bases: s.bases,
            originals: s.originals.push(renamed(s.bases[find(s.bases, key)], managed_name(key))),
        }
    }
}

/// The credential with which the profile `key` asks for new credentials: its
/// original, which is the base itself where none was put aside before.
pub open spec fn candidate(s: StoreView, key: Seq<char>) -> CredentialView {
    let p = promoted(s, key);
    p.originals[find(p.originals, managed_name(key))]
}

/// What is decided of a rotation.
pub enum Rotation {
    /// The profile is rotated.
    Due,
    /// The credential is still good; nothing is done.
    NotDue,
    /// The expiration, which is carried along, cannot be read; nothing is
    /// done.
    Unreadable(Seq<char>),
}

/// What a reading of the clock is to the contracts.
pub open spec fn reading_of(reading: Option<i64>) -> Option<int> {
    match reading {
        Some(remaining) => Some(remaining as int),
        None => None,
    }
}

/// What is decided of the rotation of the credential `c` when the clock gave
/// `reading`: the seconds left until the expiration, or nothing where the
/// expiration could not be read. A forced rotation and one of a credential
/// without an expiration are due whatever the clock gave. Else the reading
/// decides: with less than the safety margin left the rotation is due, with
/// the margin or more it is not, and without a reading nothing can be
/// decided.
pub open spec fn rotation_by(c: CredentialView, force: bool, reading: Option<int>) -> Rotation {
    if force || c.expiration is None {
        Rotation::Due
    } else {
        match reading {
            Some(remaining) => if expired_after(c, remaining) {
                Rotation::Due
            } else {
                Rotation::NotDue
            },
            None => Rotation::Unreadable(c.expiration.unwrap()),
        }
    }
}

/// The store after a renewal for `key` was taken over: the original of the
/// base is made sure of, and the base takes the new credentials. Without a
/// base for `key` nothing changes.
pub open spec fn committed(
    s: StoreView,
    key: Seq<char>,
    t: TemporaryView,
    account: Option<Seq<char>>,
) -> StoreView {
    let target = base_name(key);
    let i = find(s.bases, target);
    if i < 0 {
        s
    } else {
        StoreView {
            bases: s.bases.update(i, refreshed(s.bases[i], t, account)),
            originals: promoted(s, target).originals,
        }
    }
}

/// `list` without the credentials named `name`.
pub open spec fn without(list: Seq<CredentialView>, name: Seq<char>) -> Seq<CredentialView>
    decreases list.len(),
{
    if list.len() == 0 {
        list
    } else {
        let init = without(list.drop_last(), name);
        if list.last().name == name {
            init
        } else {
            init.push(list.last())
        }
    }
}

/// The sections of `val` that are originals (`managed`) or bases, as
/// credentials and in their order.
pub open spec fn loaded(val: SectionSeq, managed: bool) -> Seq<CredentialView>
    decreases val.len(),
{
    if val.len() == 0 {
        Seq::empty()
    } else {
        let init = loaded(val.drop_last(), managed);
        if is_managed(val.last().0) == managed {
            init.push(credential_of(val.last().0, val.last().1))
        } else {
            init
        }
    }
}

/// `into` after each credential of `list` was stored under its name.
pub open spec fn stored(list: Seq<CredentialView>, into: SectionSeq) -> SectionSeq
    decreases list.len(),
{
    if list.len() == 0 {
        into
    } else {
        put(stored(list.drop_last(), into), list.last().name, fields_of(list.last()))
    }
}

/// What is left of `list` holds no credential named `name`, and every other
/// name is found in it exactly if it was found before, with the same
/// credential.
pub proof fn lemma_without(list: Seq<CredentialView>, name: Seq<char>, other: Seq<char>)
    ensures
        find(without(list, name), name) == -1,
        other != name ==> (find(without(list, name), other) >= 0 <==> find(list, other) >= 0),
        other != name && find(list, other) >= 0 ==> without(list, name)[find(
            without(list, name),
            other,
        )] == list[find(list, other)],
        forall|j: int| 0 <= j < without(list, name).len()
            ==> (#[trigger] without(list, name)[j]).name != name,
    decreases list.len(),
{
    let w = without(list, name);
    if list.len() == 0 {
        lemma_find_is(w, name, -1);
        lemma_find_is(w, other, -1);
    } else {
        let init = list.drop_last();
        let wi = without(init, name);
        lemma_without(init, name, other);
        lemma_find(init, other);
        lemma_find(wi, other);
        lemma_find(list, other);
        lemma_find(w, other);
        assert forall|j: int| 0 <= j < w.len() implies (#[trigger] w[j]).name != name by {
            if j < wi.len() {
                assert(w[j] == wi[j]);
            }
        }
        lemma_find_is(w, name, -1);
        if other != name {
            let a = find(init, other);
            let b = find(wi, other);
            if a >= 0 {
                assert(list[a] == init[a]);
                assert(forall|j: int| 0 <= j < a ==> (#[trigger] list[j]).name != other) by {
                    assert forall|j: int| 0 <= j < a implies (#[trigger] list[j]).name != other by {
                        assert(init[j] == list[j]);
                    }
                }
                lemma_find_is(list, other, a);
                assert(w[b] == wi[b]);
                assert(forall|j: int| 0 <= j < b ==> (#[trigger] w[j]).name != other) by {
                    assert forall|j: int| 0 <= j < b implies (#[trigger] w[j]).name != other by {
                        assert(wi[j] == w[j]);
                    }
                }
                lemma_find_is(w, other, b);
            } else {
                assert(b < 0);
                assert forall|j: int| 0 <= j < init.len() implies
                    (#[trigger] list[j]).name != other by {
                    assert(init[j] == list[j]);
                }
                assert forall|j: int| 0 <= j < wi.len() implies (#[trigger] w[j]).name != other by {
                    assert(wi[j] == w[j]);
                }
                if list.last().name == other {
                    lemma_find_is(list, other, list.len() - 1);
                    lemma_find_is(w, other, w.len() - 1);
                } else {
                    lemma_find_is(list, other, -1);
                    lemma_find_is(w, other, -1);
                }
            }
        }
    }
}

/// A credential that takes the place of one of the same name is found where
/// that one was, and every other name where it was.
pub proof fn lemma_find_update(
    list: Seq<CredentialView>,
    i: int,
    c: CredentialView,
    name: Seq<char>,
)
    requires
        0 <= i < list.len(),
        c.name == list[i].name,
    ensures
        find(list.update(i, c), name) == find(list, name),
{
    let u = list.update(i, c);
    lemma_find(list, name);
    let k = find(list, name);
    assert forall|j: int| 0 <= j < (if k >= 0 { k } else { u.len() as int }) implies
        (#[trigger] u[j]).name != name by {
        assert(list[j].name != name);
    }
    lemma_find_is(u, name, k);
}

/// A credential behind the others is found only under a name that none of
/// them has.
pub proof fn lemma_find_push(list: Seq<CredentialView>, c: CredentialView, name: Seq<char>)
    ensures
        find(list, name) >= 0 ==> find(list.push(c), name) == find(list, name),
        find(list, name) < 0 && c.name == name ==> find(list.push(c), name) == list.len(),
        find(list, name) < 0 && c.name != name ==> find(list.push(c), name) == -1,
{
    let u = list.push(c);
    lemma_find(list, name);
    let k = find(list, name);
    let r = if k >= 0 { k } else if c.name == name { list.len() as int } else { -1 };
    assert forall|j: int| 0 <= j < (if r >= 0 { r } else { u.len() as int }) implies
        (#[trigger] u[j]).name != name by {
        if j < list.len() {
            assert(u[j] == list[j]);
            assert(list[j].name != name);
        }
    }
    lemma_find_is(u, name, r);
}

/// Every original carries the suffix and belongs to a base: an original
/// `P-awsst` is there only together with a base `P`.
pub open spec fn paired(s: StoreView) -> bool {
    forall|i: int|
        0 <= i < s.originals.len() ==> is_managed((#[trigger] s.originals[i]).name) && find(
            s.bases,
            base_name(s.originals[i].name),
        ) >= 0
}

/// Putting the original of a base aside keeps the originals paired.
pub proof fn lemma_promoted_paired(s: StoreView, key: Seq<char>)
    requires
        paired(s),
    ensures
        paired(promoted(s, key)),
{
    let p = promoted(s, key);
    lemma_base_of_managed(key);
    assert forall|i: int| 0 <= i < p.originals.len() implies is_managed(
        (#[trigger] p.originals[i]).name,
    ) && find(p.bases, base_name(p.originals[i].name)) >= 0 by {
        if i < s.originals.len() {
            assert(p.originals[i] == s.originals[i]);
        }
    }
}

/// Taking over a renewal keeps the originals paired.
pub proof fn lemma_committed_paired(
    s: StoreView,
    key: Seq<char>,
    t: TemporaryView,
    account: Option<Seq<char>>,
)
    requires
        paired(s),
    ensures
        paired(committed(s, key, t, account)),
{
    let target = base_name(key);
    let i = find(s.bases, target);
    let c = committed(s, key, t, account);
    if i >= 0 {
        lemma_find(s.bases, target);
        lemma_promoted_paired(s, target);
        let p = promoted(s, target);
        assert forall|j: int| 0 <= j < c.originals.len() implies is_managed(
            (#[trigger] c.originals[j]).name,
        ) && find(c.bases, base_name(c.originals[j].name)) >= 0 by {
            assert(is_managed(p.originals[j].name));
            lemma_find_update(
                s.bases,
                i,
                refreshed(s.bases[i], t, account),
                base_name(c.originals[j].name),
            );
        }
    }
}

/// One more base keeps the originals paired.
pub proof fn lemma_added_paired(s: StoreView, c: CredentialView)
    requires
        paired(s),
    ensures
        paired(StoreView { bases: s.bases.push(c), originals: s.originals }),
{
    let r = StoreView { bases: s.bases.push(c), originals: s.originals };
    assert forall|j: int| 0 <= j < r.originals.len() implies is_managed(
        (#[trigger] r.originals[j]).name,
    ) && find(r.bases, base_name(r.originals[j].name)) >= 0 by {
        lemma_find_push(s.bases, c, base_name(s.originals[j].name));
    }
}

/// What is left of `list` is part of it.
pub proof fn lemma_without_part(list: Seq<CredentialView>, name: Seq<char>, j: int)
    requires
        0 <= j < without(list, name).len(),
    ensures
        exists|k: int| 0 <= k < list.len() && #[trigger] list[k] == without(list, name)[j],
    decreases list.len(),
{
    if list.len() > 0 {
        let init = list.drop_last();
        let wi = without(init, name);
        if j < wi.len() {
            lemma_without_part(init, name, j);
            let k = choose|k: int| 0 <= k < init.len() && #[trigger] init[k] == wi[j];
            assert(list[k] == init[k]);
        } else {
            assert(list[list.len() - 1] == without(list, name)[j]);
        }
    }
}

/// Dropping a profile, its bases and its originals, keeps the originals
/// paired.
pub proof fn lemma_removed_paired(s: StoreView, name: Seq<char>)
    requires
        paired(s),
    ensures
        paired(
            StoreView {
                bases: without(s.bases, name),
                originals: without(s.originals, managed_name(name)),
            },
        ),
{
    let r = StoreView {
        bases: without(s.bases, name),
        originals: without(s.originals, managed_name(name)),
    };
    assert forall|j: int| 0 <= j < r.originals.len() implies is_managed(
        (#[trigger] r.originals[j]).name,
    ) && find(r.bases, base_name(r.originals[j].name)) >= 0 by {
        let o = r.originals[j];
        lemma_without_part(s.originals, managed_name(name), j);
        let k = choose|k: int| 0 <= k < s.originals.len() && #[trigger] s.originals[k] == o;
        assert(is_managed(s.originals[k].name));
        lemma_without(s.originals, managed_name(name), o.name);
        assert(o.name != managed_name(name));
        let b = base_name(o.name);
        assert(b + suffix() =~= o.name) by {
            assert(o.name.skip(o.name.len() - suffix().len()) =~= suffix());
        }
        assert(b != name);
        lemma_without(s.bases, name, b);
    }
}

/// The store after the profile `key` was rotated once: its original made
/// sure of, then the renewal taken over under the name of the original.
pub open spec fn rotated(
    s: StoreView,
    key: Seq<char>,
    t: TemporaryView,
    account: Option<Seq<char>>,
) -> StoreView {
    committed(promoted(s, key), managed_name(key), t, account)
}

/// The first rotation of a profile leaves two entries: the base, in its
/// place and with the new credentials, and behind the other originals a copy
/// of the base as it was before, under the name with the suffix.
pub proof fn lemma_first_rotation(
    s: StoreView,
    key: Seq<char>,
    t: TemporaryView,
    account: Option<Seq<char>>,
)
    requires
        find(s.bases, key) >= 0,
        find(s.originals, managed_name(key)) < 0,
    ensures
        ({
            let r = rotated(s, key, t, account);
            let i = find(s.bases, key);
            &&& r.bases == s.bases.update(i, refreshed(s.bases[i], t, account))
            &&& find(r.bases, key) == i
            &&& r.originals == s.originals.push(renamed(s.bases[i], managed_name(key)))
            &&& find(r.originals, managed_name(key)) == s.originals.len()
        }),
{
    let i = find(s.bases, key);
    lemma_find(s.bases, key);
    lemma_base_of_managed(key);
    let p = promoted(s, key);
    lemma_find_push(s.originals, renamed(s.bases[i], managed_name(key)), managed_name(key));
    lemma_find_update(s.bases, i, refreshed(s.bases[i], t, account), key);
}

/// A later rotation of a profile leaves its original as it is, and gives the
/// base the newest credentials.
pub proof fn lemma_later_rotation(
    s: StoreView,
    key: Seq<char>,
    t: TemporaryView,
    account: Option<Seq<char>>,
)
    requires
        find(s.bases, key) >= 0,
        find(s.originals, managed_name(key)) >= 0,
    ensures
        ({
            let r = rotated(s, key, t, account);
            let i = find(s.bases, key);
            &&& r.bases == s.bases.update(i, refreshed(s.bases[i], t, account))
            &&& find(r.bases, key) == i
            &&& r.originals == s.originals
        }),
{
    let i = find(s.bases, key);
    lemma_find(s.bases, key);
    lemma_base_of_managed(key);
    lemma_find_update(s.bases, i, refreshed(s.bases[i], t, account), key);
}

/// Two rotations in a row: after the first, the profile has its base and its
/// original, a copy of the base as it was at the start; after the second, the
/// original is still that copy, and the base holds what the second renewal
/// handed over.
pub proof fn lemma_two_rotations(
    s: StoreView,
    key: Seq<char>,
    t1: TemporaryView,
    a1: Option<Seq<char>>,
    t2: TemporaryView,
    a2: Option<Seq<char>>,
)
    requires
        find(s.bases, key) >= 0,
        find(s.originals, managed_name(key)) < 0,
    ensures
        ({
            let r1 = rotated(s, key, t1, a1);
            let r2 = rotated(r1, key, t2, a2);
            let i = find(s.bases, key);
            let o = s.originals.len() as int;
            &&& find(r1.bases, key) == i && find(r2.bases, key) == i
            &&& find(r1.originals, managed_name(key)) == o
            &&& r1.originals[o] == renamed(s.bases[i], managed_name(key))
            &&& r1.bases[i] == refreshed(s.bases[i], t1, a1)
            &&& r2.originals == r1.originals
            &&& r2.bases[i] == refreshed(r1.bases[i], t2, a2)
            &&& r2.bases[i].access_key_id == t2.access_key_id
            &&& r2.bases[i].secret_access_key == t2.secret_access_key
            &&& r2.bases[i].session_token == t2.session_token
        }),
{
    lemma_find(s.bases, key);
    lemma_first_rotation(s, key, t1, a1);
    let r1 = rotated(s, key, t1, a1);
    lemma_later_rotation(r1, key, t2, a2);
}

/// A credential without an expiration always has to be rotated; one with an
/// expiration has to be exactly when less than the margin of three hours is
/// left.
pub proof fn lemma_expiration_boundary(c: CredentialView, remaining: int)
    ensures
        c.expiration is None ==> expired_after(c, remaining),
        c.expiration is Some ==> (expired_after(c, remaining) <==> remaining < 3 * 60 * 60),
{
}

impl AWSCredentials {
    /// The first credential of `vec` that is named `key`.
    pub fn __credential_by_key(&self, vec: &Vec<Credential>, key: &str) -> (r: Option<Credential>)
        ensures
            match r {
                Some(c) => find(views(vec@), key@) >= 0 && c@ == views(vec@)[find(
                    views(vec@),
                    key@,
                )],
                None => find(views(vec@), key@) == -1,
            },
    {
        let name = key.to_owned();
        match position(vec, &name) {
            Some(i) => Some(vec[i].clone()),
            None => None,
        }
    }

    /// Whether there is a base named `key`. An original alone does not count.
    pub fn exists_credential(&self, key: String) -> (r: bool)
        ensures
            r == (find(self@.bases, key@) >= 0),
    {
        self.__credential_by_key(&self.bases, key.as_str()).is_some()
    }

    /// The base named `key`, for use as it stands.
    pub fn use_credential(&self, key: String) -> (r: Credential)
        requires
            find(self@.bases, key@) >= 0,
        ensures
            r@ == base_of(self@, key@),
    {
        match self.__credential_by_key(&self.bases, key.as_str()) {
            Some(c) => c,
            None => Credential::default(),
        }
    }

    /// The credential with which the profile `key` asks for new credentials,
    /// when the clock gave `reading` for the expiration of its base; see
    /// `rotation_by`. Where no rotation is due the result is `None`, where
    /// nothing can be decided it is the error, and in both cases nothing
    /// changes.
    ///
    /// Where a rotation is due, the original is handed out; where there is
    /// none yet, the base is first put aside as the original.
    pub fn auth_credential_at(&mut self, key: String, force: bool, reading: Option<i64>) -> (r:
        Result<Option<Credential>, UnreadableStamp>)
        requires
            find(old(self)@.bases, key@) >= 0,
        ensures
            match rotation_by(base_of(old(self)@, key@), force, reading_of(reading)) {
                Rotation::Due => {
                    &&& r matches Ok(Some(c)) && c@ == candidate(old(self)@, key@)
                    &&& final(self)@ == promoted(old(self)@, key@)
                },
                Rotation::NotDue => (r matches Ok(None)) && final(self)@ == old(self)@,
                Rotation::Unreadable(stamp) => {
                    &&& r matches Err(e) && e.stamp@ == stamp
                    &&& final(self)@ == old(self)@
                },
            },
            paired(old(self)@) ==> paired(final(self)@),
    {
        let cred = self.use_credential(key.clone());
        if !force {
            match cred.is_expired_by(reading) {
                Ok(true) => {},
                Ok(false) => {
                    return Ok(None);
                },
                Err(e) => {
                    return Err(e);
                },
            }
        }
        Ok(Some(self.rotation_credential(key)))
    }

    /// The original of the base `key`, which is first put aside where there is
    /// none yet.
    pub fn rotation_credential(&mut self, key: String) -> (r: Credential)
        requires
            find(old(self)@.bases, key@) >= 0,
        ensures
            final(self)@ == promoted(old(self)@, key@),
            r@ == candidate(old(self)@, key@),
            r@.name == managed_name(key@),
            paired(old(self)@) ==> paired(final(self)@),
    {
        proof {
            if paired(old(self)@) {
                lemma_promoted_paired(old(self)@, key@);
            }
            lemma_find(promoted(old(self)@, key@).originals, managed_name(key@));
            lemma_find(old(self)@.bases, key@);
            lemma_find_push(
                old(self)@.originals,
                renamed(base_of(old(self)@, key@), managed_name(key@)),
                managed_name(key@),
            );
        }
        let origin_key = managed_key(&key);
        match position(&self.originals, &origin_key) {
            Some(i) => {
                return self.originals[i].clone();
            },
            None => {},
        }
        let mut new_cred = self.use_credential(key);
        new_cred.name = origin_key;
        let out = new_cred.clone();
        let ghost before = self@;
        self.originals.push(new_cred);
        proof {
            let after = promoted(before, key@);
            assert(self@.originals =~= after.originals);
            assert(self@.bases =~= after.bases);
            assert forall|j: int| 0 <= j < before.originals.len() implies (
            #[trigger] after.originals[j]).name != managed_name(key@) by {
                lemma_find(before.originals, managed_name(key@));
                assert(after.originals[j] == before.originals[j]);
            }
            lemma_find_is(after.originals, managed_name(key@), before.originals.len() as int);
        }
        out
    }

    /// The credential with which the profile `key` asks for new credentials
    /// now, by the machine's clock, or `None` when no rotation is due.
    ///
    /// When forced, or when the base has no expiration, the clock is not
    /// asked and the rotation is due. The error is that of an expiration that
    /// cannot be read; the store is then as it was.
    pub fn auth_credential(&mut self, key: String, force: bool) -> (r: Result<
        Option<Credential>,
        UnreadableStamp,
    >)
        requires
            find(old(self)@.bases, key@) >= 0,
        ensures
            match r {
                Ok(Some(c)) => final(self)@ == promoted(old(self)@, key@) && c@ == candidate(
                    old(self)@,
                    key@,
                ),
                Ok(None) => {
                    &&& final(self)@ == old(self)@
                    &&& !force
                    &&& base_of(old(self)@, key@).expiration is Some
                },
                Err(e) => {
                    &&& final(self)@ == old(self)@
                    &&& !force
                    &&& base_of(old(self)@, key@).expiration == Some(e.stamp@)
                },
            },
            force || base_of(old(self)@, key@).expiration is None
                ==> (r matches Ok(Some(_))),
            paired(old(self)@) ==> paired(final(self)@),
    {
        let reading = if force {
            None
        } else {
            self.use_credential(key.clone()).clock_reading()
        };
        self.auth_credential_at(key, force, reading)
    }

    /// The credential that an update of the profile `key` has to change: the
    /// original where one was put aside, else the base.
    pub fn suffix_credential(&mut self, key: String) -> (r: Option<&mut Credential>)
        ensures
            match r {
                Some(c) => {
                    let o = find(old(self)@.originals, managed_name(key@));
                    let b = find(old(self)@.bases, key@);
                    if o >= 0 {
                        &&& *c == old(self).originals[o]
                        &&& final(self).originals@ == old(self).originals@.update(o, *final(c))
                        &&& final(self).bases@ == old(self).bases@
                    } else {
                        &&& b >= 0
                        &&& *c == old(self).bases[b]
                        &&& final(self).bases@ == old(self).bases@.update(b, *final(c))
                        &&& final(self).originals@ == old(self).originals@
                    }
                },
                None => {
                    &&& find(old(self)@.originals, managed_name(key@)) < 0
                    &&& find(old(self)@.bases, key@) < 0
                    &&& *final(self) == *old(self)
                },
            },
    {
        let origin_key = managed_key(&key);
        match position(&self.originals, &origin_key) {
            Some(i) => {
                return Some(&mut self.originals[i]);
            },
            None => {},
        }
        match position(&self.bases, &key) {
            Some(i) => Some(&mut self.bases[i]),
            None => None,
        }
    }

    /// The credential that an update of the profile `key` starts from: the
    /// original where one was put aside, else the base.
    pub fn preferred_credential(&self, key: &String) -> (r: Option<Credential>)
        ensures
            match r {
                Some(c) => {
                    let o = find(self@.originals, managed_name(key@));
                    let b = find(self@.bases, key@);
                    if o >= 0 {
                        c@ == self@.originals[o]
                    } else {
                        b >= 0 && c@ == self@.bases[b]
                    }
                },
                None => find(self@.originals, managed_name(key@)) < 0 && find(self@.bases, key@)
                    < 0,
            },
    {
        let origin_key = managed_key(key);
        match position(&self.originals, &origin_key) {
            Some(i) => {
                return Some(self.originals[i].clone());
            },
            None => {},
        }
        match position(&self.bases, key) {
            Some(i) => Some(self.bases[i].clone()),
            None => None,
        }
    }

    /// Whether `set_credential` will take an account for this renewal: there
    /// is a base for `key`, and the expiration that came is not unreadable.
    pub fn wants_account(&self, key: &String, cred: &TemporaryCredential) -> (r: bool)
        ensures
            r == (find(self@.bases, base_name(key@)) >= 0 && cred@.expiration !is Unreadable),
    {
        let target = base_key(key);
        let readable = match cred.expiration {
            Expiration::Unreadable => false,
            _ => true,
        };
        position(&self.bases, &target).is_some() && readable
    }

    /// Takes over the renewal `cred` for `key`, which may carry the suffix,
    /// and hands out the base as it then is; `None`, and no change, where
    /// there is no base for `key`.
    pub fn set_credential(
        &mut self,
        key: String,
        cred: TemporaryCredential,
        account: Option<String>,
    ) -> (r: Option<Credential>)
        ensures
            final(self)@ == committed(old(self)@, key@, cred@, account.deep_view()),
            match r {
                Some(c) => find(old(self)@.bases, base_name(key@)) >= 0 && c@
                    == final(self)@.bases[find(old(self)@.bases, base_name(key@))],
                None => find(old(self)@.bases, base_name(key@)) < 0,
            },
            paired(old(self)@) ==> paired(final(self)@),
    {
        proof {
            if paired(old(self)@) {
                lemma_committed_paired(old(self)@, key@, cred@, account.deep_view());
            }
        }
        let target_key = base_key(&key);
        match position(&self.bases, &target_key) {
            None => None,
            Some(i) => {
                let ghost before = self@;
                let _ = self.rotation_credential(target_key);
                self.bases[i].update_credential(cred, account);
                proof {
                    let after = committed(before, key@, cred@, account.deep_view());
                    assert(self@.bases =~= after.bases);
                }
                Some(self.bases[i].clone())
            },
        }
    }

    /// The credential that the section `key` with the fields `ele` gives.
    pub fn set_from_map(key: String, ele: &Fields) -> (r: Credential)
        ensures
            r@ == credential_of(key@, ele@),
    {
        let role = match ele.get("assumed_role") {
            Some(v) => v == "true".to_string(),
            None => false,
        };
        Credential {
            name: key,
            access_key_id: Self::get_value_from_map(ele, "aws_access_key_id"),
            secret_access_key: Self::get_value_from_map(ele, "aws_secret_access_key"),
            session_token: Self::get_value_from_map(ele, "aws_session_token"),
            security_token: Self::get_value_from_map(ele, "aws_security_token"),
            expiration: Self::get_value_from_map(ele, "expiration"),
            mfa_serial: Self::get_value_from_map(ele, "mfa_serial"),
            role_arn: Self::get_value_from_map(ele, "role_arn"),
            account: Self::get_value_from_map(ele, "account"),
            source_profile: Self::get_value_from_map(ele, "source_profile"),
            assumed_role: role,
        }
    }

    /// What stands under `key`, if anything.
    pub fn get_value_from_map(map: &Fields, key: &str) -> (r: Option<String>)
        ensures
            r.deep_view() == lookup(map@, key@),
    {
        map.get(key)
    }
}

/// Whether `name` is the name of an original.
pub fn is_managed_key(name: &String) -> (r: bool)
    ensures
        r == is_managed(name@),
{
    let chars = chars_of(name.as_str());
    let tail = chars_of(managed_key(&String::new()).as_str());
    proof {
        assert(tail@ =~= suffix());
    }
    ends_with(&chars, &tail)
}

/// The credentials of `list` that are not named `name`.
fn kept(list: &Vec<Credential>, name: &String) -> (r: Vec<Credential>)
    ensures
        views(r@) == without(views(list@), name@),
{
    let mut out: Vec<Credential> = Vec::new();
    let mut i: usize = 0;
    proof {
        assert(views(list@).take(0) =~= Seq::empty());
        assert(views(out@) =~= Seq::empty());
    }
    while i < list.len()
        invariant
            i <= list.len(),
            views(out@) == without(views(list@).take(i as int), name@),
        decreases list.len() - i,
    {
        let ghost before = views(out@);
        proof {
            let t = views(list@).take(i + 1);
            assert(t.drop_last() =~= views(list@).take(i as int));
            assert(t.last() == list@[i as int]@);
        }
        if list[i].name != *name {
            out.push(list[i].clone());
            proof {
                assert(views(out@) =~= before.push(list@[i as int]@));
            }
        }
        i += 1;
    }
    proof {
        assert(views(list@).take(list.len() as int) =~= views(list@));
    }
    out
}

impl AWSFileManager<Credential> for AWSCredentials {
    open spec fn loadable(val: SectionSeq) -> bool {
        true
    }

    open spec fn loaded_from(&self, val: SectionSeq) -> bool {
        self@.bases == loaded(val, false) && self@.originals == loaded(val, true)
    }

    /// Any sections can be read as credentials.
    fn can_load(val: &Sections) -> (r: bool) {
        true
    }

    open spec fn file_sections(&self) -> SectionSeq {
        stored(self@.bases, stored(self@.originals, Seq::empty()))
    }

    open spec fn holds(&self, name: Seq<char>) -> bool {
        find(self@.bases, name) >= 0
    }

    open spec fn name_of(data: &Credential) -> Seq<char> {
        data.name@
    }

    /// The store that the sections give: a section whose name ends with the
    /// suffix is an original, any other a base.
    fn new(val: Sections) -> (r: AWSCredentials) {
        let mut bases: Vec<Credential> = Vec::new();
        let mut originals: Vec<Credential> = Vec::new();
        let mut i: usize = 0;
        proof {
            assert(val@.take(0) =~= Seq::empty());
            assert(views(bases@) =~= Seq::empty());
            assert(views(originals@) =~= Seq::empty());
        }
        while i < val.entries.len()
            invariant
                i <= val.entries.len(),
                views(bases@) == loaded(val@.take(i as int), false),
                views(originals@) == loaded(val@.take(i as int), true),
            decreases val.entries.len() - i,
        {
            let ghost b = views(bases@);
            let ghost o = views(originals@);
            let key = val.entries[i].0.clone();
            let managed = is_managed_key(&key);
            let cred = Self::set_from_map(key, &val.entries[i].1);
            proof {
                let t = val@.take(i + 1);
                assert(t.drop_last() =~= val@.take(i as int));
                assert(t.last() == val@[i as int]);
            }
            if managed {
                originals.push(cred);
                proof {
                    assert(views(originals@) =~= o.push(cred@));
                }
            } else {
                bases.push(cred);
                proof {
                    assert(views(bases@) =~= b.push(cred@));
                }
            }
            i += 1;
        }
        proof {
            assert(val@.take(val@.len() as int) =~= val@);
        }
        AWSCredentials { bases, originals }
    }

    /// The sections of the store: the originals, then the bases, each under
    /// its name.
    fn to_file(&self) -> (r: Sections) {
        let mut list = Sections::new();
        let mut i: usize = 0;
        proof {
            assert(self@.originals.take(0) =~= Seq::empty());
        }
        while i < self.originals.len()
            invariant
                i <= self.originals.len(),
                list.wf(),
                list@ == stored(self@.originals.take(i as int), Seq::empty()),
            decreases self.originals.len() - i,
        {
            proof {
                let t = self@.originals.take(i + 1);
                assert(t.drop_last() =~= self@.originals.take(i as int));
                assert(t.last() == self.originals@[i as int]@);
            }
            list.insert(self.originals[i].name.clone(), self.originals[i].to_file_map());
            i += 1;
        }
        proof {
            assert(self@.originals.take(self@.originals.len() as int) =~= self@.originals);
            assert(self@.bases.take(0) =~= Seq::empty());
        }
        let ghost first = list@;
        let mut j: usize = 0;
        while j < self.bases.len()
            invariant
                j <= self.bases.len(),
                list.wf(),
                list@ == stored(self@.bases.take(j as int), first),
            decreases self.bases.len() - j,
        {
            proof {
                let t = self@.bases.take(j + 1);
                assert(t.drop_last() =~= self@.bases.take(j as int));
                assert(t.last() == self.bases@[j as int]@);
            }
            list.insert(self.bases[j].name.clone(), self.bases[j].to_file_map());
            j += 1;
        }
        proof {
            assert(self@.bases.take(self@.bases.len() as int) =~= self@.bases);
        }
        list
    }

    /// Adds `data` as a base, behind those that are there.
    fn add(&mut self, data: Credential)
        ensures
            final(self)@.bases == old(self)@.bases.push(data@),
            final(self)@.originals == old(self)@.originals,
            paired(old(self)@) ==> paired(final(self)@),
    {
        proof {
            if paired(old(self)@) {
                lemma_added_paired(old(self)@, data@);
            }
        }
        let ghost before = self@;
        self.bases.push(data);
        proof {
            assert(self@.bases =~= before.bases.push(data@));
            lemma_find(before.bases, data@.name);
            let k = find(before.bases, data@.name);
            if k >= 0 {
                assert(forall|j: int| 0 <= j < k
                    ==> (#[trigger] self@.bases[j]).name != data@.name) by {
                    assert forall|j: int| 0 <= j < k implies (#[trigger] self@.bases[j]).name
                        != data@.name by {
                        assert(self@.bases[j] == before.bases[j]);
                    }
                }
                assert(self@.bases[k] == before.bases[k]);
                lemma_find_is(self@.bases, data@.name, k);
            } else {
                assert forall|j: int| 0 <= j < before.bases.len() implies (
                #[trigger] self@.bases[j]).name != data@.name by {
                    assert(self@.bases[j] == before.bases[j]);
                }
                lemma_find_is(self@.bases, data@.name, before.bases.len() as int);
            }
        }
    }

    /// Drops the bases named `name`, and with them the originals that were put
    /// aside for that name.
    fn remove(&mut self, name: String)
        ensures
            final(self)@.bases == without(old(self)@.bases, name@),
            final(self)@.originals == without(old(self)@.originals, managed_name(name@)),
            find(final(self)@.bases, name@) < 0,
            find(final(self)@.originals, managed_name(name@)) < 0,
            paired(old(self)@) ==> paired(final(self)@),
    {
        proof {
            if paired(old(self)@) {
                lemma_removed_paired(old(self)@, name@);
            }
            lemma_without(old(self)@.originals, managed_name(name@), managed_name(name@));
        }
        let suf_key = managed_key(&name);
        let bases = kept(&self.bases, &name);
        let originals = kept(&self.originals, &suf_key);
        self.bases = bases;
        self.originals = originals;
        proof {
            lemma_without(old(self)@.bases, name@, name@);
        }
    }
}

} // verus!
