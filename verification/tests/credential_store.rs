use awsst::profile::credentials::{
    base_key, expiration_from, is_managed_key, local_expiration, managed_key, AWSCredentials,
    Credential, Expiration, TemporaryCredential, KEY_SUFFIX, SAFETY_MARGIN_SECS,
};
use awsst::utils::file::shape_aws_toml;
use awsst::utils::sections::Fields;
use awsst::utils::{AWSFile, AWSFileManager};
use chrono::{Duration, Local};

fn s(text: &str) -> String {
    text.to_string()
}

fn long_lived(name: &str) -> Credential {
    Credential::from_configure(s(name), s("AKIALONG"), s("longsecret=="), None)
}

fn store_with(names: &[&str]) -> AWSCredentials {
    let mut store = AWSCredentials { bases: Vec::new(), originals: Vec::new() };
    for n in names {
        store.add(long_lived(n));
    }
    store
}

fn temporary(tag: &str, expiration: Expiration) -> TemporaryCredential {
    TemporaryCredential {
        access_key_id: Some(format!("ASIA{}", tag)),
        secret_access_key: Some(format!("secret{}", tag)),
        session_token: Some(format!("token{}", tag)),
        expiration,
    }
}

fn stamp_in(seconds: i64) -> String {
    (Local::now() + Duration::seconds(seconds)).format("%Y-%m-%d %H:%M:%S").to_string()
}

fn at(store: &mut AWSCredentials, key: &str, force: bool, remaining: i64) -> Option<Credential> {
    store.auth_credential_at(s(key), force, Some(remaining)).ok().flatten()
}

fn text_of(store: &AWSCredentials) -> String {
    awsst::utils::file::write(&store.to_file())
}

#[test]
fn suffix_names() {
    assert_eq!(KEY_SUFFIX, "awsst");
    assert_eq!(managed_key(&s("prod")), "prod-awsst");
    assert_eq!(base_key(&s("prod-awsst")), "prod");
    assert_eq!(base_key(&s("prod")), "prod");
    assert_eq!(base_key(&s("prod-awsst-awsst")), "prod-awsst");
    assert_eq!(base_key(&s("awsst")), "awsst");
    assert_eq!(base_key(&s("-awsst")), "");
    assert!(is_managed_key(&s("prod-awsst")));
    assert!(!is_managed_key(&s("prod-awsst2")));
    assert!(!is_managed_key(&s("awsst")));
}

#[test]
fn exists_looks_at_bases_only() {
    let store = AWSCredentials::new(shape_aws_toml("[a]\nk = v\n[b-awsst]\nk = v\n"));
    assert!(store.exists_credential(s("a")));
    assert!(!store.exists_credential(s("b")));
    assert!(!store.exists_credential(s("b-awsst")));
    assert_eq!(store.bases.len(), 1);
    assert_eq!(store.originals.len(), 1);
    assert_eq!(store.originals[0].name, "b-awsst");
}

#[test]
fn sections_become_credentials() {
    let text = "[prod]\naws_access_key_id = AK\naws_secret_access_key = SK==\naws_session_token = T\naws_security_token = T2\nexpiration = 2024-01-02 03:04:05\nmfa_serial = arn:aws:iam::1:mfa/me\nrole_arn = arn:aws:iam::1:role/r\naccount = 1\nsource_profile = base\nassumed_role = true\nunknown = x\n[plain]\nassumed_role = yes\n";
    let store = AWSCredentials::new(shape_aws_toml(text));
    let c = store.use_credential(s("prod"));
    assert_eq!(c.name, "prod");
    assert_eq!(c.access_key_id, Some(s("AK")));
    assert_eq!(c.secret_access_key, Some(s("SK==")));
    assert_eq!(c.session_token, Some(s("T")));
    assert_eq!(c.security_token, Some(s("T2")));
    assert_eq!(c.expiration, Some(s("2024-01-02 03:04:05")));
    assert_eq!(c.mfa_serial, Some(s("arn:aws:iam::1:mfa/me")));
    assert_eq!(c.role_arn, Some(s("arn:aws:iam::1:role/r")));
    assert_eq!(c.account, Some(s("1")));
    assert_eq!(c.source_profile, Some(s("base")));
    assert!(c.assumed_role);
    let d = store.use_credential(s("plain"));
    assert_eq!(d.access_key_id, None);
    assert!(!d.assumed_role);
}

#[test]
fn unset_fields_are_left_out_of_the_file() {
    let c = long_lived("prod");
    let f: Fields = c.to_file_map();
    assert_eq!(
        f.entries,
        vec![
            (s("aws_access_key_id"), s("AKIALONG")),
            (s("aws_secret_access_key"), s("longsecret==")),
        ]
    );
    let mut d = Credential::default();
    d.name = s("x");
    d.assumed_role = true;
    d.account = Some(s("42"));
    assert_eq!(
        d.to_file_map().entries,
        vec![(s("account"), s("42")), (s("assumed_role"), s("true"))]
    );
    assert_eq!(Credential::default().to_file_map().len(), 0);
}

#[test]
fn store_is_written_originals_first() {
    let mut store = store_with(&["prod"]);
    let _ = at(&mut store, "prod", true, 0);
    assert_eq!(
        text_of(&store),
        "[prod-awsst]\naws_access_key_id = AKIALONG\naws_secret_access_key = longsecret==\n\n[prod]\naws_access_key_id = AKIALONG\naws_secret_access_key = longsecret==\n\n"
    );
    let back = AWSCredentials::new(shape_aws_toml(&text_of(&store)));
    assert_eq!(back.bases.len(), 1);
    assert_eq!(back.originals.len(), 1);
    assert_eq!(text_of(&back), text_of(&store));
}

#[test]
fn margin_is_three_hours() {
    assert_eq!(SAFETY_MARGIN_SECS, 3 * 60 * 60);
}

#[test]
fn no_expiration_always_needs_rotation() {
    let c = long_lived("prod");
    assert!(c.is_expired_after(1_000_000));
    assert!(c.is_expired_after(-5));
    assert_eq!(c.is_expired().ok(), Some(true));
}

#[test]
fn expiration_boundary() {
    let mut c = long_lived("prod");
    c.expiration = Some(s("2024-01-02 03:04:05"));
    assert!(!c.is_expired_after(3 * 3600 + 60));
    assert!(c.is_expired_after(2 * 3600 + 59 * 60));
    assert!(!c.is_expired_after(10800));
    assert!(c.is_expired_after(10799));
    assert!(c.is_expired_after(0));
    assert!(c.is_expired_after(-1));
}

#[test]
fn expiration_boundary_by_the_clock() {
    let mut c = long_lived("prod");
    c.expiration = Some(stamp_in(3 * 3600 + 60));
    assert_eq!(c.is_expired().ok(), Some(false));
    c.expiration = Some(stamp_in(2 * 3600 + 59 * 60));
    assert_eq!(c.is_expired().ok(), Some(true));
    c.expiration = Some(stamp_in(10 * 3600));
    assert_eq!(c.is_expired().ok(), Some(false));
    c.expiration = Some(stamp_in(-60));
    assert_eq!(c.is_expired().ok(), Some(true));
}

#[test]
fn unreadable_expiration_is_an_error() {
    let mut c = long_lived("prod");
    c.expiration = Some(s("tomorrow"));
    match c.is_expired() {
        Err(e) => assert_eq!(e.stamp, "tomorrow"),
        Ok(_) => panic!("the stamp cannot be read"),
    }
    let mut store = store_with(&[]);
    store.add(c);
    assert!(store.auth_credential(s("prod"), false).is_err());
    assert_eq!(store.originals.len(), 0);
    match store.auth_credential_at(s("prod"), false, None) {
        Err(e) => assert_eq!(e.stamp, "tomorrow"),
        Ok(_) => panic!("without a reading nothing can be decided"),
    }
    assert_eq!(store.originals.len(), 0);
    assert!(matches!(store.auth_credential_at(s("prod"), true, None), Ok(Some(_))));
    store.originals.clear();
    assert!(matches!(store.auth_credential(s("prod"), true), Ok(Some(_))));
    assert_eq!(store.originals.len(), 1);
}

#[test]
fn local_expiration_is_written_to_the_second() {
    match local_expiration(1_700_000_000) {
        Expiration::At(text) => {
            assert_eq!(text.len(), 19);
            let expected = chrono::TimeZone::timestamp_opt(&Local, 1_700_000_000, 0)
                .unwrap()
                .format("%Y-%m-%d %H:%M:%S")
                .to_string();
            assert_eq!(text, expected);
        }
        _ => panic!("the time can be written"),
    }
    assert!(matches!(local_expiration(i64::MAX), Expiration::Unreadable));
}

#[test]
fn written_expiration_is_read_again() {
    let at = Local::now().timestamp() + 5 * 3600;
    let mut c = long_lived("prod");
    match local_expiration(at) {
        Expiration::At(text) => c.expiration = Some(text),
        _ => panic!("the time can be written"),
    }
    assert_eq!(c.is_expired().ok(), Some(false));
}

#[test]
fn fresh_credential_is_not_rotated() {
    let mut store = store_with(&["prod"]);
    store.bases[0].expiration = Some(s("2024-01-02 03:04:05"));
    let before = text_of(&store);
    assert!(at(&mut store, "prod", false, 10 * 3600).is_none());
    assert_eq!(text_of(&store), before);
    assert_eq!(store.originals.len(), 0);
}

#[test]
fn forced_rotation_ignores_the_expiration() {
    let mut store = store_with(&["prod"]);
    store.bases[0].expiration = Some(s("2024-01-02 03:04:05"));
    let c = at(&mut store, "prod", true, 10 * 3600).unwrap();
    assert_eq!(c.name, "prod-awsst");
    assert_eq!(store.originals.len(), 1);
}

#[test]
fn first_request_puts_the_base_aside() {
    let mut store = store_with(&["dev", "prod"]);
    store.bases[1].mfa_serial = Some(s("arn:aws:iam::1:mfa/me"));
    let c = at(&mut store, "prod", false, 0).unwrap();
    assert_eq!(c.name, "prod-awsst");
    assert_eq!(c.access_key_id, Some(s("AKIALONG")));
    assert_eq!(c.mfa_serial, Some(s("arn:aws:iam::1:mfa/me")));
    assert_eq!(store.originals.len(), 1);
    assert_eq!(store.originals[0].name, "prod-awsst");
    assert_eq!(store.bases.len(), 2);
    let again = at(&mut store, "prod", false, 0).unwrap();
    assert_eq!(again.name, "prod-awsst");
    assert_eq!(store.originals.len(), 1);
}

#[test]
fn existing_original_is_preferred() {
    let mut store = AWSCredentials::new(shape_aws_toml(
        "[prod]\naws_access_key_id = TEMP\n[prod-awsst]\naws_access_key_id = LONG\n",
    ));
    let c = at(&mut store, "prod", false, 0).unwrap();
    assert_eq!(c.access_key_id, Some(s("LONG")));
    assert_eq!(store.originals.len(), 1);
}

#[test]
fn two_rotations() {
    let mut store = store_with(&["dev", "prod"]);
    let cand = at(&mut store, "prod", false, 0).unwrap();
    let first = store
        .set_credential(
            cand.name.clone(),
            temporary("1", Expiration::At(s("2030-01-01 00:00:00"))),
            Some(s("123456789012")),
        )
        .unwrap();
    assert_eq!(first.name, "prod");
    assert_eq!(first.access_key_id, Some(s("ASIA1")));
    assert_eq!(first.secret_access_key, Some(s("secret1")));
    assert_eq!(first.session_token, Some(s("token1")));
    assert_eq!(first.security_token, Some(s("token1")));
    assert_eq!(first.expiration, Some(s("2030-01-01 00:00:00")));
    assert_eq!(first.account, Some(s("123456789012")));
    assert_eq!(store.bases[1].access_key_id, Some(s("ASIA1")));
    assert_eq!(store.bases[0].access_key_id, Some(s("AKIALONG")));
    assert_eq!(store.originals.len(), 1);
    assert_eq!(store.originals[0].name, "prod-awsst");
    assert_eq!(store.originals[0].access_key_id, Some(s("AKIALONG")));
    assert_eq!(store.originals[0].secret_access_key, Some(s("longsecret==")));
    assert_eq!(store.originals[0].session_token, None);
    assert_eq!(store.originals[0].expiration, None);

    let cand = at(&mut store, "prod", true, 100_000).unwrap();
    assert_eq!(cand.access_key_id, Some(s("AKIALONG")));
    let second = store
        .set_credential(cand.name.clone(), temporary("2", Expiration::At(s("2031-01-01 00:00:00"))), None)
        .unwrap();
    assert_eq!(second.access_key_id, Some(s("ASIA2")));
    assert_eq!(second.expiration, Some(s("2031-01-01 00:00:00")));
    assert_eq!(second.account, Some(s("123456789012")));
    assert_eq!(store.originals.len(), 1);
    assert_eq!(store.originals[0].access_key_id, Some(s("AKIALONG")));
    assert_eq!(store.originals[0].expiration, None);
    assert_eq!(store.bases[1].session_token, Some(s("token2")));
}

#[test]
fn commit_without_request_puts_the_base_aside() {
    let mut store = store_with(&["prod"]);
    let updated = store.set_credential(s("prod"), temporary("1", Expiration::Unset), None).unwrap();
    assert_eq!(updated.access_key_id, Some(s("ASIA1")));
    assert_eq!(updated.expiration, None);
    assert_eq!(store.originals.len(), 1);
    assert_eq!(store.originals[0].name, "prod-awsst");
    assert_eq!(store.originals[0].access_key_id, Some(s("AKIALONG")));
}

#[test]
fn commit_without_base_changes_nothing() {
    let mut store = store_with(&["prod"]);
    let before = text_of(&store);
    assert!(store.set_credential(s("dev-awsst"), temporary("1", Expiration::Unset), None).is_none());
    assert!(store.set_credential(s("dev"), temporary("1", Expiration::Unset), None).is_none());
    assert_eq!(text_of(&store), before);
    assert!(!store.wants_account(&s("dev-awsst"), &temporary("1", Expiration::Unset)));
}

#[test]
fn unreadable_expiration_keeps_expiration_and_account() {
    let mut store = store_with(&["prod"]);
    store.bases[0].expiration = Some(s("2020-01-01 00:00:00"));
    store.bases[0].account = Some(s("old"));
    assert!(!store.wants_account(&s("prod-awsst"), &temporary("1", Expiration::Unreadable)));
    assert!(store.wants_account(&s("prod-awsst"), &temporary("1", Expiration::Unset)));
    let updated = store
        .set_credential(s("prod-awsst"), temporary("1", Expiration::Unreadable), Some(s("new")))
        .unwrap();
    assert_eq!(updated.access_key_id, Some(s("ASIA1")));
    assert_eq!(updated.expiration, Some(s("2020-01-01 00:00:00")));
    assert_eq!(updated.account, Some(s("old")));
    let updated = store
        .set_credential(s("prod-awsst"), temporary("2", Expiration::Unset), Some(s("new")))
        .unwrap();
    assert_eq!(updated.expiration, Some(s("2020-01-01 00:00:00")));
    assert_eq!(updated.account, Some(s("new")));
}

#[test]
fn removal_takes_base_and_original() {
    let mut store = store_with(&["dev", "prod", "prod2"]);
    let _ = at(&mut store, "prod", true, 0);
    let _ = at(&mut store, "dev", true, 0);
    assert_eq!(store.originals.len(), 2);
    store.remove(s("prod"));
    assert!(!store.exists_credential(s("prod")));
    assert!(store.exists_credential(s("dev")));
    assert!(store.exists_credential(s("prod2")));
    assert_eq!(store.originals.len(), 1);
    assert_eq!(store.originals[0].name, "dev-awsst");
    store.remove(s("missing"));
    assert_eq!(store.bases.len(), 2);
    assert_eq!(store.originals.len(), 1);
}

#[test]
fn removal_takes_every_entry_of_the_name() {
    let mut store = store_with(&["prod", "dev", "prod"]);
    store.remove(s("prod"));
    assert_eq!(store.bases.len(), 1);
    assert_eq!(store.bases[0].name, "dev");
}

#[test]
fn update_handle_prefers_the_original() {
    let mut store = store_with(&["dev", "prod"]);
    match store.suffix_credential(s("prod")) {
        Some(c) => {
            assert_eq!(c.name, "prod");
            c.access_key_id = Some(s("EDITED"));
        }
        None => panic!("the base is there"),
    }
    assert_eq!(store.bases[1].access_key_id, Some(s("EDITED")));
    let _ = at(&mut store, "prod", true, 0);
    match store.suffix_credential(s("prod")) {
        Some(c) => {
            assert_eq!(c.name, "prod-awsst");
            c.secret_access_key = Some(s("NEW"));
        }
        None => panic!("the original is there"),
    }
    assert_eq!(store.originals[0].secret_access_key, Some(s("NEW")));
    assert_eq!(store.bases[1].secret_access_key, Some(s("longsecret==")));
    assert!(store.suffix_credential(s("nobody")).is_none());
    assert_eq!(store.preferred_credential(&s("prod")).unwrap().name, "prod-awsst");
    assert_eq!(store.preferred_credential(&s("dev")).unwrap().name, "dev");
    assert!(store.preferred_credential(&s("nobody")).is_none());
}

#[test]
fn lookup_by_key_finds_the_first() {
    let store = store_with(&["a", "b", "a"]);
    let mut list = vec![long_lived("x"), long_lived("y"), long_lived("x")];
    list[2].account = Some(s("second"));
    list[0].account = Some(s("first"));
    assert_eq!(store.__credential_by_key(&list, "x").unwrap().account, Some(s("first")));
    assert!(store.__credential_by_key(&list, "z").is_none());
}

#[test]
fn from_configure_sets_the_long_lived_fields() {
    let c = Credential::from_configure(s("p"), s("AK"), s("SK"), Some(s("mfa")));
    assert_eq!(c.name, "p");
    assert_eq!(c.access_key_id, Some(s("AK")));
    assert_eq!(c.secret_access_key, Some(s("SK")));
    assert_eq!(c.mfa_serial, Some(s("mfa")));
    assert_eq!(c.session_token, None);
    assert_eq!(c.security_token, None);
    assert_eq!(c.expiration, None);
    assert_eq!(c.role_arn, None);
    assert_eq!(c.account, None);
    assert_eq!(c.source_profile, None);
    assert!(!c.assumed_role);
}

#[test]
fn set_from_map_and_get_value() {
    let mut f = Fields::new();
    f.insert(s("aws_access_key_id"), s("AK"));
    f.insert(s("assumed_role"), s("true"));
    assert_eq!(AWSCredentials::get_value_from_map(&f, "aws_access_key_id"), Some(s("AK")));
    assert_eq!(AWSCredentials::get_value_from_map(&f, "role_arn"), None);
    let c = AWSCredentials::set_from_map(s("n"), &f);
    assert_eq!(c.name, "n");
    assert!(c.assumed_role);
    assert_eq!(c.access_key_id, Some(s("AK")));
}

#[test]
fn reading_of_the_clock_decides() {
    let mut c = long_lived("prod");
    assert_eq!(c.is_expired_by(None).ok(), Some(true));
    assert_eq!(c.is_expired_by(Some(1_000_000)).ok(), Some(true));
    c.expiration = Some(s("2030-01-01 00:00:00"));
    assert_eq!(c.is_expired_by(Some(3 * 3600 + 60)).ok(), Some(false));
    assert_eq!(c.is_expired_by(Some(10800)).ok(), Some(false));
    assert_eq!(c.is_expired_by(Some(2 * 3600 + 59 * 60)).ok(), Some(true));
    assert_eq!(c.is_expired_by(Some(-1)).ok(), Some(true));
    match c.is_expired_by(None) {
        Err(e) => assert_eq!(e.stamp, "2030-01-01 00:00:00"),
        Ok(_) => panic!("without a reading the expiration is unreadable"),
    }
}

#[test]
fn written_time_becomes_the_expiration() {
    match expiration_from(Some(s("2030-01-01 00:00:00"))) {
        Expiration::At(text) => assert_eq!(text, "2030-01-01 00:00:00"),
        _ => panic!("the text is the expiration"),
    }
    assert!(matches!(expiration_from(None), Expiration::Unreadable));
}
