use musce::account::{Account, AccountId, AccountStatus};
use musce::password::{hash_password, verify_password};

#[test]
fn new_starts_active_bare_and_uniquely_identified() {
    let a = Account::new("alice");
    assert_eq!(a.username(), "alice");
    assert_eq!(a.status(), AccountStatus::Active);
    assert!(!a.is_su(), "a fresh account is never su");
    assert!(a.credential().is_none());
    assert!(a.caps().is_empty());
    assert_eq!(a.app_data(), &serde_json::Value::Object(serde_json::Map::new()));

    let b = Account::new("alice");
    assert_ne!(a.id(), b.id());
}

#[test]
fn grant_is_idempotent() {
    let mut a = Account::new("builder");
    assert!(a.grant("build"), "first grant is newly added");
    assert!(!a.grant("build"), "re-granting reports no change");
    assert_eq!(a.caps(), ["build".to_string()], "the cap is held exactly once");
}

#[test]
fn revoke_reports_presence() {
    let mut a = Account::new("builder");
    a.grant("build");
    assert!(a.revoke("build"), "revoking a held cap reports true");
    assert!(!a.revoke("build"), "revoking an absent cap reports false");
    assert!(a.caps().is_empty());
}

#[test]
fn account_id_display_and_parse_roundtrip() {
    let id = AccountId::generate();
    assert_eq!(id.to_text().parse::<AccountId>().unwrap(), id);
    assert!("not-a-uuid".parse::<AccountId>().is_err());
}

#[test]
fn status_string_form_roundtrips_and_matches_serde() {
    for status in [AccountStatus::Active, AccountStatus::Disabled] {
        assert_eq!(status.as_str().parse::<AccountStatus>().unwrap(), status);
    }
    assert_eq!(AccountStatus::Disabled.as_str(), "disabled");
    assert!("bogus".parse::<AccountStatus>().is_err());
}

#[test]
fn from_stored_reconstructs_an_identical_record() {
    let mut a = Account::new("dave");
    a.set_su(true);
    a.grant("build");
    a.set_status(AccountStatus::Disabled);

    let rebuilt = Account::from_stored(
        a.id(),
        a.username().to_owned(),
        a.credential().map(str::to_owned),
        a.caps().to_vec(),
        a.is_su(),
        a.status(),
        a.app_data().clone(),
    );
    assert_eq!(rebuilt.id(), a.id());
    assert_eq!(rebuilt.username(), a.username());
    assert_eq!(rebuilt.credential(), a.credential());
    assert_eq!(rebuilt.caps(), a.caps());
    assert_eq!(rebuilt.is_su(), a.is_su());
    assert_eq!(rebuilt.status(), a.status());
    assert_eq!(rebuilt.app_data(), a.app_data());
}

#[test]
fn generated_ids_are_version_seven_uuids() {
    let text = AccountId::generate().to_text();
    assert_eq!(text.len(), 36);
    assert_eq!(text.as_bytes()[14], b'7');
}

#[test]
fn credentials_and_usernames_can_be_replaced() {
    let mut a = Account::new("erin");
    a.set_credential(Some("$argon2id$stub".into()));
    assert_eq!(a.credential(), Some("$argon2id$stub"));
    a.set_credential(None);
    assert!(a.credential().is_none());
    a.set_username("erin2");
    assert_eq!(a.username(), "erin2");
}

#[test]
fn hash_then_verify_roundtrips() {
    let phc = hash_password("correct horse battery staple").unwrap();
    assert!(verify_password("correct horse battery staple", &phc).unwrap());
}

#[test]
fn wrong_password_is_false_not_error() {
    let phc = hash_password("hunter2").unwrap();
    assert_eq!(verify_password("hunter3", &phc).unwrap(), false, "a wrong password is a clean non-match, not an error");
}

#[test]
fn each_hash_gets_its_own_salt() {
    let a = hash_password("same").unwrap();
    let b = hash_password("same").unwrap();
    assert_ne!(a, b, "two hashes of one password must not be identical");
    assert!(verify_password("same", &a).unwrap());
    assert!(verify_password("same", &b).unwrap());
}

#[test]
fn corrupt_hash_is_an_error_not_a_failed_login() {
    assert!(verify_password("anything", "not-a-phc-string").is_err());
    assert!(verify_password("anything", "").is_err());
}

#[test]
fn empty_password_roundtrips_and_still_discriminates() {
    let phc = hash_password("").unwrap();
    assert!(verify_password("", &phc).unwrap());
    assert!(!verify_password("x", &phc).unwrap());
}

#[test]
fn account_id_text_is_hyphenated_lowercase_hex() {
    let text = "0123abcd-89ab-7def-8123-456789abcdef";
    let id = AccountId::parse(text).unwrap();
    assert_eq!(id.to_text(), text);
    assert_eq!(AccountId::parse("0123ABCD-89AB-7DEF-8123-456789ABCDEF").unwrap().to_text(), text);
}
