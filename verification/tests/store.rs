use musce::store::{assemble_accounts, check_schema_version, AccountsSnapshot, StoreError, ACCOUNTS_SCHEMA_VERSION};

#[test]
fn assemble_next_id_clears_the_live_max() {
    let snap = assemble_accounts(vec![(5, "a".into(), false)], vec![], Some(2));
    assert_eq!(snap.next_id, 6);
}

#[test]
fn assemble_next_id_honors_a_marker_above_the_floor() {
    let snap = assemble_accounts(vec![(1, "a".into(), false)], vec![], Some(9));
    assert_eq!(snap.next_id, 9);
}

#[test]
fn schema_version_check_passes_current_and_missing() {
    assert!(check_schema_version(Some(ACCOUNTS_SCHEMA_VERSION)).is_ok());
    assert!(check_schema_version(None).is_ok());
}

#[test]
fn schema_version_check_refuses_an_unknown_version() {
    match check_schema_version(Some(999)) {
        Err(StoreError::SchemaVersion { stored: 999, .. }) => {}
        other => panic!("expected a schema-version refusal, got {other:?}"),
    }
}

#[test]
fn caps_attach_to_their_account_and_orphans_drop() {
    let snap = assemble_accounts(
        vec![(1, "op".into(), true), (2, "builder".into(), false)],
        vec![(2, "build".into()), (2, "possess".into()), (7, "ghost".into())],
        None,
    );
    assert_eq!(snap.records.len(), 2);
    assert_eq!(snap.records[0].handle, "op");
    assert!(snap.records[0].is_su);
    assert!(snap.records[0].caps.is_empty());
    assert_eq!(snap.records[1].caps, vec!["build".to_string(), "possess".to_string()]);
    assert_eq!(snap.next_id, 3);
}

#[test]
fn an_empty_store_assembles_as_the_empty_snapshot() {
    let snap = assemble_accounts(vec![], vec![], None);
    assert_eq!(snap, AccountsSnapshot::empty());
}

#[test]
fn assemble_attaches_caps_to_their_account() {
    let snap = assemble_accounts(
        vec![(1, "operator".into(), true), (2, "builder".into(), false)],
        vec![(2, "build".into()), (2, "possess".into())],
        Some(3),
    );
    assert_eq!(snap.records.len(), 2);
    assert_eq!((snap.records[0].id, snap.records[0].handle.as_str(), snap.records[0].is_su), (1, "operator", true));
    assert!(snap.records[0].caps.is_empty());
    assert_eq!((snap.records[1].id, snap.records[1].handle.as_str(), snap.records[1].is_su), (2, "builder", false));
    assert_eq!(snap.records[1].caps, vec!["build".to_string(), "possess".to_string()]);
    assert_eq!(snap.next_id, 3);
}
