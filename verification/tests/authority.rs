use musce::authority::{
    AccountError, AccountId, AccountRecord, Accounts, AuthError, CapRegistry, MemoryAccountStore,
    RECORD_VERSION,
};

fn record(id: u64, caps: &[&str], is_su: bool) -> AccountRecord {
    AccountRecord {
        id: AccountId(id),
        handle: format!("acct{id}"),
        caps: caps.iter().map(|s| s.to_string()).collect(),
        is_su,
        version: RECORD_VERSION,
    }
}

#[test]
fn registry_interns_idempotently() {
    let mut reg = CapRegistry::new();
    let a = reg.register_cap("build");
    let b = reg.register_cap("ban");
    assert_ne!(a, b, "distinct names get distinct ids");
    assert_eq!(reg.register_cap("build"), a, "same name returns the same id");
    assert_eq!(reg.resolve("build"), Some(a));
    assert_eq!(reg.resolve("never"), None);
}

#[test]
fn empty_store_bootstraps_one_su_operator() {
    let reg = CapRegistry::new();
    let store = MemoryAccountStore::new();
    let auth = Accounts::boot(&store, &reg).unwrap();

    assert_eq!(auth.su_count(), 1, "bootstrap lays down exactly one su");
    let op = auth.stub_operator().expect("a bootstrapped operator");
    assert!(auth.verdict_for(Some(op), false).is_su(), "the operator runs as su");
    assert_eq!(auth.account_by_handle("operator"), Some(op), "the bootstrap operator is reachable by its handle");
}

#[test]
fn quell_drops_su_from_the_operator_verdict() {
    let reg = CapRegistry::new();
    let store = MemoryAccountStore::new();
    let auth = Accounts::boot(&store, &reg).unwrap();
    let op = auth.stub_operator().unwrap();

    assert!(auth.verdict_for(Some(op), false).is_su());
    assert!(!auth.verdict_for(Some(op), true).is_su(), "quelled, the same account is evaluated without su");
}

#[test]
fn guest_verdict_has_no_authority() {
    let mut reg = CapRegistry::new();
    let build = reg.register_cap("build");
    let auth = Accounts::boot(&MemoryAccountStore::new(), &reg).unwrap();
    let v = auth.verdict_for(None, false);
    assert!(!v.is_su());
    assert!(!v.permits(build), "a guest holds no capability");
}

#[test]
fn grants_resolve_to_the_registry_ids() {
    let mut reg = CapRegistry::new();
    let build = reg.register_cap("build");
    let ban = reg.register_cap("ban");
    let store = MemoryAccountStore::with_records(vec![record(1, &[], true), record(2, &["build"], false)]);
    let auth = Accounts::boot(&store, &reg).unwrap();

    let builder = auth.verdict_for(Some(AccountId(2)), false);
    assert!(builder.permits(build), "granted cap admitted");
    assert!(!builder.permits(ban), "ungranted cap refused");
    assert!(!builder.is_su(), "a plain account is not su");
}

#[test]
fn populated_store_with_zero_su_refuses_to_boot() {
    let mut reg = CapRegistry::new();
    reg.register_cap("build");
    let store = MemoryAccountStore::with_records(vec![record(1, &["build"], false)]);
    assert_eq!(
        Accounts::boot(&store, &reg).err(),
        Some(AuthError::NoSuperuser),
        "a populated store with no su refuses rather than minting one"
    );
}

#[test]
fn unknown_grant_refuses_to_boot() {
    let reg = CapRegistry::new();
    let store = MemoryAccountStore::with_records(vec![record(1, &["build"], true)]);
    assert_eq!(
        Accounts::boot(&store, &reg).err(),
        Some(AuthError::UnknownGrant { account: AccountId(1), name: "build".into() }),
        "an unknown grant string is a hard error, not a silent drop"
    );
}

#[test]
fn records_round_trip_through_the_authority() {
    let mut reg = CapRegistry::new();
    reg.register_cap("build");
    let store = MemoryAccountStore::with_records(vec![record(1, &[], true), record(2, &["build"], false)]);
    let auth = Accounts::boot(&store, &reg).unwrap();

    let mut out = auth.to_records();
    out.sort_by_key(|r| r.id.0);
    assert_eq!(out.len(), 2);
    assert_eq!(out[0].id, AccountId(1));
    assert_eq!(out[0].handle, "acct1");
    assert!(out[0].is_su);
    assert_eq!(out[1].caps, vec!["build".to_string()]);
    assert_eq!(out[1].version, RECORD_VERSION);
}

#[test]
fn quellable_caps_drop_under_quell_but_baseline_survives() {
    let mut reg = CapRegistry::new();
    let build = reg.register_cap("build");
    let member = reg.register_baseline_cap("member");
    let store = MemoryAccountStore::with_records(vec![
        record(1, &[], true),
        AccountRecord {
            id: AccountId(2),
            handle: "builder".into(),
            caps: vec!["build".into(), "member".into()],
            is_su: false,
            version: RECORD_VERSION,
        },
    ]);
    let auth = Accounts::boot(&store, &reg).unwrap();

    let live = auth.verdict_for(Some(AccountId(2)), false);
    assert!(live.permits(build) && live.permits(member), "both held live");

    let quelled = auth.verdict_for(Some(AccountId(2)), true);
    assert!(!quelled.permits(build), "an elevated cap drops under quell");
    assert!(quelled.permits(member), "a baseline cap survives quell");
    assert!(!quelled.is_su());
}

#[test]
fn runtime_grant_then_revoke_tracks_the_verdict() {
    let mut reg = CapRegistry::new();
    let build = reg.register_cap("build");
    let mut auth = Accounts::boot(&MemoryAccountStore::new(), &reg).unwrap();

    let builder = auth.create_account("builder");
    assert_eq!(auth.account_by_handle("builder"), Some(builder));
    assert!(!auth.verdict_for(Some(builder), false).permits(build));

    auth.grant(builder, "build", &reg).unwrap();
    assert!(auth.verdict_for(Some(builder), false).permits(build));
    assert!(!auth.verdict_for(Some(builder), true).permits(build));

    auth.revoke(builder, "build", &reg).unwrap();
    assert!(!auth.verdict_for(Some(builder), false).permits(build));
}

#[test]
fn grant_of_an_unregistered_cap_errors() {
    let reg = CapRegistry::new();
    let mut auth = Accounts::boot(&MemoryAccountStore::new(), &reg).unwrap();
    let acc = auth.create_account("someone");
    assert_eq!(
        auth.grant(acc, "build", &reg),
        Err(AccountError::UnknownCap("build".into())),
        "granting an unknown cap is a typed error, not a silent no-op"
    );
}

#[test]
fn grant_to_a_missing_account_errors() {
    let mut reg = CapRegistry::new();
    reg.register_cap("build");
    let mut auth = Accounts::boot(&MemoryAccountStore::new(), &reg).unwrap();
    assert_eq!(auth.grant(AccountId(42), "build", &reg), Err(AccountError::NoSuchAccount(AccountId(42))));
    assert_eq!(auth.revoke(AccountId(42), "build", &reg), Err(AccountError::NoSuchAccount(AccountId(42))));
}

#[test]
fn created_accounts_get_fresh_ids_above_every_loaded_one() {
    let reg = CapRegistry::new();
    let store = MemoryAccountStore::with_records(vec![record(7, &[], true), record(3, &[], false)]);
    let mut auth = Accounts::boot(&store, &reg).unwrap();
    let fresh = auth.create_account("newcomer");
    assert_eq!(fresh, AccountId(8));
    assert_eq!(auth.su_count(), 1);
    assert_eq!(auth.stub_operator(), Some(AccountId(7)));
}
