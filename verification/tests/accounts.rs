use musce::account::{Account, AccountStatus};
use musce::accounts::{
    check_credentials, create_step, grant_step, login_outcome, password_step, unknown_cap, AccountStep, AccountView,
};
use musce::password::{hash_password, verify_password};
use musce::registry::CapRegistry;
use musce::session::ConnectionId;

const CONN: ConnectionId = ConnectionId(7);

fn registry() -> CapRegistry {
    let mut c = CapRegistry::new();
    c.register("build");
    c
}

fn with_password(name: &str, pw: &str) -> Account {
    let mut a = Account::new(name);
    a.set_credential(Some(hash_password(pw).unwrap()));
    a
}

fn line_of(out: Option<musce::session::AccountOutcome>) -> String {
    let o = out.expect("a refusal");
    assert_eq!(o.conn, CONN);
    assert!(o.authenticated.is_none());
    assert!(o.refreshed.is_none());
    o.line
}

#[test]
fn login_to_missing_account_names_it() {
    assert_eq!(line_of(check_credentials(CONN, "ghost", Some("pw"), None)), "No account named \"ghost\".");
}

#[test]
fn disabled_account_is_refused_before_the_password() {
    let mut a = Account::new("alice");
    a.set_status(AccountStatus::Disabled);
    assert_eq!(line_of(check_credentials(CONN, "alice", None, Some(&a))), "That account is disabled.");
}

#[test]
fn passwordless_login_needs_a_passwordless_account() {
    let a = Account::new("operator");
    assert!(check_credentials(CONN, "operator", None, Some(&a)).is_none());
    assert_eq!(
        line_of(check_credentials(CONN, "operator", Some("pw"), Some(&a))),
        "That account has no password set."
    );
}

#[test]
fn password_checks_decide_the_login() {
    let a = with_password("alice", "hunter2");
    assert!(check_credentials(CONN, "alice", Some("hunter2"), Some(&a)).is_none());
    assert_eq!(line_of(check_credentials(CONN, "alice", Some("nope"), Some(&a))), "Incorrect password.");
    assert_eq!(line_of(check_credentials(CONN, "alice", None, Some(&a))), "That account requires a password.");
}

#[test]
fn corrupt_stored_hash_fails_authentication() {
    let mut a = Account::new("alice");
    a.set_credential(Some("not-a-phc-string".to_string()));
    assert_eq!(line_of(check_credentials(CONN, "alice", Some("pw"), Some(&a))), "Authentication failed.");
}

#[test]
fn admitted_login_binds_resolved_caps() {
    let caps = registry();
    let mut a = Account::new("alice");
    a.grant("build");
    a.grant("retired");
    a.set_su(true);
    let out = login_outcome(&caps, CONN, "alice", &a, Ok(()));
    assert_eq!(out.line, "You are now logged in as alice.");
    let z = out.authenticated.expect("bound");
    assert_eq!(z.account, a.id());
    assert!(z.su);
    assert_eq!(z.caps.len(), 1);
    assert!(z.caps.contains(caps.resolve("build").unwrap()));
    assert!(out.refreshed.is_none());
}

#[test]
fn app_veto_reason_is_shown() {
    let caps = registry();
    let a = Account::new("alice");
    let view = AccountView::of(&a);
    assert_eq!(view.username, "alice");
    assert_eq!(view.status, AccountStatus::Active);
    let out = login_outcome(&caps, CONN, "alice", &a, Err("Not today.".to_string()));
    assert_eq!(out.line, "Not today.");
    assert!(out.authenticated.is_none());
}

#[test]
fn create_refuses_a_taken_name() {
    match create_step(CONN, "alice", true, "pw") {
        AccountStep::Reply(o) => assert_eq!(o.line, "An account named \"alice\" already exists."),
        AccountStep::Save { .. } => panic!("a taken name must not be written"),
    }
}

#[test]
fn create_writes_a_hashed_account() {
    match create_step(CONN, "bob", false, "s3cret") {
        AccountStep::Save { account, then, failed } => {
            assert_eq!(account.username(), "bob");
            assert_eq!(account.status(), AccountStatus::Active);
            assert!(!account.is_su());
            assert!(account.caps().is_empty());
            assert!(verify_password("s3cret", account.credential().unwrap()).unwrap());
            assert_eq!(then.line, "Created account \"bob\".");
            assert_eq!(failed.line, "Could not create the account.");
        },
        AccountStep::Reply(o) => panic!("unexpected refusal: {}", o.line),
    }
}

#[test]
fn password_change_paths() {
    match password_step(CONN, None, "a", "b") {
        AccountStep::Reply(o) => assert_eq!(o.line, "Could not change your password."),
        _ => panic!("missing account"),
    }
    match password_step(CONN, Some(Account::new("op")), "a", "b") {
        AccountStep::Reply(o) => assert_eq!(o.line, "This account has no password to change."),
        _ => panic!("no password"),
    }
    match password_step(CONN, Some(with_password("alice", "old")), "wrong", "new") {
        AccountStep::Reply(o) => assert_eq!(o.line, "Incorrect password."),
        _ => panic!("wrong old password"),
    }
    let a = with_password("alice", "old");
    let id = a.id();
    match password_step(CONN, Some(a), "old", "new") {
        AccountStep::Save { account, then, .. } => {
            assert_eq!(account.id(), id);
            assert!(verify_password("new", account.credential().unwrap()).unwrap());
            assert!(!verify_password("old", account.credential().unwrap()).unwrap());
            assert_eq!(then.line, "Password changed.");
        },
        AccountStep::Reply(o) => panic!("unexpected refusal: {}", o.line),
    }
}

#[test]
fn unknown_capability_is_refused_up_front() {
    let caps = registry();
    assert!(unknown_cap(&caps, CONN, "build").is_none());
    assert_eq!(line_of(unknown_cap(&caps, CONN, "fly")), "There is no capability named \"fly\".");
    match grant_step(&caps, CONN, "alice", "fly", true, Some(Account::new("alice"))) {
        AccountStep::Reply(o) => assert_eq!(o.line, "There is no capability named \"fly\"."),
        _ => panic!("unknown cap"),
    }
    match grant_step(&caps, CONN, "ghost", "build", true, None) {
        AccountStep::Reply(o) => assert_eq!(o.line, "No account named \"ghost\"."),
        _ => panic!("missing account"),
    }
}

#[test]
fn grant_and_revoke_write_and_refresh() {
    let caps = registry();
    let a = Account::new("alice");
    let id = a.id();
    let granted = match grant_step(&caps, CONN, "alice", "build", true, Some(a)) {
        AccountStep::Save { account, then, failed } => {
            assert_eq!(account.caps(), &["build".to_string()]);
            assert_eq!(then.line, "Granted \"build\" to alice.");
            assert_eq!(failed.line, "Could not update the account.");
            let z = then.refreshed.expect("refresh");
            assert_eq!(z.account, id);
            assert_eq!(z.caps.len(), 1);
            account
        },
        AccountStep::Reply(o) => panic!("unexpected: {}", o.line),
    };
    let granted = match grant_step(&caps, CONN, "alice", "build", true, Some(granted)) {
        AccountStep::Reply(o) => {
            assert_eq!(o.line, "alice already has \"build\".");
            None
        },
        AccountStep::Save { account, .. } => Some(account),
    };
    assert!(granted.is_none());
    let mut b = Account::new("bob");
    b.grant("build");
    match grant_step(&caps, CONN, "bob", "build", false, Some(b)) {
        AccountStep::Save { account, then, .. } => {
            assert!(account.caps().is_empty());
            assert_eq!(then.line, "Revoked \"build\" from bob.");
            assert_eq!(then.refreshed.expect("refresh").caps.len(), 0);
        },
        AccountStep::Reply(o) => panic!("unexpected: {}", o.line),
    }
    match grant_step(&caps, CONN, "carol", "build", false, Some(Account::new("carol"))) {
        AccountStep::Reply(o) => assert_eq!(o.line, "carol does not have \"build\"."),
        _ => panic!("nothing to revoke"),
    }
}
