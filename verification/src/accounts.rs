//! The account operations' decisions. The store lookups and writes are the
//! host's (they are I/O); given what a lookup found, these functions decide
//! what the connection is told, whether the session is bound or refreshed,
//! and which account record, if any, must be written first.

use vstd::prelude::*;
use serde_json::Value as JsonValue;
use crate::account::{Account, AccountStatus};
use crate::caps::{CapId, CapSet};
use crate::password::{PhcCheck, argon2_judgement, hash_password, verify_password};
use crate::registry::CapRegistry;
use crate::session::{AccountOutcome, Authorization, ConnectionId};

verus! {

/// A restricted view of an account for the app's login veto: identity and the
/// app's own data, never the credential hash.
pub struct AccountView<'a> {
    pub username: &'a str,
    pub status: AccountStatus,
    pub app_data: &'a JsonValue,
}

impl<'a> AccountView<'a> {
    /// The view of `account`.
    pub fn of(account: &'a Account) -> (r: AccountView<'a>)
        ensures
            r.username@ == account.username_view(),
            r.status == account.status_view(),
            *r.app_data == account.app_data_view(),
    {
        AccountView { username: account.username(), status: account.status(), app_data: account.app_data() }
    }
}

/// What an account operation asks of the host.
pub enum AccountStep {
    /// Answer the connection; nothing to write.
    Reply(AccountOutcome),
    /// Write `account`, then answer with `then`, or with `failed` if the write fails.
    Save { account: Account, then: AccountOutcome, failed: AccountOutcome },
}

/// The capabilities a list of grant names resolves to in a registry.
pub open spec fn resolved(reg: Seq<Seq<char>>, names: Seq<Seq<char>>) -> Set<CapId> {
    Set::new(|c: CapId| exists|i: int| 0 <= i < names.len() && c.0 < reg.len() && reg[c.0 as int] == names[i])
}

/// An outcome that only feeds a line back.
pub open spec fn reply_only(o: AccountOutcome, conn: ConnectionId, line: Seq<char>) -> bool {
    o.conn == conn && o.line@ == line && o.authenticated is None && o.refreshed is None
}

fn reply(conn: ConnectionId, line: String) -> (r: AccountOutcome)
    ensures
        reply_only(r, conn, line@),
{
    AccountOutcome { conn, line, authenticated: None, refreshed: None }
}

fn quoted(before: &str, name: &str, after: &str) -> (r: String)
    ensures
        r@ == before@ + name@ + after@,
{
    let mut s = String::from_str(before);
    s.append(name);
    s.append(after);
    s
}

/// An account's grants resolved against the registry.
fn resolve_caps(caps: &CapRegistry, account: &Account) -> (r: CapSet)
    ensures
        r@ == resolved(caps@, account.caps_view()),
{
    let names = account.caps();
    let (set, _unknown) = caps.resolve_set(names);
    proof {
        let held = account.caps_view();
        assert(names@.len() == held.len()) by {
            assert(names@.map_values(|c: String| c@).len() == names@.len());
        }
        assert forall|i: int| 0 <= i < held.len() implies #[trigger] held[i] == names@[i]@ by {
            assert(names@.map_values(|c: String| c@)[i] == names@[i]@);
        }
        assert forall|c: CapId| #[trigger] set@.contains(c) == resolved(caps@, held).contains(c) by {
            if set@.contains(c) {
                let i = choose|i: int| 0 <= i < names@.len() && c.0 < caps@.len() && caps@[c.0 as int] == names@[i]@;
                assert(held[i] == names@[i]@);
            }
            if resolved(caps@, held).contains(c) {
                let i = choose|i: int| 0 <= i < held.len() && c.0 < caps@.len() && caps@[c.0 as int] == held[i];
                assert(held[i] == names@[i]@);
            }
        }
        assert(set@ =~= resolved(caps@, held));
    }
    set
}

/// Check a login's credentials against the account a lookup found: a missing
/// or disabled account, a password the account does not take, or a wrong or
/// unusable one is refused with its line; `None` admits the login on to the
/// app's veto.
pub fn check_credentials(conn: ConnectionId, username: &str, password: Option<&str>, account: Option<&Account>) -> (r: Option<AccountOutcome>)
    ensures
        match account {
            None => r matches Some(o) && reply_only(o, conn, "No account named \""@ + username@ + "\"."@),
            Some(a) => if a.status_view() == AccountStatus::Disabled {
                r matches Some(o) && reply_only(o, conn, "That account is disabled."@)
            } else {
                match (password, a.credential_view()) {
                    (None, None) => r is None,
                    (None, Some(_)) => r matches Some(o) && reply_only(o, conn, "That account requires a password."@),
                    (Some(_), None) => r matches Some(o) && reply_only(o, conn, "That account has no password set."@),
                    (Some(pw), Some(h)) => match argon2_judgement(pw@, h) {
                        PhcCheck::Match => r is None,
                        PhcCheck::Mismatch => r matches Some(o) && reply_only(o, conn, "Incorrect password."@),
                        PhcCheck::Malformed => r matches Some(o) && reply_only(o, conn, "Authentication failed."@),
                    },
                }
            },
        },
{
    proof {
        reveal_strlit("\"");
    }
    let a = match account {
        None => {
            return Some(reply(conn, quoted("No account named \"", username, "\".")));
        },
        Some(a) => a,
    };
    if a.status() == AccountStatus::Disabled {
        return Some(reply(conn, "That account is disabled.".to_owned()));
    }
    match (password, a.credential()) {
        (None, None) => None,
        (None, Some(_)) => Some(reply(conn, "That account requires a password.".to_owned())),
        (Some(_), None) => Some(reply(conn, "That account has no password set.".to_owned())),
        (Some(pw), Some(hash)) => match verify_password(pw, hash) {
            Ok(true) => None,
            Ok(false) => Some(reply(conn, "Incorrect password.".to_owned())),
            Err(_) => Some(reply(conn, "Authentication failed.".to_owned())),
        },
    }
}

/// Finish an admitted login with the app veto's answer: a refusal's reason is
/// shown; otherwise the connection is bound to the account's resolved
/// capabilities and superuser bit.
pub fn login_outcome(caps: &CapRegistry, conn: ConnectionId, username: &str, account: &Account, veto: Result<(), String>) -> (r: AccountOutcome)
    ensures
        match veto {
            Err(reason) => reply_only(r, conn, reason@),
            Ok(()) => r.conn == conn && r.line@ == "You are now logged in as "@ + username@ + "."@ && r.refreshed is None
                && (r.authenticated matches Some(z) && z.account == account.id_view() && z.su == account.su_view()
                && z.caps@ == resolved(caps@, account.caps_view())),
        },
{
    match veto {
        Err(reason) => reply(conn, reason),
        Ok(()) => {
            let authz = Authorization { account: account.id(), caps: resolve_caps(caps, account), su: account.is_su() };
            AccountOutcome {
                conn,
                line: quoted("You are now logged in as ", username, "."),
                authenticated: Some(authz),
                refreshed: None,
            }
        },
    }
}

/// Create an account with a password, given whether the username is taken.
pub fn create_step(conn: ConnectionId, username: &str, taken: bool, password: &str) -> (r: AccountStep)
    ensures
        taken ==> (r matches AccountStep::Reply(o) && reply_only(
            o,
            conn,
            "An account named \""@ + username@ + "\" already exists."@,
        )),
        !taken ==> match r {
            AccountStep::Reply(o) => reply_only(o, conn, "Could not create the account."@),
            AccountStep::Save { account, then, failed } => account.username_view() == username@
                && (account.credential_view() matches Some(h) && argon2_judgement(password@, h) == PhcCheck::Match)
                && account.caps_view().len() == 0 && !account.su_view() && account.status_view() == AccountStatus::Active
                && reply_only(then, conn, "Created account \""@ + username@ + "\"."@) && reply_only(
                failed,
                conn,
                "Could not create the account."@,
            ),
        },
{
    if taken {
        return AccountStep::Reply(reply(conn, quoted("An account named \"", username, "\" already exists.")));
    }
    match hash_password(password) {
        Err(_) => AccountStep::Reply(reply(conn, "Could not create the account.".to_owned())),
        Ok(hash) => {
            let mut account = Account::new(username);
            account.set_credential(Some(hash));
            AccountStep::Save {
                account,
                then: reply(conn, quoted("Created account \"", username, "\".")),
                failed: reply(conn, "Could not create the account.".to_owned()),
            }
        },
    }
}

/// Change an account's password after verifying the old one, given the account
/// a lookup by id found.
pub fn password_step(conn: ConnectionId, account: Option<Account>, old: &str, new: &str) -> (r: AccountStep)
    ensures
        match account {
            None => r matches AccountStep::Reply(o) && reply_only(o, conn, "Could not change your password."@),
            Some(a) => match a.credential_view() {
                None => r matches AccountStep::Reply(o) && reply_only(o, conn, "This account has no password to change."@),
                Some(h) => match argon2_judgement(old@, h) {
                    PhcCheck::Mismatch => r matches AccountStep::Reply(o) && reply_only(o, conn, "Incorrect password."@),
                    PhcCheck::Malformed => r matches AccountStep::Reply(o) && reply_only(o, conn, "Could not change your password."@),
                    PhcCheck::Match => match r {
                        AccountStep::Reply(o) => reply_only(o, conn, "Could not change your password."@),
                        AccountStep::Save { account: b, then, failed } => b.id_view() == a.id_view()
                            && b.username_view() == a.username_view() && b.caps_view() == a.caps_view()
                            && b.su_view() == a.su_view() && b.status_view() == a.status_view()
                            && b.app_data_view() == a.app_data_view()
                            && (b.credential_view() matches Some(h2) && argon2_judgement(new@, h2) == PhcCheck::Match)
                            && reply_only(then, conn, "Password changed."@) && reply_only(
                            failed,
                            conn,
                            "Could not change your password."@,
                        ),
                    },
                },
            },
        },
{
    let mut a = match account {
        None => {
            return AccountStep::Reply(reply(conn, "Could not change your password.".to_owned()));
        },
        Some(a) => a,
    };
    let checked = match a.credential() {
        None => {
            return AccountStep::Reply(reply(conn, "This account has no password to change.".to_owned()));
        },
        Some(hash) => verify_password(old, hash),
    };
    match checked {
        Ok(true) => {},
        Ok(false) => {
            return AccountStep::Reply(reply(conn, "Incorrect password.".to_owned()));
        },
        Err(_) => {
            return AccountStep::Reply(reply(conn, "Could not change your password.".to_owned()));
        },
    }
    match hash_password(new) {
        Err(_) => AccountStep::Reply(reply(conn, "Could not change your password.".to_owned())),
        Ok(hash) => {
            a.set_credential(Some(hash));
            AccountStep::Save {
                account: a,
                then: reply(conn, "Password changed.".to_owned()),
                failed: reply(conn, "Could not change your password.".to_owned()),
            }
        },
    }
}

/// The refusal of a grant or revoke naming a capability outside the vocabulary,
/// decided before any account is looked up.
pub fn unknown_cap(caps: &CapRegistry, conn: ConnectionId, cap: &str) -> (r: Option<AccountOutcome>)
    ensures
        caps@.contains(cap@) ==> r is None,
        !caps@.contains(cap@) ==> (r matches Some(o) && reply_only(o, conn, "There is no capability named \""@ + cap@ + "\"."@)),
{
    match caps.resolve(cap) {
        Some(_) => None,
        None => Some(reply(conn, quoted("There is no capability named \"", cap, "\"."))),
    }
}

/// Grant (`add`) or revoke `cap` on the account a lookup by username found.
/// A change is written and then refreshes the account's sessions; no change is
/// reported as such.
pub fn grant_step(caps: &CapRegistry, conn: ConnectionId, target: &str, cap: &str, add: bool, account: Option<Account>) -> (r: AccountStep)
    ensures
        !caps@.contains(cap@) ==> (r matches AccountStep::Reply(o) && reply_only(
            o,
            conn,
            "There is no capability named \""@ + cap@ + "\"."@,
        )),
        caps@.contains(cap@) && account is None ==> (r matches AccountStep::Reply(o) && reply_only(
            o,
            conn,
            "No account named \""@ + target@ + "\"."@,
        )),
        caps@.contains(cap@) && account is Some ==> {
            let a = account->0;
            let holds = a.caps_view().contains(cap@);
            if add == holds {
                r matches AccountStep::Reply(o) && reply_only(
                    o,
                    conn,
                    target@ + (if add { " already has \""@ } else { " does not have \""@ }) + cap@ + "\"."@,
                )
            } else {
                r matches AccountStep::Save { account: b, then, failed } && b.id_view() == a.id_view()
                    && b.username_view() == a.username_view() && b.su_view() == a.su_view()
                    && b.credential_view() == a.credential_view() && b.status_view() == a.status_view()
                    && b.app_data_view() == a.app_data_view() && (if add {
                    b.caps_view() == a.caps_view().push(cap@)
                } else {
                    exists|i: int|
                        0 <= i < a.caps_view().len() && a.caps_view()[i] == cap@ && (forall|j: int|
                            0 <= j < i ==> a.caps_view()[j] != cap@) && b.caps_view() == a.caps_view().remove(i)
                }) && then.conn == conn && then.line@ == (if add {
                    "Granted \""@ + cap@ + "\" to "@ + target@ + "."@
                } else {
                    "Revoked \""@ + cap@ + "\" from "@ + target@ + "."@
                }) && then.authenticated is None && (then.refreshed matches Some(z) && z.account == a.id_view()
                    && z.su == a.su_view() && z.caps@ == resolved(caps@, b.caps_view())) && reply_only(
                    failed,
                    conn,
                    "Could not update the account."@,
                )
            }
        },
{
    match unknown_cap(caps, conn, cap) {
        Some(o) => {
            return AccountStep::Reply(o);
        },
        None => {},
    }
    let mut a = match account {
        None => {
            return AccountStep::Reply(reply(conn, quoted("No account named \"", target, "\".")));
        },
        Some(a) => a,
    };
    let changed = if add {
        a.grant(cap)
    } else {
        a.revoke(cap)
    };
    if !changed {
        let state = if add {
            " already has \""
        } else {
            " does not have \""
        };
        let mut line = String::from_str(target);
        line.append(state);
        line.append(cap);
        line.append("\".");
        return AccountStep::Reply(reply(conn, line));
    }
    let (verb, prep) = if add {
        ("Granted \"", "\" to ")
    } else {
        ("Revoked \"", "\" from ")
    };
    let mut line = String::from_str(verb);
    line.append(cap);
    line.append(prep);
    line.append(target);
    line.append(".");
    let authz = Authorization { account: a.id(), caps: resolve_caps(caps, &a), su: a.is_su() };
    AccountStep::Save {
        account: a,
        then: AccountOutcome { conn, line, authenticated: None, refreshed: Some(authz) },
        failed: reply(conn, "Could not update the account.".to_owned()),
    }
}

} // verus!
