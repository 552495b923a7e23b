use musce::account::AccountId;
use musce::caps::CapSet;
use musce::control::resolve_actor;
use musce::id::EntityId;
use musce::relation::{Controls, Focus, RelationGraph};
use musce::session::{
    AccountOp, Authorization, ConnectionId, Delivery, EventKind, Floor, Outgoing, Sessions, OPERATOR_USERNAME,
};

fn cmd(s: &mut Sessions, id: ConnectionId, rest: &str) -> (Floor, Vec<Outgoing>, Vec<AccountOp>) {
    let mut out = Vec::new();
    let mut ops = Vec::new();
    let floor = s.account_command(id, rest, &mut ops, &mut out);
    (floor, out, ops)
}

fn su_authz() -> Authorization {
    Authorization { account: AccountId::generate(), caps: CapSet::new(), su: true }
}

fn connect(s: &mut Sessions, id: ConnectionId, loopback: bool) {
    let mut out = Vec::new();
    s.connect(id, loopback, &mut out);
}

fn conn_texts(out: &[Outgoing]) -> Vec<String> {
    out.iter()
        .filter_map(|o| match o {
            Outgoing::Event(Delivery { text, .. }) => Some(text.clone()),
            _ => None,
        })
        .collect()
}

#[test]
fn connect_greets() {
    let mut s = Sessions::new();
    let id = ConnectionId(1);
    let mut out = Vec::new();
    s.connect(id, false, &mut out);
    assert!(matches!(
        out.as_slice(),
        [Outgoing::Event(Delivery { kind: EventKind::System, to: c, .. })] if *c == id
    ));
    assert!(s.is_live(id));
    assert_eq!(s.online_count(), 1);
}

#[test]
fn quit_emits_close() {
    let mut s = Sessions::new();
    let id = ConnectionId(7);
    connect(&mut s, id, false);
    let (_, out, _) = cmd(&mut s, id, "quit");
    assert!(matches!(out[0], Outgoing::Event(Delivery { kind: EventKind::Feedback, .. })));
    assert!(matches!(out[1], Outgoing::Close(c) if c == id));
}

#[test]
fn play_attaches_through_the_injected_policy() {
    let mut s = Sessions::new();
    let avatar = EntityId(42);
    let id = ConnectionId(3);
    connect(&mut s, id, false);
    let (floor, _, _) = cmd(&mut s, id, "play");
    assert_eq!(floor, Floor::Play);
    let mut out = Vec::new();
    s.play(id, Some(avatar), Some("a tester".to_string()), &mut out);
    assert_eq!(s.character_of(id), Some(avatar));
    assert_eq!(conn_texts(&out), vec!["You are now a tester.".to_string()]);

    let mut out = Vec::new();
    s.play(ConnectionId(9), None, None, &mut out);
    assert_eq!(conn_texts(&out), vec!["There is no character to play yet.".to_string()]);
}

#[test]
fn unknown_at_command_is_unhandled_and_silent() {
    let mut s = Sessions::new();
    let id = ConnectionId(2);
    connect(&mut s, id, false);
    let (floor, out, ops) = cmd(&mut s, id, "bogus");
    assert_eq!(floor, Floor::Unhandled);
    assert!(out.is_empty() && ops.is_empty());
}

#[test]
fn operator_raises_an_auth_op_only_from_loopback() {
    let mut s = Sessions::new();
    let local = ConnectionId(1);
    connect(&mut s, local, true);
    let (_, _, ops) = cmd(&mut s, local, "operator");
    assert!(matches!(
        ops.as_slice(),
        [AccountOp::Authenticate { conn, username, password: None }]
            if *conn == local && username == OPERATOR_USERNAME
    ));
    assert!(s.is_pending(local));

    let remote = ConnectionId(2);
    connect(&mut s, remote, false);
    let (_, out, ops) = cmd(&mut s, remote, "operator");
    assert!(ops.is_empty() && !s.is_pending(remote));
    assert!(conn_texts(&out).iter().any(|t| t.contains("only available locally")));
}

#[test]
fn login_raises_an_auth_op_with_username_and_password() {
    let mut s = Sessions::new();
    let id = ConnectionId(1);
    connect(&mut s, id, true);
    let (_, _, ops) = cmd(&mut s, id, "login builder secret");
    assert!(matches!(
        ops.as_slice(),
        [AccountOp::Authenticate { username, password: Some(pw), .. }]
            if username == "builder" && pw == "secret"
    ));
    assert!(s.is_pending(id));
}

#[test]
fn login_requires_a_password_but_is_not_loopback_gated() {
    let mut s = Sessions::new();
    let bare = ConnectionId(1);
    connect(&mut s, bare, true);
    let (_, out, ops) = cmd(&mut s, bare, "login builder");
    assert!(ops.is_empty() && !s.is_pending(bare));
    assert!(conn_texts(&out).iter().any(|t| t.contains("@login <username> <password>")));

    let remote = ConnectionId(2);
    connect(&mut s, remote, false);
    let (_, _, ops) = cmd(&mut s, remote, "login builder secret");
    assert!(matches!(ops.as_slice(), [AccountOp::Authenticate { .. }]));
    assert!(s.is_pending(remote));
}

#[test]
fn account_admin_and_grant_require_the_operator() {
    let mut s = Sessions::new();
    let id = ConnectionId(1);
    connect(&mut s, id, true);

    let (_, _, ops) = cmd(&mut s, id, "account new builder pw");
    assert!(ops.is_empty(), "a guest cannot create accounts");
    let (_, _, ops) = cmd(&mut s, id, "grant builder build");
    assert!(ops.is_empty(), "a guest cannot grant");

    s.bind(id, su_authz());
    let (_, _, ops) = cmd(&mut s, id, "account new builder pw");
    assert!(matches!(
        ops.as_slice(),
        [AccountOp::Create { username, password, .. }] if username == "builder" && password == "pw"
    ));
    let (_, _, ops) = cmd(&mut s, id, "grant builder build");
    assert!(matches!(
        ops.as_slice(),
        [AccountOp::Grant { target, cap, add: true, .. }] if target == "builder" && cap == "build"
    ));
    let (_, _, ops) = cmd(&mut s, id, "revoke builder build");
    assert!(matches!(ops.as_slice(), [AccountOp::Grant { add: false, .. }]));
}

#[test]
fn password_change_raises_a_set_password_op_for_the_bound_account() {
    let mut s = Sessions::new();
    let id = ConnectionId(1);
    connect(&mut s, id, false);

    let (_, out, ops) = cmd(&mut s, id, "password old new");
    assert!(ops.is_empty() && !out.is_empty());
    assert!(conn_texts(&out).iter().any(|t| t.contains("Log in")));

    let authz = su_authz();
    let account = authz.account;
    s.bind(id, authz);
    let (_, _, ops) = cmd(&mut s, id, "password old new");
    assert!(matches!(
        ops.as_slice(),
        [AccountOp::SetPassword { account: a, old, new, .. }]
            if *a == account && old == "old" && new == "new"
    ));

    let (_, _, ops) = cmd(&mut s, id, "pw old new");
    assert!(matches!(ops.as_slice(), [AccountOp::SetPassword { .. }]));
}

#[test]
fn password_change_without_both_arguments_shows_usage() {
    let mut s = Sessions::new();
    let id = ConnectionId(1);
    connect(&mut s, id, false);
    s.bind(id, su_authz());

    let (_, out, ops) = cmd(&mut s, id, "password only-old");
    assert!(ops.is_empty(), "a missing new password raises no op");
    assert!(conn_texts(&out).iter().any(|t| t.contains("@password <old> <new>")));
}

#[test]
fn bind_caches_authorization_and_clears_pending() {
    let mut s = Sessions::new();
    let id = ConnectionId(1);
    connect(&mut s, id, true);
    cmd(&mut s, id, "operator");
    assert!(s.is_pending(id));
    s.bind(id, su_authz());
    assert!(!s.is_pending(id));
    assert!(s.verdict_of(id).is_su(), "the cached authorization is in force");
}

#[test]
fn refresh_updates_every_session_on_that_account() {
    let mut s = Sessions::new();
    let a = ConnectionId(1);
    let b = ConnectionId(2);
    connect(&mut s, a, true);
    connect(&mut s, b, true);
    let authz = su_authz();
    let account = authz.account;
    s.bind(a, authz);
    s.bind(b, Authorization { account, caps: CapSet::new(), su: false });

    s.refresh(Authorization { account, caps: CapSet::new(), su: true });
    assert!(s.verdict_of(a).is_su());
    assert!(s.verdict_of(b).is_su());
}

#[test]
fn quell_toggles_suppression() {
    let mut s = Sessions::new();
    let id = ConnectionId(1);
    connect(&mut s, id, true);
    s.bind(id, su_authz());
    assert!(s.verdict_of(id).is_su());
    cmd(&mut s, id, "quell");
    assert!(!s.verdict_of(id).is_su(), "quelled su is not in force");
    cmd(&mut s, id, "quell");
    assert!(s.verdict_of(id).is_su(), "un-quelled, su is back");
}

#[test]
fn who_counts_and_help_lists_and_disconnect_forgets() {
    let mut s = Sessions::new();
    connect(&mut s, ConnectionId(1), false);
    connect(&mut s, ConnectionId(2), false);
    let (_, out, _) = cmd(&mut s, ConnectionId(1), "who");
    assert_eq!(conn_texts(&out), vec!["2 connection(s) online.".to_string()]);
    let (_, out, _) = cmd(&mut s, ConnectionId(1), "  help ");
    assert!(conn_texts(&out)[0].starts_with("Commands: @play"));
    s.disconnect(ConnectionId(2));
    assert!(!s.is_live(ConnectionId(2)));
    assert_eq!(s.online_count(), 1);
    s.clear_pending(ConnectionId(1));
    assert!(!s.is_pending(ConnectionId(1)));
}

#[test]
fn resolve_actor_without_focus_is_the_character() {
    let character = EntityId(1);
    let focus = RelationGraph::new(Focus::kind());
    assert_eq!(resolve_actor(&focus, &[character], character), character);
}

#[test]
fn resolve_actor_follows_live_focus() {
    let character = EntityId(1);
    let robot = EntityId(2);
    let live = [character, robot];
    let mut controls = RelationGraph::new(Controls::kind());
    let mut focus = RelationGraph::new(Focus::kind());
    controls.relate(&live, robot, character).unwrap();
    musce::control::set_focus(&controls, &mut focus, &live, character, robot).unwrap();
    assert_eq!(resolve_actor(&focus, &live, character), robot);
}

#[test]
fn resolve_actor_backstop_falls_back_on_dangling_focus() {
    let character = EntityId(1);
    let ghost = EntityId(9999);
    let mut focus = RelationGraph::new(Focus::kind());
    focus.relate(&[character, ghost], character, ghost).unwrap();
    // The ghost is gone but the cursor still names it.
    assert_eq!(focus.target_of(character), Some(ghost));
    assert_eq!(resolve_actor(&focus, &[character], character), character);
}
