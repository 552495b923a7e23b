use musce::account::AccountId;
use musce::caps::{CapId, CapSet, Gate};
use musce::dispatch::{dispatch_command, CommandTable, Dispatch};
use musce::id::EntityId;
use musce::registry::CapRegistry;
use musce::relation::{Focus, RelationGraph};
use musce::session::{
    AccountOp, AccountOutcome, Authorization, ConnectionId, Delivery, Outgoing, Route, Sessions,
};

/// A stand-in game: one avatar to play, a `look` verb, and a gated admin `poke`.
struct Host {
    floor: Sessions,
    commands: CommandTable<&'static str>,
    admin: CommandTable<&'static str>,
    focus: RelationGraph,
    live: Vec<EntityId>,
    avatar: Option<EntityId>,
    poke: CapId,
}

fn host(seeded: bool) -> Host {
    let mut caps = CapRegistry::new();
    let poke = caps.register("poke");
    let mut commands = CommandTable::new();
    commands.register("look", Gate::Open, "a test chamber");
    let mut admin = CommandTable::new();
    admin.register("poke", Gate::Cap(poke), "poked");
    let avatar = if seeded { Some(EntityId(2)) } else { None };
    Host {
        floor: Sessions::new(),
        commands,
        admin,
        focus: RelationGraph::new(Focus::kind()),
        live: vec![EntityId(1), EntityId(2)],
        avatar,
        poke,
    }
}

impl Host {
    fn connect(&mut self, id: ConnectionId) {
        let mut out = Vec::new();
        self.floor.connect(id, true, &mut out);
    }

    fn run(&mut self, id: ConnectionId, table_admin: bool, line: &str, out: &mut Vec<Outgoing>) {
        if let Some((_actor, verdict)) = self.floor.acting(id, &self.focus, &self.live, out) {
            let table = if table_admin { &self.admin } else { &self.commands };
            let text = match dispatch_command(table, &verdict, line) {
                Dispatch::Run { verb, .. } => table.handler(verb).to_string(),
                Dispatch::Feedback(text) => text,
                Dispatch::Nothing => return,
            };
            out.push(Outgoing::Event(Delivery { to: id, kind: musce::session::EventKind::Feedback, text }));
        }
    }

    fn line(&mut self, id: ConnectionId, line: &str) -> (Vec<Outgoing>, Vec<AccountOp>) {
        let mut out = Vec::new();
        let mut ops = Vec::new();
        match self.floor.route_line(id, line.trim(), &mut ops, &mut out) {
            Route::Done => {}
            Route::Play => {
                let name = self.avatar.map(|_| "a tester".to_string());
                self.floor.play(id, self.avatar, name, &mut out);
            }
            Route::Admin(rest) => self.run(id, true, &rest, &mut out),
            Route::Game(line) => self.run(id, false, &line, &mut out),
        }
        (out, ops)
    }
}

fn texts(out: &[Outgoing]) -> Vec<String> {
    out.iter()
        .filter_map(|o| match o {
            Outgoing::Event(Delivery { text, .. }) => Some(text.clone()),
            _ => None,
        })
        .collect()
}

fn bind_su(h: &mut Host, id: ConnectionId) {
    h.floor.bind(id, Authorization { account: AccountId::generate(), caps: CapSet::new(), su: true });
}

#[test]
fn at_command_routes_to_floor() {
    let mut h = host(false);
    let id = ConnectionId(1);
    h.connect(id);
    let (out, _) = h.line(id, "@quit");
    assert!(out.iter().any(|o| matches!(o, Outgoing::Close(c) if *c == id)));
}

#[test]
fn bare_without_actor_reports_no_character() {
    let mut h = host(false);
    let id = ConnectionId(1);
    h.connect(id);
    let (out, _) = h.line(id, "look");
    assert_eq!(texts(&out), vec!["You have no character. Use @play to enter the world.".to_string()]);
}

#[test]
fn play_then_bare_command_acts_through_the_game() {
    let mut h = host(true);
    let id = ConnectionId(1);
    h.connect(id);
    h.line(id, "@play");
    let (out, _) = h.line(id, "look");
    assert!(texts(&out).iter().any(|t| t.contains("a test chamber")));
}

#[test]
fn su_session_passes_a_gated_verb() {
    let mut h = host(true);
    let id = ConnectionId(1);
    h.connect(id);
    bind_su(&mut h, id);
    h.line(id, "@play");
    let (out, _) = h.line(id, "@poke");
    assert!(texts(&out).iter().any(|t| t.contains("poked")), "got: {out:?}");
}

#[test]
fn capped_session_passes_its_granted_verb() {
    let mut h = host(true);
    let id = ConnectionId(1);
    h.connect(id);
    let poke = h.poke;
    h.floor.bind(id, Authorization { account: AccountId::generate(), caps: CapSet::from_ids(vec![poke]), su: false });
    h.line(id, "@play");
    let (out, _) = h.line(id, "@poke");
    assert!(texts(&out).iter().any(|t| t.contains("poked")), "got: {out:?}");
}

#[test]
fn guest_is_refused_a_gated_verb() {
    let mut h = host(true);
    let id = ConnectionId(1);
    h.connect(id);
    h.line(id, "@play");
    let (out, _) = h.line(id, "@poke");
    assert!(texts(&out).iter().any(|t| t.contains("aren't allowed")), "got: {out:?}");
}

#[test]
fn quell_drops_su_to_the_character() {
    let mut h = host(true);
    let id = ConnectionId(1);
    h.connect(id);
    bind_su(&mut h, id);
    h.line(id, "@play");
    h.line(id, "@quell");
    let (refused, _) = h.line(id, "@poke");
    assert!(texts(&refused).iter().any(|t| t.contains("aren't allowed")), "got: {refused:?}");
    h.line(id, "@quell");
    let (allowed, _) = h.line(id, "@poke");
    assert!(texts(&allowed).iter().any(|t| t.contains("poked")), "got: {allowed:?}");
}

#[test]
fn login_marks_pending_and_rejects_in_flight_lines() {
    let mut h = host(false);
    let id = ConnectionId(1);
    h.connect(id);
    let (_, raised) = h.line(id, "@login builder secret");
    assert!(matches!(raised.as_slice(), [AccountOp::Authenticate { .. }]));
    let (out, _) = h.line(id, "look");
    assert!(texts(&out).iter().any(|t| t.contains("Still authenticating")), "got: {out:?}");
}

#[test]
fn apply_outcome_binds_the_connection() {
    let mut h = host(true);
    let id = ConnectionId(1);
    h.connect(id);
    let mut out = Vec::new();
    h.floor.apply_account_outcome(
        AccountOutcome {
            conn: id,
            line: "You are now logged in as operator.".into(),
            authenticated: Some(Authorization { account: AccountId::generate(), caps: CapSet::new(), su: true }),
            refreshed: None,
        },
        &mut out,
    );
    assert!(texts(&out).iter().any(|t| t.contains("logged in")));
    h.line(id, "@play");
    let (poke, _) = h.line(id, "@poke");
    assert!(texts(&poke).iter().any(|t| t.contains("poked")), "bound su passes");
}

#[test]
fn refused_auth_outcome_clears_pending() {
    let mut h = host(false);
    let id = ConnectionId(1);
    h.connect(id);
    h.line(id, "@login builder secret");
    let mut sink = Vec::new();
    h.floor.apply_account_outcome(
        AccountOutcome { conn: id, line: "Incorrect password.".into(), authenticated: None, refreshed: None },
        &mut sink,
    );
    let (out, _) = h.line(id, "look");
    assert!(!texts(&out).iter().any(|t| t.contains("Still authenticating")), "got: {out:?}");
}

#[test]
fn a_refresh_outcome_reaches_every_session_on_the_account() {
    let mut h = host(true);
    let a = ConnectionId(1);
    let b = ConnectionId(2);
    h.connect(a);
    h.connect(b);
    let account = AccountId::generate();
    h.floor.bind(a, Authorization { account, caps: CapSet::new(), su: false });
    h.floor.bind(b, Authorization { account, caps: CapSet::new(), su: false });
    let poke = h.poke;
    let mut sink = Vec::new();
    h.floor.apply_account_outcome(
        AccountOutcome {
            conn: a,
            line: "Granted \"poke\" to builder.".into(),
            authenticated: None,
            refreshed: Some(Authorization { account, caps: CapSet::from_ids(vec![poke]), su: false }),
        },
        &mut sink,
    );
    h.line(b, "@play");
    let (out, _) = h.line(b, "@poke");
    assert!(texts(&out).iter().any(|t| t.contains("poked")), "got: {out:?}");
}

#[test]
fn a_focused_character_acts_through_its_puppet() {
    let mut h = host(true);
    let id = ConnectionId(1);
    h.connect(id);
    h.line(id, "@play");
    let live = h.live.clone();
    h.focus.relate(&live, EntityId(2), EntityId(1)).unwrap();
    let mut out = Vec::new();
    let (actor, _) = h.floor.acting(id, &h.focus, &h.live, &mut out).unwrap();
    assert_eq!(actor, EntityId(1));
    assert!(out.is_empty());
}
