//! The session floor: the always-present bottom of a connection's input stack.
//! It holds each connection's per-session state (the character it drives, the
//! account it is authenticated as with that account's cached authorization,
//! superuser suppression, whether the peer is loopback, whether an
//! authentication is in flight) and decides what each `@`-command does: what
//! the connection is told, and which account operations are raised for the
//! account task to resolve off-thread.

use vstd::prelude::*;
use crate::account::AccountId;
use crate::caps::{CapSet, Verdict};
use crate::id::EntityId;
use crate::control::resolve_actor;
use crate::relation::{RelationGraph, parent_of};
use crate::text::{char_is_whitespace, is_ws, str_eq};

verus! {

/// A network connection's identity.
#[derive(Clone, Copy, Debug, PartialEq, Eq, Structural, Hash)]
pub struct ConnectionId(pub u64);

/// The class of a message sent to a connection.
#[derive(Clone, Copy, Debug, PartialEq, Eq, Structural)]
pub enum EventKind {
    /// Session lifecycle text, such as the greeting.
    System,
    /// A reply to the connection's own command.
    Feedback,
}

/// One message addressed to one connection.
#[derive(Debug, PartialEq, Eq)]
pub struct Delivery {
    pub to: ConnectionId,
    pub kind: EventKind,
    pub text: String,
}

/// What the floor sends toward the network.
#[derive(Debug, PartialEq, Eq)]
pub enum Outgoing {
    Event(Delivery),
    Close(ConnectionId),
}

/// Model of an outgoing item.
pub enum OutgoingV {
    Event(u64, EventKind, Seq<char>),
    Close(u64),
}

impl View for Outgoing {
    type V = OutgoingV;

    open spec fn view(&self) -> OutgoingV {
        match self {
            Outgoing::Event(d) => OutgoingV::Event(d.to.0, d.kind, d.text@),
            Outgoing::Close(c) => OutgoingV::Close(c.0),
        }
    }
}

/// The login handle of the bootstrap superuser.
pub const OPERATOR_USERNAME: &'static str = "operator";

/// An account operation for the account task.
#[derive(Debug, PartialEq, Eq)]
pub enum AccountOp {
    /// Authenticate as `username`; no password only for the loopback operator.
    Authenticate { conn: ConnectionId, username: String, password: Option<String> },
    /// Change `account`'s password from `old` to `new`.
    SetPassword { conn: ConnectionId, account: AccountId, old: String, new: String },
    /// Create an account with a password.
    Create { conn: ConnectionId, username: String, password: String },
    /// Grant (`add`) or revoke a capability.
    Grant { conn: ConnectionId, target: String, cap: String, add: bool },
}

/// Model of an account operation.
pub enum AccountOpV {
    Authenticate(u64, Seq<char>, Option<Seq<char>>),
    SetPassword(u64, AccountId, Seq<char>, Seq<char>),
    Create(u64, Seq<char>, Seq<char>),
    Grant(u64, Seq<char>, Seq<char>, bool),
}

impl View for AccountOp {
    type V = AccountOpV;

    open spec fn view(&self) -> AccountOpV {
        match self {
            AccountOp::Authenticate { conn, username, password } => AccountOpV::Authenticate(
                conn.0,
                username@,
                match password {
                    Some(p) => Some(p@),
                    None => None,
                },
            ),
            AccountOp::SetPassword { conn, account, old, new } => AccountOpV::SetPassword(conn.0, *account, old@, new@),
            AccountOp::Create { conn, username, password } => AccountOpV::Create(conn.0, username@, password@),
            AccountOp::Grant { conn, target, cap, add } => AccountOpV::Grant(conn.0, target@, cap@, *add),
        }
    }
}

/// An account's resolved authorization, as the account task reports it.
pub struct Authorization {
    pub account: AccountId,
    pub caps: CapSet,
    pub su: bool,
}

/// Model of one session.
pub struct SessionV {
    pub character: Option<EntityId>,
    pub account: Option<AccountId>,
    pub caps: Set<crate::caps::CapId>,
    pub su: bool,
    pub quelled: bool,
    pub loopback: bool,
    pub pending_auth: bool,
}

struct Session {
    character: Option<EntityId>,
    account: Option<AccountId>,
    caps: CapSet,
    su: bool,
    quelled: bool,
    loopback: bool,
    pending_auth: bool,
}

impl View for Session {
    type V = SessionV;

    closed spec fn view(&self) -> SessionV {
        SessionV {
            character: self.character,
            account: self.account,
            caps: self.caps@,
            su: self.su,
            quelled: self.quelled,
            loopback: self.loopback,
            pending_auth: self.pending_auth,
        }
    }
}

impl Session {
    fn copy(&self) -> (r: Session)
        ensures
            r@ == self@,
    {
        Session {
            character: self.character,
            account: self.account,
            caps: self.caps.copy(),
            su: self.su,
            quelled: self.quelled,
            loopback: self.loopback,
            pending_auth: self.pending_auth,
        }
    }
}

/// A fresh session: nothing attached, no account, authority live.
pub open spec fn fresh_session(loopback: bool) -> SessionV {
    SessionV {
        character: None,
        account: None,
        caps: Set::empty(),
        su: false,
        quelled: false,
        loopback,
        pending_auth: false,
    }
}

// ---------------------------------------------------------------------------
// Words of a command line.

/// The position just past the whitespace-free run starting at `i`.
pub open spec fn word_end(s: Seq<char>, i: int) -> int
    decreases s.len() - i,
{
    if 0 <= i < s.len() && !is_ws(s[i]) {
        word_end(s, i + 1)
    } else {
        i
    }
}

/// The whitespace-separated words of `s` from position `i` on.
pub open spec fn words_from(s: Seq<char>, i: int) -> Seq<Seq<char>>
    decreases s.len() - i, 1int,
{
    if i < 0 || i >= s.len() {
        Seq::empty()
    } else if is_ws(s[i]) {
        words_from(s, i + 1)
    } else {
        proof {
            lemma_word_end_bounds(s, i);
        }
        seq![s.subrange(i, word_end(s, i))] + words_from(s, word_end(s, i))
    }
}

/// The whitespace-separated words of `s`.
pub open spec fn words(s: Seq<char>) -> Seq<Seq<char>> {
    words_from(s, 0)
}

pub proof fn lemma_word_end_bounds(s: Seq<char>, i: int)
    requires
        0 <= i < s.len(),
        !is_ws(s[i]),
    ensures
        i < word_end(s, i) <= s.len(),
        forall|k: int| i <= k < word_end(s, i) ==> !is_ws(#[trigger] s[k]),
    decreases s.len() - i,
{
    assert(word_end(s, i) == word_end(s, i + 1));
    if i + 1 < s.len() && !is_ws(s[i + 1]) {
        lemma_word_end_bounds(s, i + 1);
    } else {
        assert(word_end(s, i + 1) == i + 1);
    }
}

/// The `k`-th word, or nothing past the last.
pub open spec fn word_at(w: Seq<Seq<char>>, k: int) -> Option<Seq<char>> {
    if 0 <= k < w.len() {
        Some(w[k])
    } else {
        None
    }
}

/// The `k`-th word, or the empty string past the last.
pub open spec fn word_or_empty(w: Seq<Seq<char>>, k: int) -> Seq<char> {
    if 0 <= k < w.len() {
        w[k]
    } else {
        Seq::empty()
    }
}

/// Split `s` into its whitespace-separated words.
fn split_words(s: &str) -> (r: Vec<String>)
    ensures
        r@.map_values(|w: String| w@) == words(s@),
{
    let n = s.unicode_len();
    let mut out: Vec<String> = Vec::new();
    let mut i: usize = 0;
    assert(out@.map_values(|w: String| w@) =~= Seq::<Seq<char>>::empty());
    while i < n
        invariant
            n == s@.len(),
            i <= n,
            words(s@) == out@.map_values(|w: String| w@) + words_from(s@, i as int),
        decreases n - i,
    {
        if char_is_whitespace(s.get_char(i)) {
            i = i + 1;
        } else {
            let mut j: usize = i;
            while j < n && !char_is_whitespace(s.get_char(j))
                invariant
                    n == s@.len(),
                    i <= j <= n,
                    word_end(s@, i as int) == word_end(s@, j as int),
                decreases n - j,
            {
                j = j + 1;
            }
            let ghost before = out@.map_values(|w: String| w@);
            let word = s.substring_char(i, j);
            out.push(word.to_owned());
            proof {
                assert(out@.map_values(|w: String| w@) =~= before.push(s@.subrange(i as int, j as int)));
                assert(before.push(s@.subrange(i as int, j as int)) + words_from(s@, j as int) =~= before + (
                seq![s@.subrange(i as int, j as int)] + words_from(s@, j as int)));
            }
            i = j;
        }
    }
    assert(out@.map_values(|w: String| w@) + words_from(s@, i as int) =~= out@.map_values(|w: String| w@));
    out
}

// ---------------------------------------------------------------------------
// Decimal text.

/// The decimal digits of `n`.
pub open spec fn decimal(n: nat) -> Seq<char>
    decreases n,
{
    if n < 10 {
        seq![digit(n)]
    } else {
        decimal(n / 10) + seq![digit(n % 10)]
    }
}

/// The character of a single decimal digit.
pub open spec fn digit(d: nat) -> char {
    if d == 0 { '0' } else if d == 1 { '1' } else if d == 2 { '2' } else if d == 3 { '3' } else if d == 4 {
        '4'
    } else if d == 5 { '5' } else if d == 6 { '6' } else if d == 7 { '7' } else if d == 8 { '8' } else { '9' }
}

fn digit_str(d: u64) -> (r: &'static str)
    requires
        d < 10,
    ensures
        r@ == seq![digit(d as nat)],
{
    proof {
        reveal_strlit("0");
        reveal_strlit("1");
        reveal_strlit("2");
        reveal_strlit("3");
        reveal_strlit("4");
        reveal_strlit("5");
        reveal_strlit("6");
        reveal_strlit("7");
        reveal_strlit("8");
        reveal_strlit("9");
    }
    if d == 0 { "0" } else if d == 1 { "1" } else if d == 2 { "2" } else if d == 3 { "3" } else if d == 4 {
        "4"
    } else if d == 5 { "5" } else if d == 6 { "6" } else if d == 7 { "7" } else if d == 8 { "8" } else { "9" }
}

/// Append `n` written in decimal.
pub(crate) fn push_decimal(s: &mut String, n: u64)
    ensures
        final(s)@ == old(s)@ + decimal(n as nat),
    decreases n,
{
    if n >= 10 {
        push_decimal(s, n / 10);
    }
    s.append(digit_str(n % 10));
    proof {
        if n >= 10 {
            assert(old(s)@ + decimal((n / 10) as nat) + seq![digit((n % 10) as nat)] =~= old(s)@ + decimal(n as nat));
        } else {
            assert(n % 10 == n);
            assert(old(s)@ + seq![digit(n as nat)] =~= old(s)@ + decimal(n as nat));
        }
    }
}

// ---------------------------------------------------------------------------
// The session table.

/// Feedback addressed to `id`.
pub open spec fn feedback(id: u64, text: Seq<char>) -> OutgoingV {
    OutgoingV::Event(id, EventKind::Feedback, text)
}

fn feedback_to(id: ConnectionId, text: &str) -> (r: Outgoing)
    ensures
        r@ == feedback(id.0, text@),
{
    Outgoing::Event(Delivery { to: id, kind: EventKind::Feedback, text: text.to_owned() })
}

/// Model of a list of outgoing items.
pub open spec fn outs_view(v: Seq<Outgoing>) -> Seq<OutgoingV> {
    v.map_values(|o: Outgoing| o@)
}

/// Model of a list of account operations.
pub open spec fn ops_view(v: Seq<AccountOp>) -> Seq<AccountOpV> {
    v.map_values(|o: AccountOp| o@)
}

/// The session table, keyed by connection.
pub struct Sessions {
    map: Vec<(ConnectionId, Session)>,
}

/// The sessions as a map from connection to session.
pub open spec fn table_of(entries: Seq<(u64, SessionV)>) -> Map<u64, SessionV> {
    Map::new(
        |c: u64| exists|i: int| 0 <= i < entries.len() && #[trigger] entries[i].0 == c,
        |c: u64| entries[choose|i: int| 0 <= i < entries.len() && #[trigger] entries[i].0 == c].1,
    )
}

/// No connection has two sessions.
pub open spec fn conns_unique(entries: Seq<(u64, SessionV)>) -> bool {
    forall|i: int, j: int|
        0 <= i < entries.len() && 0 <= j < entries.len() && i != j ==> #[trigger] entries[i].0 != #[trigger] entries[j].0
}

/// The verdict a session runs under: its cached caps, and superuser unless quelled.
pub open spec fn verdict_spec(m: Map<u64, SessionV>, id: u64) -> (Set<crate::caps::CapId>, bool) {
    if m.dom().contains(id) {
        (m[id].caps, m[id].su && !m[id].quelled)
    } else {
        (Set::empty(), false)
    }
}

/// Whether the connection acts with superuser in force.
pub open spec fn is_operator_spec(m: Map<u64, SessionV>, id: u64) -> bool {
    verdict_spec(m, id).1
}

impl Sessions {
    closed spec fn entries(&self) -> Seq<(u64, SessionV)> {
        self.map@.map_values(|e: (ConnectionId, Session)| (e.0.0, e.1@))
    }

    /// The sessions by connection.
    pub closed spec fn table(&self) -> Map<u64, SessionV> {
        table_of(self.entries())
    }

    #[verifier::type_invariant]
    spec fn inv(self) -> bool {
        conns_unique(self.entries())
    }

    pub fn new() -> (r: Self)
        ensures
            r.table() == Map::<u64, SessionV>::empty(),
    {
        let r = Sessions { map: Vec::new() };
        assert(r.table() =~= Map::<u64, SessionV>::empty());
        r
    }

    fn find(&self, id: ConnectionId) -> (r: Option<usize>)
        ensures
            match r {
                Some(i) => i < self.entries().len() && self.entries()[i as int].0 == id.0 && self.table().dom().contains(id.0)
                    && self.table()[id.0] == self.entries()[i as int].1,
                None => !self.table().dom().contains(id.0),
            },
    {
        proof {
            use_type_invariant(self);
        }
        let ghost es = self.entries();
        let mut i: usize = 0;
        while i < self.map.len()
            invariant
                es == self.entries(),
                conns_unique(es),
                i <= es.len(),
                forall|j: int| 0 <= j < i ==> es[j].0 != id.0,
            decreases self.map.len() - i,
        {
            assert(es[i as int].0 == self.map@[i as int].0.0);
            if self.map[i].0.0 == id.0 {
                proof {
                    let k = choose|k: int| 0 <= k < es.len() && #[trigger] es[k].0 == id.0;
                    assert(k == i);
                }
                return Some(i);
            }
            i = i + 1;
        }
        None
    }

    /// Replace the session at position `i` (the session of `id`) with `s`.
    fn put_at(&mut self, i: usize, id: ConnectionId, s: Session)
        requires
            i < old(self).entries().len(),
            old(self).entries()[i as int].0 == id.0,
        ensures
            final(self).table() == old(self).table().insert(id.0, s@),
    {
        proof {
            use_type_invariant(&*self);
        }
        let ghost es = self.entries();
        let mut map: Vec<(ConnectionId, Session)> = Vec::new();
        std::mem::swap(&mut map, &mut self.map);
        map.set(i, (id, s));
        let ghost ns = map@.map_values(|e: (ConnectionId, Session)| (e.0.0, e.1@));
        proof {
            assert(ns =~= es.update(i as int, (id.0, s@)));
            assert forall|a: int, b: int| 0 <= a < ns.len() && 0 <= b < ns.len() && a != b implies #[trigger] ns[a].0
                != #[trigger] ns[b].0 by {
                assert(es[a].0 != es[b].0);
            }
        }
        self.map = map;
        proof {
            let t0 = table_of(es);
            let t1 = table_of(ns);
            assert forall|c: u64| #[trigger] t1.dom().contains(c) == t0.insert(id.0, s@).dom().contains(c) by {
                if t0.dom().contains(c) {
                    let k = choose|k: int| 0 <= k < es.len() && #[trigger] es[k].0 == c;
                    assert(ns[k].0 == c);
                }
                if t1.dom().contains(c) {
                    let k = choose|k: int| 0 <= k < ns.len() && #[trigger] ns[k].0 == c;
                    assert(es[k].0 == c);
                }
                if c == id.0 {
                    assert(ns[i as int].0 == c);
                }
            }
            assert forall|c: u64| #[trigger] t1.dom().contains(c) implies t1[c] == t0.insert(id.0, s@)[c] by {
                let k = choose|k: int| 0 <= k < ns.len() && #[trigger] ns[k].0 == c;
                if c == id.0 {
                    assert(k == i);
                } else {
                    assert(es[k].0 == c);
                    let k0 = choose|k0: int| 0 <= k0 < es.len() && #[trigger] es[k0].0 == c;
                    assert(k0 == k);
                }
            }
            assert(t1 =~= t0.insert(id.0, s@));
        }
    }

    /// Allocate a session for a freshly connected client and greet it. A
    /// loopback peer gates the operator stub, so it is recorded now.
    pub fn connect(&mut self, id: ConnectionId, loopback: bool, out: &mut Vec<Outgoing>)
        ensures
            final(self).table() == old(self).table().insert(id.0, fresh_session(loopback)),
            outs_view(final(out)@) == outs_view(old(out)@).push(
                OutgoingV::Event(id.0, EventKind::System, "Welcome to MUSCE. @play to enter the world, @help for commands."@),
            ),
    {
        let fresh = Session {
            character: None,
            account: None,
            caps: CapSet::new(),
            su: false,
            quelled: false,
            loopback,
            pending_auth: false,
        };
        match self.find(id) {
            Some(i) => self.put_at(i, id, fresh),
            None => {
                proof {
                    use_type_invariant(&*self);
                }
                let ghost es = self.entries();
                let mut map: Vec<(ConnectionId, Session)> = Vec::new();
                std::mem::swap(&mut map, &mut self.map);
                let ghost fv = fresh@;
                map.push((id, fresh));
                let ghost ns = map@.map_values(|e: (ConnectionId, Session)| (e.0.0, e.1@));
                proof {
                    assert(ns =~= es.push((id.0, fv)));
                    assert forall|a: int, b: int| 0 <= a < ns.len() && 0 <= b < ns.len() && a != b implies #[trigger] ns[a].0
                        != #[trigger] ns[b].0 by {
                        if a < es.len() && b < es.len() {
                            assert(es[a].0 != es[b].0);
                        } else if a < es.len() {
                            assert(table_of(es).dom().contains(es[a].0));
                        } else {
                            assert(table_of(es).dom().contains(es[b].0));
                        }
                    }
                }
                self.map = map;
                proof {
                    let t0 = table_of(es);
                    let t1 = table_of(ns);
                    assert forall|c: u64| #[trigger] t1.dom().contains(c) == t0.insert(id.0, fv).dom().contains(c) by {
                        if t0.dom().contains(c) {
                            let k = choose|k: int| 0 <= k < es.len() && #[trigger] es[k].0 == c;
                            assert(ns[k].0 == c);
                        }
                        if t1.dom().contains(c) && c != id.0 {
                            let k = choose|k: int| 0 <= k < ns.len() && #[trigger] ns[k].0 == c;
                            assert(k < es.len());
                            assert(es[k].0 == c);
                        }
                        if c == id.0 {
                            assert(ns[es.len() as int].0 == c);
                        }
                    }
                    assert forall|c: u64| #[trigger] t1.dom().contains(c) implies t1[c] == t0.insert(id.0, fv)[c] by {
                        let k = choose|k: int| 0 <= k < ns.len() && #[trigger] ns[k].0 == c;
                        if c == id.0 {
                            assert(k == es.len());
                        } else {
                            assert(k < es.len());
                            assert(es[k].0 == c);
                            let k0 = choose|k0: int| 0 <= k0 < es.len() && #[trigger] es[k0].0 == c;
                            assert(k0 == k);
                        }
                    }
                    assert(t1 =~= t0.insert(id.0, fv));
                }
            },
        }
        let ghost before = outs_view(out@);
        out.push(
            Outgoing::Event(
                Delivery {
                    to: id,
                    kind: EventKind::System,
                    text: "Welcome to MUSCE. @play to enter the world, @help for commands.".to_owned(),
                },
            ),
        );
        assert(outs_view(out@) =~= before.push(
            OutgoingV::Event(id.0, EventKind::System, "Welcome to MUSCE. @play to enter the world, @help for commands."@),
        ));
    }

    /// Tear a session down.
    pub fn disconnect(&mut self, id: ConnectionId)
        ensures
            final(self).table() == old(self).table().remove(id.0),
    {
        proof {
            use_type_invariant(&*self);
        }
        match self.find(id) {
            Some(i) => {
                let ghost es = self.entries();
                let mut map: Vec<(ConnectionId, Session)> = Vec::new();
                std::mem::swap(&mut map, &mut self.map);
                map.remove(i);
                let ghost ns = map@.map_values(|e: (ConnectionId, Session)| (e.0.0, e.1@));
                proof {
                    assert(ns =~= es.remove(i as int));
                    assert forall|a: int, b: int| 0 <= a < ns.len() && 0 <= b < ns.len() && a != b implies #[trigger] ns[a].0
                        != #[trigger] ns[b].0 by {
                        let a2 = if a < i { a } else { a + 1 };
                        let b2 = if b < i { b } else { b + 1 };
                        assert(es[a2].0 != es[b2].0);
                    }
                }
                self.map = map;
                proof {
                    let t0 = table_of(es);
                    let t1 = table_of(ns);
                    assert forall|c: u64| #[trigger] t1.dom().contains(c) == t0.remove(id.0).dom().contains(c) by {
                        if t1.dom().contains(c) {
                            let k = choose|k: int| 0 <= k < ns.len() && #[trigger] ns[k].0 == c;
                            let k2 = if k < i { k } else { k + 1 };
                            assert(es[k2].0 == c);
                            assert(k2 != i);
                        }
                        if t0.dom().contains(c) && c != id.0 {
                            let k = choose|k: int| 0 <= k < es.len() && #[trigger] es[k].0 == c;
                            assert(k != i);
                            let k2 = if k < i { k } else { k - 1 };
                            assert(ns[k2].0 == c);
                        }
                    }
                    assert forall|c: u64| #[trigger] t1.dom().contains(c) implies t1[c] == t0.remove(id.0)[c] by {
                        let k = choose|k: int| 0 <= k < ns.len() && #[trigger] ns[k].0 == c;
                        let k2 = if k < i { k } else { k + 1 };
                        assert(es[k2].0 == c);
                        let k0 = choose|k0: int| 0 <= k0 < es.len() && #[trigger] es[k0].0 == c;
                        assert(k0 == k2);
                    }
                    assert(t1 =~= t0.remove(id.0));
                }
            },
            None => {
                assert(self.table() =~= old(self).table().remove(id.0));
            },
        }
    }

    /// Whether this connection has a live session.
    pub fn is_live(&self, id: ConnectionId) -> (r: bool)
        ensures
            r == self.table().dom().contains(id.0),
    {
        self.find(id).is_some()
    }

    /// How many sessions are live.
    pub fn online_count(&self) -> (r: usize)
        ensures
            r == self.table().dom().len(),
    {
        proof {
            use_type_invariant(self);
            let es = self.entries();
            let keys = es.map_values(|e: (u64, SessionV)| e.0);
            assert(keys.no_duplicates()) by {
                assert forall|a: int, b: int| 0 <= a < keys.len() && 0 <= b < keys.len() && a != b implies keys[a]
                    != keys[b] by {
                    assert(es[a].0 != es[b].0);
                }
            }
            keys.unique_seq_to_set();
            assert forall|c: u64| #[trigger] keys.to_set().contains(c) == self.table().dom().contains(c) by {
                if keys.to_set().contains(c) {
                    let k = choose|k: int| 0 <= k < keys.len() && keys[k] == c;
                    assert(es[k].0 == c);
                }
                if self.table().dom().contains(c) {
                    let k = choose|k: int| 0 <= k < es.len() && #[trigger] es[k].0 == c;
                    assert(keys[k] == c);
                }
            }
            assert(keys.to_set() =~= self.table().dom());
        }
        self.map.len()
    }

    /// The character a connection drives, if it has attached.
    pub fn character_of(&self, id: ConnectionId) -> (r: Option<EntityId>)
        ensures
            r == if self.table().dom().contains(id.0) {
                self.table()[id.0].character
            } else {
                None
            },
    {
        match self.find(id) {
            Some(i) => self.map[i].1.character,
            None => None,
        }
    }

    /// Whether an authentication is in flight for this connection.
    pub fn is_pending(&self, id: ConnectionId) -> (r: bool)
        ensures
            r == (self.table().dom().contains(id.0) && self.table()[id.0].pending_auth),
    {
        match self.find(id) {
            Some(i) => self.map[i].1.pending_auth,
            None => false,
        }
    }

    /// The verdict this connection runs under: its cached caps, with superuser
    /// unless quelled; a connection with no session is a guest.
    pub fn verdict_of(&self, id: ConnectionId) -> (r: Verdict)
        ensures
            (r.caps_view(), r.su()) == verdict_spec(self.table(), id.0),
    {
        match self.find(id) {
            Some(i) => {
                let s = &self.map[i].1;
                Verdict::new(s.caps.copy(), s.su && !s.quelled)
            },
            None => Verdict::guest(),
        }
    }

    /// Change the session of `id`, if there is one, by `f`'s model.
    fn session_copy(&self, i: usize) -> (r: Session)
        requires
            i < self.entries().len(),
        ensures
            r@ == self.entries()[i as int].1,
    {
        self.map[i].1.copy()
    }

    /// Clear the pending-auth flag, whatever the authentication outcome.
    pub fn clear_pending(&mut self, id: ConnectionId)
        ensures
            final(self).table() == if old(self).table().dom().contains(id.0) {
                old(self).table().insert(id.0, SessionV { pending_auth: false, ..old(self).table()[id.0] })
            } else {
                old(self).table()
            },
    {
        if let Some(i) = self.find(id) {
            let mut s = self.session_copy(i);
            s.pending_auth = false;
            self.put_at(i, id, s);
        }
    }

    fn set_pending(&mut self, id: ConnectionId)
        ensures
            final(self).table() == if old(self).table().dom().contains(id.0) {
                old(self).table().insert(id.0, SessionV { pending_auth: true, ..old(self).table()[id.0] })
            } else {
                old(self).table()
            },
    {
        if let Some(i) = self.find(id) {
            let mut s = self.session_copy(i);
            s.pending_auth = true;
            self.put_at(i, id, s);
        }
    }

    /// Bind a connection to an authenticated account, caching its authorization
    /// and clearing the pending flag.
    pub fn bind(&mut self, id: ConnectionId, authz: Authorization)
        ensures
            final(self).table() == if old(self).table().dom().contains(id.0) {
                old(self).table().insert(
                    id.0,
                    SessionV {
                        account: Some(authz.account),
                        caps: authz.caps@,
                        su: authz.su,
                        pending_auth: false,
                        ..old(self).table()[id.0]
                    },
                )
            } else {
                old(self).table()
            },
    {
        if let Some(i) = self.find(id) {
            let mut s = self.session_copy(i);
            s.account = Some(authz.account);
            s.caps = authz.caps;
            s.su = authz.su;
            s.pending_auth = false;
            self.put_at(i, id, s);
        }
    }

    /// Refresh the cached authorization of every session bound to
    /// `authz.account`, so an online account sees a grant or revoke at once.
    pub fn refresh(&mut self, authz: Authorization)
        ensures
            final(self).table().dom() == old(self).table().dom(),
            forall|c: u64| #[trigger] old(self).table().dom().contains(c) ==> final(self).table()[c] == if old(self).table()[c].account
                == Some(authz.account) {
                SessionV { caps: authz.caps@, su: authz.su, ..old(self).table()[c] }
            } else {
                old(self).table()[c]
            },
    {
        proof {
            use_type_invariant(&*self);
        }
        let ghost t0 = self.table();
        let ghost es0 = self.entries();
        let mut i: usize = 0;
        while i < self.map.len()
            invariant
                self.entries().len() == es0.len(),
                conns_unique(es0),
                i <= es0.len(),
                forall|j: int| 0 <= j < es0.len() ==> #[trigger] self.entries()[j].0 == es0[j].0,
                forall|j: int| 0 <= j < i ==> #[trigger] self.entries()[j].1 == if es0[j].1.account == Some(authz.account) {
                    SessionV { caps: authz.caps@, su: authz.su, ..es0[j].1 }
                } else {
                    es0[j].1
                },
                forall|j: int| i <= j < es0.len() ==> #[trigger] self.entries()[j].1 == es0[j].1,
            decreases self.map.len() - i,
        {
            proof {
                use_type_invariant(&*self);
            }
            let ghost before = self.entries();
            if self.map[i].1.account == Some(authz.account) {
                let id = self.map[i].0;
                assert(before[i as int].0 == id.0);
                let mut s = self.session_copy(i);
                s.caps = authz.caps.copy();
                s.su = authz.su;
                let ghost sv = s@;
                let mut map: Vec<(ConnectionId, Session)> = Vec::new();
                std::mem::swap(&mut map, &mut self.map);
                map.set(i, (id, s));
                proof {
                    let ns = map@.map_values(|e: (ConnectionId, Session)| (e.0.0, e.1@));
                    assert(ns =~= before.update(i as int, (id.0, sv)));
                    assert forall|a: int, b: int| 0 <= a < ns.len() && 0 <= b < ns.len() && a != b implies #[trigger] ns[a].0
                        != #[trigger] ns[b].0 by {
                        assert(ns[a].0 == before[a].0);
                        assert(ns[b].0 == before[b].0);
                        assert(before[a].0 == es0[a].0);
                        assert(before[b].0 == es0[b].0);
                        assert(es0[a].0 != es0[b].0);
                    }
                }
                self.map = map;
                assert(self.entries() =~= before.update(i as int, (id.0, sv)));
            }
            i = i + 1;
        }
        proof {
            let es = self.entries();
            let t1 = self.table();
            assert forall|c: u64| #[trigger] t1.dom().contains(c) == t0.dom().contains(c) by {
                if t1.dom().contains(c) {
                    let k = choose|k: int| 0 <= k < es.len() && #[trigger] es[k].0 == c;
                    assert(es0[k].0 == c);
                }
                if t0.dom().contains(c) {
                    let k = choose|k: int| 0 <= k < es0.len() && #[trigger] es0[k].0 == c;
                    assert(es[k].0 == c);
                }
            }
            assert(t1.dom() =~= t0.dom());
            assert forall|c: u64| #[trigger] t0.dom().contains(c) implies t1[c] == if t0[c].account == Some(authz.account) {
                SessionV { caps: authz.caps@, su: authz.su, ..t0[c] }
            } else {
                t0[c]
            } by {
                let k = choose|k: int| 0 <= k < es.len() && #[trigger] es[k].0 == c;
                let k0 = choose|k0: int| 0 <= k0 < es0.len() && #[trigger] es0[k0].0 == c;
                assert(es0[k].0 == c);
                assert(k0 == k) by {
                    if k0 != k {
                        assert(es0[k0].0 != es0[k].0);
                    }
                }
            }
        }
    }

    /// Attach a connection to the character its bare commands drive, and tell it
    /// who it now is; with no character to play, say so.
    pub fn play(&mut self, id: ConnectionId, actor: Option<EntityId>, name: Option<String>, out: &mut Vec<Outgoing>)
        ensures
            match actor {
                Some(a) => final(self).table() == (if old(self).table().dom().contains(id.0) {
                    old(self).table().insert(id.0, SessionV { character: Some(a), ..old(self).table()[id.0] })
                } else {
                    old(self).table()
                }) && outs_view(final(out)@) == outs_view(old(out)@).push(
                    feedback(
                        id.0,
                        "You are now "@ + match name {
                            Some(n) => n@,
                            None => "someone"@,
                        } + "."@,
                    ),
                ),
                None => final(self).table() == old(self).table() && outs_view(final(out)@) == outs_view(old(out)@).push(
                    feedback(id.0, "There is no character to play yet."@),
                ),
            },
    {
        let ghost before = outs_view(out@);
        match actor {
            Some(a) => {
                if let Some(i) = self.find(id) {
                    let mut s = self.session_copy(i);
                    s.character = Some(a);
                    self.put_at(i, id, s);
                }
                let mut text = String::from_str("You are now ");
                match &name {
                    Some(n) => text.append(n.as_str()),
                    None => text.append("someone"),
                }
                text.append(".");
                proof {
                    reveal_strlit("You are now ");
                    reveal_strlit(".");
                    reveal_strlit("someone");
                }
                out.push(Outgoing::Event(Delivery { to: id, kind: EventKind::Feedback, text }));
            },
            None => {
                out.push(feedback_to(id, "There is no character to play yet."));
            },
        }
        proof {
            assert(outs_view(out@).drop_last() =~= before);
        }
    }
}


/// What the floor did with an `@`-command.
#[derive(Clone, Copy, Debug, PartialEq, Eq, Structural)]
pub enum Floor {
    /// Not a floor verb: the caller routes it onward.
    Unhandled,
    /// The floor acted on it.
    Handled,
    /// `@play`: the caller picks the character by game policy and hands it to
    /// [`Sessions::play`].
    Play,
}

/// The floor's help line.
pub open spec fn help_text() -> Seq<char> {
    "Commands: @play, @operator, @login, @password, @account, @grant, @revoke, @quell, @quit, @who, @help."@
}

/// The table with `id`'s authentication marked in flight.
pub open spec fn with_pending(t: Map<u64, SessionV>, id: u64) -> Map<u64, SessionV> {
    if t.dom().contains(id) {
        t.insert(id, SessionV { pending_auth: true, ..t[id] })
    } else {
        t
    }
}

/// One step of the floor: what an `@`-command with words `w` from `id` does to
/// the session table, what the connection is told, and which account
/// operations are raised.
pub open spec fn floor_step(t: Map<u64, SessionV>, id: u64, w: Seq<Seq<char>>) -> (Floor, Map<u64, SessionV>, Seq<OutgoingV>, Seq<AccountOpV>) {
    let v = word_or_empty(w, 0);
    if v == "quit"@ {
        (Floor::Handled, t, seq![feedback(id, "Goodbye."@), OutgoingV::Close(id)], Seq::empty())
    } else if v == "who"@ {
        (Floor::Handled, t, seq![feedback(id, decimal(t.dom().len()) + " connection(s) online."@)], Seq::empty())
    } else if v == "help"@ {
        (Floor::Handled, t, seq![feedback(id, help_text())], Seq::empty())
    } else if v == "play"@ {
        (Floor::Play, t, Seq::empty(), Seq::empty())
    } else if v == "operator"@ {
        if t.dom().contains(id) && t[id].loopback {
            (Floor::Handled, with_pending(t, id), Seq::empty(), seq![AccountOpV::Authenticate(id, "operator"@, None)])
        } else {
            (Floor::Handled, t, seq![feedback(id, "Operator elevation is only available locally."@)], Seq::empty())
        }
    } else if v == "login"@ {
        if word_or_empty(w, 1).len() == 0 || word_at(w, 2) is None {
            (Floor::Handled, t, seq![feedback(id, "Log in: @login <username> <password>."@)], Seq::empty())
        } else {
            (
                Floor::Handled,
                with_pending(t, id),
                Seq::empty(),
                seq![AccountOpV::Authenticate(id, word_or_empty(w, 1), word_at(w, 2))],
            )
        }
    } else if v == "password"@ || v == "pw"@ {
        if word_at(w, 1) is None || word_at(w, 2) is None {
            (Floor::Handled, t, seq![feedback(id, "Change your password: @password <old> <new>."@)], Seq::empty())
        } else if !(t.dom().contains(id) && t[id].account is Some) {
            (Floor::Handled, t, seq![feedback(id, "Log in before changing your password."@)], Seq::empty())
        } else {
            (
                Floor::Handled,
                t,
                Seq::empty(),
                seq![AccountOpV::SetPassword(id, t[id].account->0, word_or_empty(w, 1), word_or_empty(w, 2))],
            )
        }
    } else if v == "account"@ {
        if !is_operator_spec(t, id) {
            (Floor::Handled, t, seq![feedback(id, "Only the operator may administer accounts."@)], Seq::empty())
        } else if word_or_empty(w, 1) != "new"@ || word_or_empty(w, 2).len() == 0 || word_at(w, 3) is None {
            (Floor::Handled, t, seq![feedback(id, "Usage: @account new <username> <password>."@)], Seq::empty())
        } else {
            (
                Floor::Handled,
                t,
                Seq::empty(),
                seq![AccountOpV::Create(id, word_or_empty(w, 2), word_or_empty(w, 3))],
            )
        }
    } else if v == "grant"@ || v == "revoke"@ {
        let add = v == "grant"@;
        if !is_operator_spec(t, id) {
            (
                Floor::Handled,
                t,
                seq![feedback(id, "Only the operator may "@ + v + " capabilities."@)],
                Seq::empty(),
            )
        } else if word_or_empty(w, 1).len() == 0 || word_or_empty(w, 2).len() == 0 {
            (
                Floor::Handled,
                t,
                seq![feedback(id, "Usage: @"@ + v + " <username> <capability>."@)],
                Seq::empty(),
            )
        } else {
            (
                Floor::Handled,
                t,
                Seq::empty(),
                seq![AccountOpV::Grant(id, word_or_empty(w, 1), word_or_empty(w, 2), add)],
            )
        }
    } else if v == "quell"@ {
        if t.dom().contains(id) {
            let q = !t[id].quelled;
            (
                Floor::Handled,
                t.insert(id, SessionV { quelled: q, ..t[id] }),
                seq![
                    feedback(
                        id,
                        if q {
                            "Superuser suppressed for this connection. @quell again to restore."@
                        } else {
                            "Superuser restored for this connection."@
                        },
                    ),
                ],
                Seq::empty(),
            )
        } else {
            (Floor::Handled, t, Seq::empty(), Seq::empty())
        }
    } else {
        (Floor::Unhandled, t, Seq::empty(), Seq::empty())
    }
}

fn word_ref(w: &Vec<String>, k: usize) -> (r: Option<&str>)
    ensures
        match r {
            Some(x) => word_at(w@.map_values(|s: String| s@), k as int) == Some(x@),
            None => word_at(w@.map_values(|s: String| s@), k as int) is None,
        },
{
    if k < w.len() {
        Some(w[k].as_str())
    } else {
        None
    }
}

fn word_or_blank(w: &Vec<String>, k: usize) -> (r: &str)
    ensures
        r@ == word_or_empty(w@.map_values(|s: String| s@), k as int),
{
    proof {
        reveal_strlit("");
    }
    if k < w.len() {
        w[k].as_str()
    } else {
        ""
    }
}

impl Sessions {
    fn is_operator(&self, id: ConnectionId) -> (r: bool)
        ensures
            r == is_operator_spec(self.table(), id.0),
    {
        let v = self.verdict_of(id);
        v.is_su()
    }

    fn begin_auth(&mut self, id: ConnectionId, username: &str, password: Option<&str>, ops: &mut Vec<AccountOp>)
        ensures
            final(self).table() == with_pending(old(self).table(), id.0),
            ops_view(final(ops)@) == ops_view(old(ops)@).push(
                AccountOpV::Authenticate(
                    id.0,
                    username@,
                    match password {
                        Some(p) => Some(p@),
                        None => None,
                    },
                ),
            ),
    {
        self.set_pending(id);
        let ghost before = ops_view(ops@);
        let password = match password {
            Some(p) => Some(p.to_owned()),
            None => None,
        };
        ops.push(AccountOp::Authenticate { conn: id, username: username.to_owned(), password });
        assert(ops_view(ops@) =~= before.push(ops@.last()@));
    }

    /// Handle one `@`-command (the `@` already stripped): act on a floor verb,
    /// telling the connection through `out` and raising account operations in
    /// `ops`, or report it unhandled for the caller to route onward.
    pub fn account_command(&mut self, id: ConnectionId, rest: &str, ops: &mut Vec<AccountOp>, out: &mut Vec<Outgoing>) -> (r: Floor)
        ensures
            ({
                let step = floor_step(old(self).table(), id.0, words(rest@));
                &&& r == step.0
                &&& final(self).table() == step.1
                &&& outs_view(final(out)@) == outs_view(old(out)@) + step.2
                &&& ops_view(final(ops)@) == ops_view(old(ops)@) + step.3
            }),
    {
        let w = split_words(rest);
        let ghost wv = w@.map_values(|s: String| s@);
        let ghost o0 = outs_view(out@);
        let ghost p0 = ops_view(ops@);
        let verb = word_or_blank(&w, 0);
        proof {
            reveal_strlit("quit");
            reveal_strlit("who");
            reveal_strlit("help");
            reveal_strlit("play");
            reveal_strlit("operator");
            reveal_strlit("login");
            reveal_strlit("password");
            reveal_strlit("pw");
            reveal_strlit("account");
            reveal_strlit("grant");
            reveal_strlit("revoke");
            reveal_strlit("quell");
            reveal_strlit("new");
        }
        if str_eq(verb, "quit") {
            out.push(feedback_to(id, "Goodbye."));
            out.push(Outgoing::Close(id));
            assert(outs_view(out@) =~= o0 + seq![feedback(id.0, "Goodbye."@), OutgoingV::Close(id.0)]);
            assert(ops_view(ops@) =~= p0 + Seq::<AccountOpV>::empty());
            return Floor::Handled;
        }
        if str_eq(verb, "who") {
            let mut text = String::new();
            push_decimal(&mut text, self.online_count() as u64);
            text.append(" connection(s) online.");
            proof {
                reveal_strlit(" connection(s) online.");
                assert(text@ =~= decimal(self.table().dom().len()) + " connection(s) online."@);
            }
            out.push(Outgoing::Event(Delivery { to: id, kind: EventKind::Feedback, text }));
            assert(outs_view(out@) =~= o0 + seq![feedback(id.0, decimal(self.table().dom().len()) + " connection(s) online."@)]);
            assert(ops_view(ops@) =~= p0 + Seq::<AccountOpV>::empty());
            return Floor::Handled;
        }
        if str_eq(verb, "help") {
            out.push(
                feedback_to(
                    id,
                    "Commands: @play, @operator, @login, @password, @account, @grant, @revoke, @quell, @quit, @who, @help.",
                ),
            );
            assert(outs_view(out@) =~= o0 + seq![feedback(id.0, help_text())]);
            assert(ops_view(ops@) =~= p0 + Seq::<AccountOpV>::empty());
            return Floor::Handled;
        }
        if str_eq(verb, "play") {
            assert(outs_view(out@) =~= o0 + Seq::<OutgoingV>::empty());
            assert(ops_view(ops@) =~= p0 + Seq::<AccountOpV>::empty());
            return Floor::Play;
        }
        if str_eq(verb, "operator") {
            let local = match self.find(id) {
                Some(i) => self.map[i].1.loopback,
                None => false,
            };
            if !local {
                out.push(feedback_to(id, "Operator elevation is only available locally."));
                assert(outs_view(out@) =~= o0 + seq![feedback(id.0, "Operator elevation is only available locally."@)]);
                assert(ops_view(ops@) =~= p0 + Seq::<AccountOpV>::empty());
            } else {
                self.begin_auth(id, OPERATOR_USERNAME, None, ops);
                proof {
                    reveal_strlit("operator");
                }
                assert(outs_view(out@) =~= o0 + Seq::<OutgoingV>::empty());
                assert(ops_view(ops@) =~= p0 + seq![AccountOpV::Authenticate(id.0, "operator"@, None)]);
            }
            return Floor::Handled;
        }
        if str_eq(verb, "login") {
            let username = word_or_blank(&w, 1);
            let password = word_ref(&w, 2);
            if username.unicode_len() == 0 || password.is_none() {
                out.push(feedback_to(id, "Log in: @login <username> <password>."));
                assert(outs_view(out@) =~= o0 + seq![feedback(id.0, "Log in: @login <username> <password>."@)]);
                assert(ops_view(ops@) =~= p0 + Seq::<AccountOpV>::empty());
            } else {
                self.begin_auth(id, username, password, ops);
                assert(outs_view(out@) =~= o0 + Seq::<OutgoingV>::empty());
                assert(ops_view(ops@) =~= p0 + seq![AccountOpV::Authenticate(id.0, word_or_empty(wv, 1), word_at(wv, 2))]);
            }
            return Floor::Handled;
        }
        if str_eq(verb, "password") || str_eq(verb, "pw") {
            let old_pw = word_ref(&w, 1);
            let new_pw = word_ref(&w, 2);
            match (old_pw, new_pw) {
                (Some(o), Some(n)) => {
                    let account = match self.find(id) {
                        Some(i) => self.map[i].1.account,
                        None => None,
                    };
                    match account {
                        Some(a) => {
                            ops.push(AccountOp::SetPassword { conn: id, account: a, old: o.to_owned(), new: n.to_owned() });
                            assert(outs_view(out@) =~= o0 + Seq::<OutgoingV>::empty());
                            assert(ops_view(ops@) =~= p0 + seq![
                                AccountOpV::SetPassword(id.0, a, word_or_empty(wv, 1), word_or_empty(wv, 2)),
                            ]);
                        },
                        None => {
                            out.push(feedback_to(id, "Log in before changing your password."));
                            assert(outs_view(out@) =~= o0 + seq![feedback(id.0, "Log in before changing your password."@)]);
                            assert(ops_view(ops@) =~= p0 + Seq::<AccountOpV>::empty());
                        },
                    }
                },
                _ => {
                    out.push(feedback_to(id, "Change your password: @password <old> <new>."));
                    assert(outs_view(out@) =~= o0 + seq![feedback(id.0, "Change your password: @password <old> <new>."@)]);
                    assert(ops_view(ops@) =~= p0 + Seq::<AccountOpV>::empty());
                },
            }
            return Floor::Handled;
        }
        if str_eq(verb, "account") {
            if !self.is_operator(id) {
                out.push(feedback_to(id, "Only the operator may administer accounts."));
                assert(outs_view(out@) =~= o0 + seq![feedback(id.0, "Only the operator may administer accounts."@)]);
                assert(ops_view(ops@) =~= p0 + Seq::<AccountOpV>::empty());
                return Floor::Handled;
            }
            let sub = word_or_blank(&w, 1);
            let username = word_or_blank(&w, 2);
            let password = word_ref(&w, 3);
            match password {
                Some(p) => {
                    if str_eq(sub, "new") && username.unicode_len() > 0 {
                        ops.push(AccountOp::Create { conn: id, username: username.to_owned(), password: p.to_owned() });
                        assert(outs_view(out@) =~= o0 + Seq::<OutgoingV>::empty());
                        assert(ops_view(ops@) =~= p0 + seq![
                            AccountOpV::Create(id.0, word_or_empty(wv, 2), word_or_empty(wv, 3)),
                        ]);
                        return Floor::Handled;
                    }
                },
                None => {},
            }
            out.push(feedback_to(id, "Usage: @account new <username> <password>."));
            assert(outs_view(out@) =~= o0 + seq![feedback(id.0, "Usage: @account new <username> <password>."@)]);
            assert(ops_view(ops@) =~= p0 + Seq::<AccountOpV>::empty());
            return Floor::Handled;
        }
        if str_eq(verb, "grant") || str_eq(verb, "revoke") {
            let add = str_eq(verb, "grant");
            if !self.is_operator(id) {
                let mut text = String::from_str("Only the operator may ");
                text.append(verb);
                text.append(" capabilities.");
                proof {
                    reveal_strlit("Only the operator may ");
                    reveal_strlit(" capabilities.");
                }
                out.push(Outgoing::Event(Delivery { to: id, kind: EventKind::Feedback, text }));
                assert(outs_view(out@) =~= o0 + seq![feedback(id.0, "Only the operator may "@ + verb@ + " capabilities."@)]);
                assert(ops_view(ops@) =~= p0 + Seq::<AccountOpV>::empty());
                return Floor::Handled;
            }
            let username = word_or_blank(&w, 1);
            let cap = word_or_blank(&w, 2);
            if username.unicode_len() == 0 || cap.unicode_len() == 0 {
                let mut text = String::from_str("Usage: @");
                text.append(verb);
                text.append(" <username> <capability>.");
                proof {
                    reveal_strlit("Usage: @");
                    reveal_strlit(" <username> <capability>.");
                }
                out.push(Outgoing::Event(Delivery { to: id, kind: EventKind::Feedback, text }));
                assert(outs_view(out@) =~= o0 + seq![feedback(id.0, "Usage: @"@ + verb@ + " <username> <capability>."@)]);
                assert(ops_view(ops@) =~= p0 + Seq::<AccountOpV>::empty());
                return Floor::Handled;
            }
            ops.push(AccountOp::Grant { conn: id, target: username.to_owned(), cap: cap.to_owned(), add });
            assert(outs_view(out@) =~= o0 + Seq::<OutgoingV>::empty());
            assert(ops_view(ops@) =~= p0 + seq![AccountOpV::Grant(id.0, word_or_empty(wv, 1), word_or_empty(wv, 2), add)]);
            return Floor::Handled;
        }
        if str_eq(verb, "quell") {
            match self.find(id) {
                Some(i) => {
                    let mut s = self.session_copy(i);
                    s.quelled = !s.quelled;
                    let quelled = s.quelled;
                    self.put_at(i, id, s);
                    if quelled {
                        out.push(feedback_to(id, "Superuser suppressed for this connection. @quell again to restore."));
                    } else {
                        out.push(feedback_to(id, "Superuser restored for this connection."));
                    }
                    assert(outs_view(out@) =~= o0 + seq![out@.last()@]);
                },
                None => {
                    assert(outs_view(out@) =~= o0 + Seq::<OutgoingV>::empty());
                },
            }
            assert(ops_view(ops@) =~= p0 + Seq::<AccountOpV>::empty());
            return Floor::Handled;
        }
        assert(outs_view(out@) =~= o0 + Seq::<OutgoingV>::empty());
        assert(ops_view(ops@) =~= p0 + Seq::<AccountOpV>::empty());
        Floor::Unhandled
    }
}

/// What an account operation produced: a line for the originating connection,
/// and optionally an authorization to bind that connection to or to refresh
/// wherever its account is online.
pub struct AccountOutcome {
    pub conn: ConnectionId,
    pub line: String,
    pub authenticated: Option<Authorization>,
    pub refreshed: Option<Authorization>,
}

/// Where one input line goes after the floor has seen it.
#[derive(Debug, PartialEq, Eq)]
pub enum Route {
    /// Fully handled (or ignored) here.
    Done,
    /// `@play`: pick a character by game policy, then call [`Sessions::play`].
    Play,
    /// An `@`-verb the floor does not own: run it against the admin table.
    Admin(String),
    /// A bare command: run it against the game's table.
    Game(String),
}

/// The table after an authentication outcome has landed for `conn`.
pub open spec fn after_outcome(
    t: Map<u64, SessionV>,
    conn: u64,
    authenticated: Option<(AccountId, Set<crate::caps::CapId>, bool)>,
    refreshed: Option<(AccountId, Set<crate::caps::CapId>, bool)>,
) -> Map<u64, SessionV> {
    let t1 = if t.dom().contains(conn) {
        t.insert(conn, SessionV { pending_auth: false, ..t[conn] })
    } else {
        t
    };
    let t2 = match authenticated {
        Some((a, caps, su)) => if t1.dom().contains(conn) {
            t1.insert(conn, SessionV { account: Some(a), caps, su, pending_auth: false, ..t1[conn] })
        } else {
            t1
        },
        None => t1,
    };
    match refreshed {
        Some((a, caps, su)) => Map::new(
            |c: u64| t2.dom().contains(c),
            |c: u64| if t2[c].account == Some(a) {
                SessionV { caps, su, ..t2[c] }
            } else {
                t2[c]
            },
        ),
        None => t2,
    }
}

/// Model of an authorization.
pub open spec fn authz_view(a: Option<Authorization>) -> Option<(AccountId, Set<crate::caps::CapId>, bool)> {
    match a {
        Some(x) => Some((x.account, x.caps@, x.su)),
        None => None,
    }
}

impl Sessions {
    /// Apply an account-task outcome: any outcome ends the pending state (a
    /// refused login must not wedge the connection), its line is fed back, and
    /// the connection is bound or the account's sessions refreshed as directed.
    pub fn apply_account_outcome(&mut self, outcome: AccountOutcome, out: &mut Vec<Outgoing>)
        ensures
            final(self).table() == after_outcome(
                old(self).table(),
                outcome.conn.0,
                authz_view(outcome.authenticated),
                authz_view(outcome.refreshed),
            ),
            outs_view(final(out)@) == outs_view(old(out)@).push(feedback(outcome.conn.0, outcome.line@)),
    {
        let ghost before = outs_view(out@);
        let ghost auth_v = authz_view(outcome.authenticated);
        let ghost refresh_v = authz_view(outcome.refreshed);
        let AccountOutcome { conn, line, authenticated, refreshed } = outcome;
        self.clear_pending(conn);
        let ghost lv = line@;
        out.push(Outgoing::Event(Delivery { to: conn, kind: EventKind::Feedback, text: line }));
        assert(outs_view(out@) =~= before.push(feedback(conn.0, lv)));
        if let Some(a) = authenticated {
            self.bind(conn, a);
        }
        let ghost t2 = self.table();
        if let Some(a) = refreshed {
            self.refresh(a);
            proof {
                let (acc, caps, su) = refresh_v->0;
                let m = Map::new(
                    |c: u64| t2.dom().contains(c),
                    |c: u64| if t2[c].account == Some(acc) {
                        SessionV { caps, su, ..t2[c] }
                    } else {
                        t2[c]
                    },
                );
                assert(self.table() =~= m);
            }
        }
    }

    /// Route one trimmed input line: a dead connection or an empty line is
    /// ignored; a connection waiting on authentication runs nothing else; an
    /// `@`-line goes to the floor, and on to the admin table if the floor does
    /// not own the verb; a bare line goes to the game.
    pub fn route_line(&mut self, id: ConnectionId, line: &str, ops: &mut Vec<AccountOp>, out: &mut Vec<Outgoing>) -> (r: Route)
        ensures
            !old(self).table().dom().contains(id.0) || line@.len() == 0 ==> r == Route::Done && final(self).table()
                == old(self).table() && final(out)@ == old(out)@ && final(ops)@ == old(ops)@,
            old(self).table().dom().contains(id.0) && line@.len() > 0 && old(self).table()[id.0].pending_auth ==> r
                == Route::Done && final(self).table() == old(self).table() && final(ops)@ == old(ops)@ && outs_view(
                final(out)@,
            ) == outs_view(old(out)@).push(feedback(id.0, "Still authenticating; one moment."@)),
            old(self).table().dom().contains(id.0) && line@.len() > 0 && !old(self).table()[id.0].pending_auth
                && line@[0] == '@' ==> ({
                let step = floor_step(old(self).table(), id.0, words(line@.drop_first()));
                &&& final(self).table() == step.1
                &&& outs_view(final(out)@) == outs_view(old(out)@) + step.2
                &&& ops_view(final(ops)@) == ops_view(old(ops)@) + step.3
                &&& step.0 == Floor::Handled ==> r == Route::Done
                &&& step.0 == Floor::Play ==> r == Route::Play
                &&& step.0 == Floor::Unhandled ==> (r matches Route::Admin(x) && x@ == line@.drop_first())
            }),
            old(self).table().dom().contains(id.0) && line@.len() > 0 && !old(self).table()[id.0].pending_auth
                && line@[0] != '@' ==> (r matches Route::Game(x) && x@ == line@) && final(self).table() == old(self).table()
                && final(out)@ == old(out)@ && final(ops)@ == old(ops)@,
    {
        let n = line.unicode_len();
        if !self.is_live(id) || n == 0 {
            return Route::Done;
        }
        if self.is_pending(id) {
            let ghost before = outs_view(out@);
            out.push(feedback_to(id, "Still authenticating; one moment."));
            assert(outs_view(out@) =~= before.push(feedback(id.0, "Still authenticating; one moment."@)));
            return Route::Done;
        }
        if line.get_char(0) == '@' {
            let rest = line.substring_char(1, n);
            assert(rest@ =~= line@.drop_first());
            match self.account_command(id, rest, ops, out) {
                Floor::Handled => Route::Done,
                Floor::Play => Route::Play,
                Floor::Unhandled => Route::Admin(rest.to_owned()),
            }
        } else {
            Route::Game(line.to_owned())
        }
    }

    /// The actor a connection's commands drive and the verdict they run under:
    /// its character's live cursor target (else the character), under the
    /// connection's own cached authorization, never the actor's. A connection
    /// with no character is told to `@play`.
    pub fn acting(&self, id: ConnectionId, focus: &RelationGraph, live: &[EntityId], out: &mut Vec<Outgoing>) -> (r: Option<(EntityId, Verdict)>)
        ensures
            match self.character_of_spec(id.0) {
                None => r is None && outs_view(final(out)@) == outs_view(old(out)@).push(
                    feedback(id.0, "You have no character. Use @play to enter the world."@),
                ),
                Some(c) => final(out)@ == old(out)@ && (r matches Some((a, v)) && a.0 == match parent_of(focus@.links, c.0) {
                    Some(t) => if crate::relation::ids_view(live@).contains(t) {
                        t
                    } else {
                        c.0
                    },
                    None => c.0,
                } && (v.caps_view(), v.su()) == verdict_spec(self.table(), id.0)),
            },
    {
        match self.character_of(id) {
            None => {
                let ghost before = outs_view(out@);
                out.push(feedback_to(id, "You have no character. Use @play to enter the world."));
                assert(outs_view(out@) =~= before.push(feedback(id.0, "You have no character. Use @play to enter the world."@)));
                None
            },
            Some(character) => {
                let actor = resolve_actor(focus, live, character);
                Some((actor, self.verdict_of(id)))
            },
        }
    }

    /// The character a connection drives, in the model.
    pub open spec fn character_of_spec(&self, id: u64) -> Option<EntityId> {
        if self.table().dom().contains(id) {
            self.table()[id].character
        } else {
            None
        }
    }
}

} // verus!
