//! Audience resolution. Handlers address output semantically (to a connection,
//! to an entity, to everyone in a locus); turning an entity or a locus into the
//! connections that should see it needs the world's containment and which actor
//! each connection drives, so it happens here, and what leaves is bound to
//! connections.

use vstd::prelude::*;
use crate::id::EntityId;
use crate::relation::{opt_id, parent_of};
use crate::structure::Structure;

verus! {

/// A live client connection.
#[derive(Clone, Copy, Debug, PartialEq, Eq, Structural, Hash)]
pub struct ConnectionId(pub u64);

/// What kind of output a line is.
#[derive(Clone, Copy, Debug, PartialEq, Eq, Structural, Hash)]
pub enum EventKind {
    /// A reply to the connection's own command.
    Feedback,
    /// Something that happens in the world.
    Narration,
    /// A notice from the engine.
    System,
}

/// Who an event is for.
#[derive(Clone, Copy, Debug, PartialEq, Eq, Structural)]
pub enum Audience {
    /// One connection.
    Connection(ConnectionId),
    /// Every connection driving an entity.
    Entity(EntityId),
    /// Every connection whose actor stands directly in a locus.
    Locus(EntityId),
}

/// A semantic, addressed piece of output.
#[derive(Debug)]
pub struct Event {
    pub to: Audience,
    pub kind: EventKind,
    pub text: String,
}

impl Event {
    /// Text aimed at one connection.
    pub fn to_connection(id: ConnectionId, kind: EventKind, text: &str) -> (r: Self)
        ensures
            r.to == Audience::Connection(id) && r.kind == kind && r.text@ == text@,
    {
        Event { to: Audience::Connection(id), kind, text: text.to_owned() }
    }

    /// Text aimed at everyone directly within a locus.
    pub fn to_locus(locus: EntityId, kind: EventKind, text: &str) -> (r: Self)
        ensures
            r.to == Audience::Locus(locus) && r.kind == kind && r.text@ == text@,
    {
        Event { to: Audience::Locus(locus), kind, text: text.to_owned() }
    }

    /// Text aimed at one entity, resolved to the connections driving it.
    pub fn to_entity(entity: EntityId, kind: EventKind, text: &str) -> (r: Self)
        ensures
            r.to == Audience::Entity(entity) && r.kind == kind && r.text@ == text@,
    {
        Event { to: Audience::Entity(entity), kind, text: text.to_owned() }
    }
}

/// One handler-emitted event before resolution, with the entities whose
/// connections must not receive it.
#[derive(Debug)]
pub struct Outbound {
    pub event: Event,
    pub exclude: Vec<EntityId>,
}

impl Outbound {
    pub fn new(event: Event) -> (r: Self)
        ensures
            r.event == event && r.exclude@.len() == 0,
    {
        Outbound { event, exclude: Vec::new() }
    }

    pub fn excluding(event: Event, entities: Vec<EntityId>) -> (r: Self)
        ensures
            r.event == event && r.exclude@ == entities@,
    {
        Outbound { event, exclude: entities }
    }
}

/// A line bound to one connection.
#[derive(Debug, PartialEq, Eq)]
pub struct Delivery {
    pub to: ConnectionId,
    pub kind: EventKind,
    pub text: String,
}

/// Which actor each connection drives. One connection drives at most one
/// actor; several connections may drive the same actor.
pub struct Actors {
    by_conn: Vec<(ConnectionId, EntityId)>,
}

/// The ids of a list of connections.
pub open spec fn conn_ids(v: Seq<ConnectionId>) -> Seq<u64> {
    v.map_values(|x: ConnectionId| x.0)
}

/// The connections a list of deliveries goes to.
pub open spec fn delivered_to(v: Seq<Delivery>) -> Seq<u64> {
    v.map_values(|d: Delivery| d.to.0)
}

proof fn lemma_push_contains(v: Seq<u64>, x: u64, c: u64)
    ensures
        v.push(x).contains(c) <==> v.contains(c) || c == x,
{
    if v.push(x).contains(c) {
        let j = choose|j: int| 0 <= j < v.push(x).len() && v.push(x)[j] == c;
        if j < v.len() {
            assert(v[j] == c);
        }
    }
    if v.contains(c) {
        let j = choose|j: int| 0 <= j < v.len() && v[j] == c;
        assert(v.push(x)[j] == c);
    }
    if c == x {
        assert(v.push(x)[v.len() as int] == c);
    }
}

/// The actor connection `c` drives among the bindings `b`, if any.
pub open spec fn driven_by(b: Seq<(u64, u64)>, c: u64) -> Option<u64> {
    if exists|i: int| 0 <= i < b.len() && b[i].0 == c {
        Some(b[choose|i: int| 0 <= i < b.len() && b[i].0 == c].1)
    } else {
        None
    }
}

impl Actors {
    #[verifier::type_invariant]
    spec fn inv(self) -> bool {
        forall|i: int, j: int| 0 <= i < j < self.by_conn@.len() ==> #[trigger] self.by_conn@[i].0 != #[trigger] self.by_conn@[j].0
    }

    /// The bindings, as connection and actor ids.
    pub closed spec fn bindings_view(&self) -> Seq<(u64, u64)> {
        self.by_conn@.map_values(|p: (ConnectionId, EntityId)| (p.0.0, p.1.0))
    }

    /// The actor connection `c` drives, if any.
    pub open spec fn actor_of(&self, c: u64) -> Option<u64> {
        driven_by(self.bindings_view(), c)
    }

    pub fn new() -> (r: Self)
        ensures
            forall|c: u64| r.actor_of(c) is None,
    {
        Actors { by_conn: Vec::new() }
    }

    /// Bind `conn` to `actor`, replacing what it drove before.
    pub fn bind(&mut self, conn: ConnectionId, actor: EntityId)
        ensures
            final(self).actor_of(conn.0) == Some(actor.0),
            forall|c: u64| c != conn.0 ==> final(self).actor_of(c) == old(self).actor_of(c),
    {
        proof {
            use_type_invariant(&*self);
        }
        let ghost b0 = self.bindings_view();
        let ghost old_v = self.by_conn@;
        let mut i: usize = 0;
        while i < self.by_conn.len()
            invariant
                i <= self.by_conn@.len(),
                b0 == self.bindings_view(),
                old_v == self.by_conn@,
                forall|k: int| 0 <= k < i ==> self.by_conn@[k].0 != conn,
            ensures
                i <= self.by_conn@.len(),
                b0 == self.bindings_view(),
                old_v == self.by_conn@,
                forall|k: int| 0 <= k < i ==> self.by_conn@[k].0 != conn,
                i < self.by_conn@.len() ==> self.by_conn@[i as int].0 == conn,
            decreases self.by_conn.len() - i,
        {
            if self.by_conn[i].0 == conn {
                break;
            }
            i = i + 1;
        }
        let mut fresh = Actors { by_conn: Vec::new() };
        std::mem::swap(&mut fresh, self);
        let Actors { by_conn: mut v } = fresh;
        if i < v.len() {
            v.set(i, (conn, actor));
            proof {
                assert(v@ == old_v.update(i as int, (conn, actor)));
                let b1 = v@.map_values(|p: (ConnectionId, EntityId)| (p.0.0, p.1.0));
                assert(b1 =~= b0.update(i as int, (conn.0, actor.0)));
                assert forall|a: int, b: int| 0 <= a < b < v@.len() implies #[trigger] v@[a].0 != #[trigger] v@[b].0 by {
                    assert(old_v[a].0 != old_v[b].0);
                }
                lemma_driven_at(b1, i as int);
                assert forall|c: u64| c != conn.0 implies driven_by(b1, c) == driven_by(b0, c) by {
                    if exists|m: int| 0 <= m < b0.len() && b0[m].0 == c {
                        let m = choose|m: int| 0 <= m < b0.len() && b0[m].0 == c;
                        assert(m != i);
                        assert(b1[m] == b0[m]);
                        lemma_driven_at(b0, m);
                        lemma_driven_at(b1, m);
                    } else {
                        assert forall|m: int| 0 <= m < b1.len() implies b1[m].0 != c by {
                            if m != i {
                                assert(b1[m] == b0[m]);
                            }
                        }
                    }
                }
            }
        } else {
            v.push((conn, actor));
            proof {
                let b1 = v@.map_values(|p: (ConnectionId, EntityId)| (p.0.0, p.1.0));
                assert(b1 =~= b0.push((conn.0, actor.0)));
                assert forall|a: int, b: int| 0 <= a < b < v@.len() implies #[trigger] v@[a].0 != #[trigger] v@[b].0 by {
                    if b == old_v.len() {
                        assert(old_v[a].0 != conn);
                    } else {
                        assert(old_v[a].0 != old_v[b].0);
                    }
                }
                lemma_driven_at(b1, b0.len() as int);
                assert forall|c: u64| c != conn.0 implies driven_by(b1, c) == driven_by(b0, c) by {
                    if exists|m: int| 0 <= m < b0.len() && b0[m].0 == c {
                        let m = choose|m: int| 0 <= m < b0.len() && b0[m].0 == c;
                        assert(b1[m] == b0[m]);
                        lemma_driven_at(b0, m);
                        lemma_driven_at(b1, m);
                    } else {
                        assert forall|m: int| 0 <= m < b1.len() implies b1[m].0 != c by {
                            if m < b0.len() {
                                assert(b1[m] == b0[m]);
                            }
                        }
                    }
                }
            }
        }
        *self = Actors { by_conn: v };
    }

    /// Every live binding, each connection once.
    pub fn bindings(&self) -> (r: Vec<(ConnectionId, EntityId)>)
        ensures
            r@.map_values(|p: (ConnectionId, EntityId)| p.0.0).no_duplicates(),
            forall|i: int| 0 <= i < r@.len() ==> self.actor_of(#[trigger] r@[i].0.0) == Some(r@[i].1.0),
            forall|c: u64| self.actor_of(c) is Some ==> exists|i: int| 0 <= i < r@.len() && #[trigger] r@[i].0.0 == c,
    {
        proof {
            use_type_invariant(self);
        }
        let r = self.copy_bindings();
        proof {
            let b = self.bindings_view();
            assert forall|i: int| 0 <= i < r@.len() implies self.actor_of(#[trigger] r@[i].0.0) == Some(r@[i].1.0) by {
                assert(b[i] == (r@[i].0.0, r@[i].1.0));
                lemma_driven_at(b, i);
            }
            assert forall|c: u64| self.actor_of(c) is Some implies exists|i: int| 0 <= i < r@.len() && #[trigger] r@[i].0.0 == c by {
                let i = choose|i: int| 0 <= i < b.len() && b[i].0 == c;
                assert(r@[i].0.0 == c);
            }
            let cs = r@.map_values(|p: (ConnectionId, EntityId)| p.0.0);
            assert forall|a: int, b2: int| 0 <= a < cs.len() && 0 <= b2 < cs.len() && a != b2 implies cs[a] != cs[b2] by {
                if a < b2 {
                    assert(self.by_conn@[a].0 != self.by_conn@[b2].0);
                } else {
                    assert(self.by_conn@[b2].0 != self.by_conn@[a].0);
                }
            }
        }
        r
    }

    fn copy_bindings(&self) -> (r: Vec<(ConnectionId, EntityId)>)
        ensures
            r@ == self.by_conn@,
    {
        let mut out: Vec<(ConnectionId, EntityId)> = Vec::new();
        let mut i: usize = 0;
        while i < self.by_conn.len()
            invariant
                i <= self.by_conn@.len(),
                out@ == self.by_conn@.take(i as int),
            decreases self.by_conn.len() - i,
        {
            out.push(self.by_conn[i]);
            assert(out@ =~= self.by_conn@.take(i + 1));
            i = i + 1;
        }
        assert(self.by_conn@.take(self.by_conn@.len() as int) =~= self.by_conn@);
        out
    }

    /// Every connection driving `actor`, each once.
    pub fn conns_for(&self, actor: EntityId) -> (r: Vec<ConnectionId>)
        ensures
            conn_ids(r@).no_duplicates(),
            forall|c: u64| #[trigger] conn_ids(r@).contains(c) <==> self.actor_of(c) == Some(actor.0),
    {
        let all = self.bindings();
        let ghost cv = all@.map_values(|p: (ConnectionId, EntityId)| p.0.0);
        let mut out: Vec<ConnectionId> = Vec::new();
        let mut i: usize = 0;
        while i < all.len()
            invariant
                i <= all@.len(),
                cv == all@.map_values(|p: (ConnectionId, EntityId)| p.0.0),
                cv.no_duplicates(),
                forall|k: int| 0 <= k < all@.len() ==> self.actor_of(#[trigger] all@[k].0.0) == Some(all@[k].1.0),
                conn_ids(out@).no_duplicates(),
                forall|c: u64| #[trigger] conn_ids(out@).contains(c) <==> exists|k: int|
                    0 <= k < i && #[trigger] all@[k].0.0 == c && all@[k].1 == actor,
            decreases all.len() - i,
        {
            let ghost ov = conn_ids(out@);
            if all[i].1 == actor {
                out.push(all[i].0);
                proof {
                    let nv = conn_ids(out@);
                    assert(nv =~= ov.push(all@[i as int].0.0));
                    if ov.contains(all@[i as int].0.0) {
                        let k = choose|k: int| 0 <= k < i && #[trigger] all@[k].0.0 == all@[i as int].0.0 && all@[k].1 == actor;
                        assert(cv[k] == cv[i as int]);
                    }
                    assert forall|c: u64| #[trigger] nv.contains(c) <==> exists|k: int|
                        0 <= k < i + 1 && #[trigger] all@[k].0.0 == c && all@[k].1 == actor by {
                        lemma_push_contains(ov, all@[i as int].0.0, c);
                        if nv.contains(c) && !ov.contains(c) {
                            assert(c == all@[i as int].0.0);
                        }
                        if exists|k: int| 0 <= k < i + 1 && #[trigger] all@[k].0.0 == c && all@[k].1 == actor {
                            let k = choose|k: int| 0 <= k < i + 1 && #[trigger] all@[k].0.0 == c && all@[k].1 == actor;
                            if k < i {
                                assert(ov.contains(c));
                            } else {
                                assert(nv[ov.len() as int] == c);
                            }
                        }
                    }
                }
            } else {
                proof {
                    assert forall|c: u64| #[trigger] ov.contains(c) <==> exists|k: int|
                        0 <= k < i + 1 && #[trigger] all@[k].0.0 == c && all@[k].1 == actor by {
                        if exists|k: int| 0 <= k < i + 1 && #[trigger] all@[k].0.0 == c && all@[k].1 == actor {
                            let k = choose|k: int| 0 <= k < i + 1 && #[trigger] all@[k].0.0 == c && all@[k].1 == actor;
                            assert(k < i);
                        }
                    }
                }
            }
            i = i + 1;
        }
        proof {
            assert forall|c: u64| #[trigger] conn_ids(out@).contains(c) <==> self.actor_of(c) == Some(actor.0) by {
                if self.actor_of(c) == Some(actor.0) {
                    let k = choose|k: int| 0 <= k < all@.len() && #[trigger] all@[k].0.0 == c;
                    assert(self.actor_of(all@[k].0.0) == Some(all@[k].1.0));
                }
            }
        }
        out
    }
}

proof fn lemma_driven_at(b: Seq<(u64, u64)>, i: int)
    requires
        forall|x: int, y: int| 0 <= x < y < b.len() ==> #[trigger] b[x].0 != #[trigger] b[y].0,
        0 <= i < b.len(),
    ensures
        driven_by(b, b[i].0) == Some(b[i].1),
{
    let k = choose|k: int| 0 <= k < b.len() && b[k].0 == b[i].0;
    if k < i {
        assert(b[k].0 != b[i].0);
    } else if k > i {
        assert(b[i].0 != b[k].0);
    }
}

/// Whether connection `c` is addressed by `to`, given what each connection
/// drives and the containment links: the named connection; a connection
/// driving the named entity; or a connection whose actor stands directly in
/// the named locus.
pub open spec fn addressed(actors: &Actors, containment: Seq<(u64, u64)>, to: Audience, c: u64) -> bool {
    match to {
        Audience::Connection(x) => x.0 == c,
        Audience::Entity(e) => actors.actor_of(c) == Some(e.0),
        Audience::Locus(l) => actors.actor_of(c) matches Some(a) && parent_of(containment, a) == Some(l.0),
    }
}

/// Whether connection `c` drives one of the excluded entities.
pub open spec fn excluded_conn(actors: &Actors, exclude: Seq<EntityId>, c: u64) -> bool {
    actors.actor_of(c) matches Some(a) && exists|i: int| 0 <= i < exclude.len() && exclude[i].0 == a
}

/// Expand one outbound event into deliveries: each addressed connection
/// that drives no excluded entity gets the event's kind and text, once. The
/// order of the deliveries is unspecified.
pub fn resolve(world: &Structure, actors: &Actors, out: Outbound) -> (r: Vec<Delivery>)
    requires
        world.wf(),
    ensures
        delivered_to(r@).no_duplicates(),
        forall|i: int| 0 <= i < r@.len() ==> (#[trigger] r@[i]).kind == out.event.kind && r@[i].text@ == out.event.text@,
        forall|c: u64|
            delivered_to(r@).contains(c) <==> addressed(actors, world@.relations[0].links, out.event.to, c)
                && !excluded_conn(actors, out.exclude@, c),
{
    let Outbound { event, exclude } = out;
    let containment = world.containment();
    let ghost links = world@.relations[0].links;
    match event.to {
        Audience::Connection(conn) => {
            let mut r: Vec<Delivery> = Vec::new();
            if !drives_any(actors, conn, &exclude) {
                r.push(Delivery { to: conn, kind: event.kind, text: event.text.clone() });
            }
            proof {
                let tv = delivered_to(r@);
                assert forall|c: u64| #[trigger] tv.contains(c) <==> addressed(actors, links, event.to, c) && !excluded_conn(actors, exclude@, c) by {
                    if tv.contains(c) {
                        assert(tv[0] == conn.0);
                    }
                    if addressed(actors, links, event.to, c) && !excluded_conn(actors, exclude@, c) {
                        assert(tv[0] == c);
                    }
                }
            }
            r
        },
        _ => {
            let all = actors.bindings();
            let ghost cv = all@.map_values(|p: (ConnectionId, EntityId)| p.0.0);
            let mut r: Vec<Delivery> = Vec::new();
            let mut i: usize = 0;
            while i < all.len()
                invariant
                    i <= all@.len(),
                    event.to !is Connection,
                    links == world@.relations[0].links,
                    containment@ == world@.relations[0],
                    cv == all@.map_values(|p: (ConnectionId, EntityId)| p.0.0),
                    cv.no_duplicates(),
                    forall|k: int| 0 <= k < all@.len() ==> actors.actor_of(#[trigger] all@[k].0.0) == Some(all@[k].1.0),
                    forall|c: u64| actors.actor_of(c) is Some ==> exists|k: int| 0 <= k < all@.len() && #[trigger] all@[k].0.0 == c,
                    forall|k: int| 0 <= k < r@.len() ==> (#[trigger] r@[k]).kind == event.kind && r@[k].text@ == event.text@,
                    delivered_to(r@).no_duplicates(),
                    forall|c: u64| #[trigger] delivered_to(r@).contains(c) <==> exists|k: int|
                        0 <= k < i && #[trigger] all@[k].0.0 == c && addressed(actors, links, event.to, c)
                            && !excluded_conn(actors, exclude@, c),
                decreases all.len() - i,
            {
                let (conn, actor) = all[i];
                proof {
                    assert(actors.actor_of(conn.0) == Some(actor.0));
                }
                let hit = match event.to {
                    Audience::Entity(e) => actor == e,
                    Audience::Locus(l) => match containment.target_of(actor) {
                        Some(p) => p == l,
                        None => false,
                    },
                    Audience::Connection(_) => false,
                };
                let ghost rv = delivered_to(r@);
                if hit && !drives_any(actors, conn, &exclude) {
                    r.push(Delivery { to: conn, kind: event.kind, text: event.text.clone() });
                    proof {
                        let nv = delivered_to(r@);
                        assert(nv =~= rv.push(conn.0));
                        if rv.contains(conn.0) {
                            let k = choose|k: int| 0 <= k < i && #[trigger] all@[k].0.0 == conn.0 && addressed(actors, links, event.to, conn.0)
                                && !excluded_conn(actors, exclude@, conn.0);
                            assert(cv[k] == cv[i as int]);
                        }
                        assert forall|c: u64| #[trigger] nv.contains(c) <==> exists|k: int|
                            0 <= k < i + 1 && #[trigger] all@[k].0.0 == c && addressed(actors, links, event.to, c)
                                && !excluded_conn(actors, exclude@, c) by {
                            lemma_push_contains(rv, conn.0, c);
                            if nv.contains(c) && !rv.contains(c) {
                                assert(c == conn.0);
                            }
                            if exists|k: int| 0 <= k < i + 1 && #[trigger] all@[k].0.0 == c && addressed(actors, links, event.to, c)
                                && !excluded_conn(actors, exclude@, c) {
                                let k = choose|k: int| 0 <= k < i + 1 && #[trigger] all@[k].0.0 == c && addressed(actors, links, event.to, c)
                                    && !excluded_conn(actors, exclude@, c);
                                if k < i {
                                    assert(rv.contains(c));
                                } else {
                                    assert(nv[rv.len() as int] == c);
                                }
                            }
                        }
                    }
                } else {
                    proof {
                        assert forall|c: u64| #[trigger] rv.contains(c) <==> exists|k: int|
                            0 <= k < i + 1 && #[trigger] all@[k].0.0 == c && addressed(actors, links, event.to, c)
                                && !excluded_conn(actors, exclude@, c) by {
                            if exists|k: int| 0 <= k < i + 1 && #[trigger] all@[k].0.0 == c && addressed(actors, links, event.to, c)
                                && !excluded_conn(actors, exclude@, c) {
                                let k = choose|k: int| 0 <= k < i + 1 && #[trigger] all@[k].0.0 == c && addressed(actors, links, event.to, c)
                                    && !excluded_conn(actors, exclude@, c);
                                if k == i {
                                    assert(c == conn.0);
                                }
                            }
                        }
                    }
                }
                i = i + 1;
            }
            proof {
                assert forall|c: u64| #[trigger] delivered_to(r@).contains(c) <==> addressed(actors, links, event.to, c)
                    && !excluded_conn(actors, exclude@, c) by {
                    if addressed(actors, links, event.to, c) && !excluded_conn(actors, exclude@, c) {
                        assert(actors.actor_of(c) is Some);
                        let k = choose|k: int| 0 <= k < all@.len() && #[trigger] all@[k].0.0 == c;
                    }
                }
            }
            r
        },
    }
}

/// Whether connection `conn` drives one of `exclude`.
fn drives_any(actors: &Actors, conn: ConnectionId, exclude: &Vec<EntityId>) -> (r: bool)
    ensures
        r == excluded_conn(actors, exclude@, conn.0),
{
    let all = actors.bindings();
    let mut i: usize = 0;
    while i < all.len()
        invariant
            i <= all@.len(),
            forall|k: int| 0 <= k < all@.len() ==> actors.actor_of(#[trigger] all@[k].0.0) == Some(all@[k].1.0),
            forall|c: u64| actors.actor_of(c) is Some ==> exists|k: int| 0 <= k < all@.len() && #[trigger] all@[k].0.0 == c,
            forall|k: int| 0 <= k < i ==> (#[trigger] all@[k]).0 != conn,
        decreases all.len() - i,
    {
        if all[i].0 == conn {
            let actor = all[i].1;
            let mut j: usize = 0;
            while j < exclude.len()
                invariant
                    j <= exclude@.len(),
                    actors.actor_of(conn.0) == Some(actor.0),
                    forall|m: int| 0 <= m < j ==> exclude@[m].0 != actor.0,
                decreases exclude.len() - j,
            {
                if exclude[j] == actor {
                    return true;
                }
                j = j + 1;
            }
            return false;
        }
        i = i + 1;
    }
    proof {
        if actors.actor_of(conn.0) is Some {
            let k = choose|k: int| 0 <= k < all@.len() && #[trigger] all@[k].0.0 == conn.0;
            assert(all@[k].0 == conn);
        }
    }
    false
}

} // verus!
