//! One-to-many relations between entities: a source points at no more than one
//! target, a target has many sources. Tree-shaped relations refuse any link
//! that would close a cycle; what happens to a target's sources when it dies
//! is fixed per relation kind.

use vstd::prelude::*;
use crate::id::EntityId;
use crate::session::{decimal, push_decimal};

verus! {

/// What happens to a target's sources when the target is despawned.
#[derive(Clone, Copy, Debug, PartialEq, Eq, Structural)]
pub enum Cascade {
    /// Destroy the sources too (recursively).
    DespawnSources,
    /// Move sources up to the dying target's own target; roots if none.
    Reparent,
    /// Detach sources (clear the relation); they become roots.
    Detach,
}

/// Which endpoint of a requested relation operation was missing.
#[derive(Clone, Copy, Debug, PartialEq, Eq, Structural)]
pub enum RelationRole {
    Source,
    Target,
}

/// Why a relation operation was refused.
#[derive(Debug, PartialEq, Eq)]
pub enum RelationError {
    NoSuchEntity { kind: String, role: RelationRole, entity: EntityId },
    Cycle { kind: String, source: EntityId, target: EntityId },
    UnknownKind(String),
}

/// How an entity id reads in a message.
pub open spec fn entity_text(e: EntityId) -> Seq<char> {
    "EntityId("@ + decimal(e.0 as nat) + ")"@
}

/// The text of an endpoint role.
pub open spec fn role_text(r: RelationRole) -> Seq<char> {
    match r {
        RelationRole::Source => "source"@,
        RelationRole::Target => "target"@,
    }
}

/// The message of a relation error.
pub open spec fn relation_error_text(e: RelationError) -> Seq<char> {
    match e {
        RelationError::NoSuchEntity { kind, role, entity } => "relation "@ + kind@ + " has no "@ + role_text(role)
            + " entity "@ + entity_text(entity),
        RelationError::Cycle { kind, source, target } => "relation "@ + kind@ + " from "@ + entity_text(source)
            + " to "@ + entity_text(target) + " would create a cycle"@,
        RelationError::UnknownKind(kind) => "unknown relation kind: "@ + kind@,
    }
}

fn push_entity(s: &mut String, e: EntityId)
    ensures
        final(s)@ == old(s)@ + entity_text(e),
{
    proof {
        reveal_strlit("EntityId(");
        reveal_strlit(")");
    }
    s.append("EntityId(");
    push_decimal(s, e.0);
    s.append(")");
    proof {
        assert(final(s)@ =~= old(s)@ + entity_text(e));
    }
}

impl RelationRole {
    /// The role's name in messages.
    pub fn as_str(&self) -> (r: &'static str)
        ensures
            r@ == role_text(*self),
    {
        match self {
            RelationRole::Source => "source",
            RelationRole::Target => "target",
        }
    }
}

impl RelationError {
    /// The error's message.
    pub fn to_text(&self) -> (r: String)
        ensures
            r@ == relation_error_text(*self),
    {
        let mut s = String::new();
        match self {
            RelationError::NoSuchEntity { kind, role, entity } => {
                s.append("relation ");
                s.append(kind.as_str());
                s.append(" has no ");
                s.append(role.as_str());
                s.append(" entity ");
                push_entity(&mut s, *entity);
                proof {
                    assert(s@ =~= relation_error_text(*self));
                }
            },
            RelationError::Cycle { kind, source, target } => {
                s.append("relation ");
                s.append(kind.as_str());
                s.append(" from ");
                push_entity(&mut s, *source);
                s.append(" to ");
                push_entity(&mut s, *target);
                s.append(" would create a cycle");
                proof {
                    assert(s@ =~= relation_error_text(*self));
                }
            },
            RelationError::UnknownKind(kind) => {
                s.append("unknown relation kind: ");
                s.append(kind.as_str());
                proof {
                    assert(s@ =~= relation_error_text(*self));
                }
            },
        }
        s
    }
}

// ---------------------------------------------------------------------------
// The link model: a list of (source, target) pairs with distinct sources, read
// as a partial function from an entity to its target.

/// Model of a list of links.
pub open spec fn links_view(v: Seq<(EntityId, EntityId)>) -> Seq<(u64, u64)> {
    v.map_values(|l: (EntityId, EntityId)| (l.0.0, l.1.0))
}

/// No entity is the source of two links.
pub open spec fn sources_unique(links: Seq<(u64, u64)>) -> bool {
    forall|i: int, j: int|
        0 <= i < links.len() && 0 <= j < links.len() && i != j ==> #[trigger] links[i].0 != #[trigger] links[j].0
}

/// Whether `x` is the source of some link.
pub open spec fn has_link(links: Seq<(u64, u64)>, x: u64) -> bool {
    exists|i: int| 0 <= i < links.len() && #[trigger] links[i].0 == x
}

/// The target `x` points at, if it is the source of a link.
pub open spec fn parent_of(links: Seq<(u64, u64)>, x: u64) -> Option<u64> {
    if has_link(links, x) {
        Some(links[choose|i: int| 0 <= i < links.len() && #[trigger] links[i].0 == x].1)
    } else {
        None
    }
}

/// The link list read as a function from an entity to its target.
pub open spec fn parent_fn(links: Seq<(u64, u64)>) -> spec_fn(u64) -> Option<u64> {
    |y: u64| parent_of(links, y)
}

/// The `k`-th ancestor of `x` under `p`: `x` itself at step zero.
pub open spec fn up(p: spec_fn(u64) -> Option<u64>, x: u64, k: nat) -> Option<u64>
    decreases k,
{
    if k == 0 {
        Some(x)
    } else {
        match up(p, x, (k - 1) as nat) {
            Some(y) => p(y),
            None => None,
        }
    }
}

/// Following targets from `a` eventually reaches `b` (possibly in zero steps).
pub open spec fn reaches(p: spec_fn(u64) -> Option<u64>, a: u64, b: u64) -> bool {
    exists|k: nat| #[trigger] up(p, a, k) == Some(b)
}

/// No entity is its own ancestor.
pub open spec fn no_cycle(p: spec_fn(u64) -> Option<u64>) -> bool {
    forall|x: u64, k: nat| k >= 1 ==> #[trigger] up(p, x, k) != Some(x)
}

/// The ancestors of `x`, nearest first, following at most `fuel` links.
pub open spec fn chain(p: spec_fn(u64) -> Option<u64>, x: u64, fuel: nat) -> Seq<u64>
    decreases fuel,
{
    if fuel == 0 {
        Seq::empty()
    } else {
        match p(x) {
            Some(y) => seq![y] + chain(p, y, (fuel - 1) as nat),
            None => Seq::empty(),
        }
    }
}

/// The sources of the links in `links`.
pub open spec fn link_sources(links: Seq<(u64, u64)>) -> Seq<u64> {
    links.map_values(|l: (u64, u64)| l.0)
}

// ---------------------------------------------------------------------------
// Facts about ancestor walks.

/// Walking `i` then `m` steps is walking `i + m` steps.
pub proof fn lemma_up_compose(p: spec_fn(u64) -> Option<u64>, x: u64, i: nat, m: nat)
    ensures
        up(p, x, i + m) == match up(p, x, i) {
            Some(y) => up(p, y, m),
            None => None,
        },
    decreases m,
{
    if m > 0 {
        lemma_up_compose(p, x, i, (m - 1) as nat);
        assert(up(p, x, i + m) == match up(p, x, (i + m - 1) as nat) {
            Some(z) => p(z),
            None => None,
        });
        match up(p, x, i) {
            Some(y) => {
                assert(up(p, y, m) == match up(p, y, (m - 1) as nat) {
                    Some(z) => p(z),
                    None => None,
                });
            },
            None => {},
        }
    }
}

/// Once a walk runs out of links it stays out.
pub proof fn lemma_up_none_stays(p: spec_fn(u64) -> Option<u64>, x: u64, i: nat, j: nat)
    requires
        i <= j,
        up(p, x, i) is None,
    ensures
        up(p, x, j) is None,
{
    lemma_up_compose(p, x, i, (j - i) as nat);
    assert(i + (j - i) as nat == j);
}

/// One more step of a walk.
pub proof fn lemma_up_step(p: spec_fn(u64) -> Option<u64>, x: u64, k: nat)
    ensures
        up(p, x, k + 1) == match up(p, x, k) {
            Some(y) => p(y),
            None => None,
        },
{
    assert(up(p, x, k + 1) == match up(p, x, ((k + 1) - 1) as nat) {
        Some(y) => p(y),
        None => None,
    });
}

/// Every entity with a target is a source of some link.
pub proof fn lemma_parent_in_sources(links: Seq<(u64, u64)>, y: u64)
    requires
        parent_of(links, y) is Some,
    ensures
        link_sources(links).to_set().contains(y),
{
    let i = choose|i: int| 0 <= i < links.len() && #[trigger] links[i].0 == y;
    assert(link_sources(links)[i] == y);
}

/// In an acyclic relation over `n` links, every ancestor walk ends within `n`
/// steps: a longer one would visit some source twice.
pub proof fn lemma_walk_bounded(links: Seq<(u64, u64)>, x: u64)
    requires
        no_cycle(parent_fn(links)),
    ensures
        up(parent_fn(links), x, links.len() + 1) is None,
{
    let p = parent_fn(links);
    let n = links.len();
    if up(p, x, n + 1) is Some {
        assert forall|i: nat| i <= n + 1 implies #[trigger] up(p, x, i) is Some by {
            if up(p, x, i) is None {
                lemma_up_none_stays(p, x, i, n + 1);
            }
        }
        let nodes = Seq::new(n + 1, |i: int| up(p, x, i as nat)->0);
        assert forall|i: int| 0 <= i < nodes.len() implies link_sources(links).to_set().contains(#[trigger] nodes[i]) by {
            assert(up(p, x, i as nat) is Some);
            assert(up(p, x, (i + 1) as nat) is Some);
            lemma_up_step(p, x, i as nat);
            lemma_parent_in_sources(links, nodes[i]);
        }
        assert forall|i: int, j: int| 0 <= i < nodes.len() && 0 <= j < nodes.len() && i != j implies nodes[i]
            != nodes[j] by {
            if nodes[i] == nodes[j] {
                let (a, b) = if i < j { (i, j) } else { (j, i) };
                assert(up(p, x, a as nat) is Some);
                assert(up(p, x, b as nat) is Some);
                lemma_up_compose(p, x, a as nat, (b - a) as nat);
                assert(a as nat + (b - a) as nat == b as nat);
                assert(up(p, nodes[a], (b - a) as nat) == Some(nodes[a]));
                assert(up(p, nodes[a], (b - a) as nat) != Some(nodes[a]));
            }
        }
        assert(nodes.no_duplicates());
        nodes.unique_seq_to_set();
        link_sources(links).lemma_cardinality_of_set();
        assert(nodes.to_set().subset_of(link_sources(links).to_set()));
        vstd::set_lib::lemma_len_subset(nodes.to_set(), link_sources(links).to_set());
        assert(false);
    }
}

/// The ancestor chain with enough fuel lists the walk step by step.
pub proof fn lemma_chain_index(p: spec_fn(u64) -> Option<u64>, x: u64, fuel: nat, i: int)
    requires
        0 <= i < chain(p, x, fuel).len(),
    ensures
        up(p, x, (i + 1) as nat) == Some(chain(p, x, fuel)[i]),
    decreases fuel,
{
    lemma_up_compose(p, x, 1, i as nat);
    lemma_up_step(p, x, 0);
    let y = p(x)->0;
    if i > 0 {
        lemma_chain_index(p, y, (fuel - 1) as nat, i - 1);
        assert(1 + i as nat == (i + 1) as nat);
    }
}

/// The chain stops exactly where the walk runs out of links, or at its fuel.
pub proof fn lemma_chain_len(p: spec_fn(u64) -> Option<u64>, x: u64, fuel: nat)
    ensures
        chain(p, x, fuel).len() <= fuel,
        chain(p, x, fuel).len() < fuel ==> up(p, x, chain(p, x, fuel).len() + 1) is None,
    decreases fuel,
{
    if fuel > 0 {
        lemma_up_step(p, x, 0);
        match p(x) {
            Some(y) => {
                lemma_chain_len(p, y, (fuel - 1) as nat);
                let m = chain(p, y, (fuel - 1) as nat).len();
                lemma_up_compose(p, x, 1, m + 1);
                assert(1 + (m + 1) == chain(p, x, fuel).len() + 1);
            },
            None => {
                lemma_up_step(p, x, 0);
            },
        }
    }
}

// ---------------------------------------------------------------------------
// Laws: which rewirings keep a relation acyclic.

/// A walk under `q` that never stops at `s` agrees with `p`, when `q` and `p`
/// differ only at `s`.
proof fn lemma_walk_avoiding(p: spec_fn(u64) -> Option<u64>, q: spec_fn(u64) -> Option<u64>, s: u64, x: u64, k: nat)
    requires
        forall|y: u64| y != s ==> #[trigger] q(y) == p(y),
        forall|i: nat| i < k ==> #[trigger] up(q, x, i) != Some(s),
    ensures
        up(q, x, k) == up(p, x, k),
    decreases k,
{
    if k > 0 {
        lemma_walk_avoiding(p, q, s, x, (k - 1) as nat);
        lemma_up_step(q, x, (k - 1) as nat);
        lemma_up_step(p, x, (k - 1) as nat);
        assert(up(q, x, (k - 1) as nat) != Some(s));
        assert((k - 1) as nat + 1 == k);
    }
}

/// If `q` walks from `t` to `s`, then `p` already did, when they differ only at `s`.
proof fn lemma_first_arrival(p: spec_fn(u64) -> Option<u64>, q: spec_fn(u64) -> Option<u64>, s: u64, t: u64, j: nat)
    requires
        forall|y: u64| y != s ==> #[trigger] q(y) == p(y),
        up(q, t, j) == Some(s),
    ensures
        reaches(p, t, s),
    decreases j,
{
    if exists|i: nat| i < j && #[trigger] up(q, t, i) == Some(s) {
        let i = choose|i: nat| i < j && #[trigger] up(q, t, i) == Some(s);
        lemma_first_arrival(p, q, s, t, i);
    } else {
        lemma_walk_avoiding(p, q, s, t, j);
        assert(up(p, t, j) == Some(s));
    }
}

/// Pointing `s` at `t` keeps an acyclic relation acyclic unless `t` already
/// reaches `s`.
pub proof fn lemma_relink_keeps_acyclic(p: spec_fn(u64) -> Option<u64>, q: spec_fn(u64) -> Option<u64>, s: u64, t: u64)
    requires
        no_cycle(p),
        !reaches(p, t, s),
        forall|y: u64| y != s ==> #[trigger] q(y) == p(y),
        q(s) == Some(t),
    ensures
        no_cycle(q),
{
    assert forall|x: u64, k: nat| k >= 1 implies #[trigger] up(q, x, k) != Some(x) by {
        if up(q, x, k) == Some(x) {
            if exists|i: nat| i < k && #[trigger] up(q, x, i) == Some(s) {
                let i = choose|i: nat| i < k && #[trigger] up(q, x, i) == Some(s);
                lemma_up_compose(q, x, i, k);
                lemma_up_compose(q, x, k, i);
                assert(i + k == k + i);
                // `s` lies on the cycle too.
                assert(up(q, s, k) == Some(s));
                lemma_up_compose(q, s, 1, (k - 1) as nat);
                lemma_up_step(q, s, 0);
                assert(1 + (k - 1) as nat == k);
                assert(up(q, t, (k - 1) as nat) == Some(s));
                lemma_first_arrival(p, q, s, t, (k - 1) as nat);
            } else {
                lemma_walk_avoiding(p, q, s, x, k);
                assert(up(p, x, k) == Some(x));
            }
        }
    }
}

/// A walk under a relation with links only taken away is a walk of the original.
proof fn lemma_walk_of_subrelation(p: spec_fn(u64) -> Option<u64>, q: spec_fn(u64) -> Option<u64>, x: u64, k: nat)
    requires
        forall|y: u64| #[trigger] q(y) is None || q(y) == p(y),
        up(q, x, k) is Some,
    ensures
        up(q, x, k) == up(p, x, k),
    decreases k,
{
    if k > 0 {
        lemma_up_step(q, x, (k - 1) as nat);
        lemma_up_step(p, x, (k - 1) as nat);
        assert((k - 1) as nat + 1 == k);
        lemma_walk_of_subrelation(p, q, x, (k - 1) as nat);
    }
}

/// Clearing links keeps an acyclic relation acyclic.
pub proof fn lemma_unlink_keeps_acyclic(p: spec_fn(u64) -> Option<u64>, q: spec_fn(u64) -> Option<u64>)
    requires
        no_cycle(p),
        forall|y: u64| #[trigger] q(y) is None || q(y) == p(y),
    ensures
        no_cycle(q),
{
    assert forall|x: u64, k: nat| k >= 1 implies #[trigger] up(q, x, k) != Some(x) by {
        if up(q, x, k) == Some(x) {
            lemma_walk_of_subrelation(p, q, x, k);
        }
    }
}

/// Each step of a walk that bypasses `id` is at least one step of the original.
proof fn lemma_walk_of_contraction(p: spec_fn(u64) -> Option<u64>, q: spec_fn(u64) -> Option<u64>, id: u64, x: u64, k: nat)
    requires
        q(id) is None,
        forall|y: u64| y != id ==> #[trigger] q(y) == (if p(y) == Some(id) { p(id) } else { p(y) }),
        up(q, x, k) is Some,
    ensures
        exists|k2: nat| k2 >= k && #[trigger] up(p, x, k2) == up(q, x, k),
    decreases k,
{
    if k == 0 {
        assert(up(p, x, 0) == up(q, x, 0));
    } else {
        lemma_up_step(q, x, (k - 1) as nat);
        assert((k - 1) as nat + 1 == k);
        lemma_walk_of_contraction(p, q, id, x, (k - 1) as nat);
        let k2 = choose|k2: nat| k2 >= (k - 1) as nat && #[trigger] up(p, x, k2) == up(q, x, (k - 1) as nat);
        let y = up(q, x, (k - 1) as nat)->0;
        lemma_up_step(p, x, k2);
        if p(y) == Some(id) {
            lemma_up_step(p, x, k2 + 1);
            assert(up(p, x, k2 + 2) == up(q, x, k));
        } else {
            assert(up(p, x, k2 + 1) == up(q, x, k));
        }
    }
}

/// Despawning `id` and pointing its sources at its own target keeps an acyclic
/// relation acyclic.
pub proof fn lemma_reparent_keeps_acyclic(p: spec_fn(u64) -> Option<u64>, q: spec_fn(u64) -> Option<u64>, id: u64)
    requires
        no_cycle(p),
        q(id) is None,
        forall|y: u64| y != id ==> #[trigger] q(y) == (if p(y) == Some(id) { p(id) } else { p(y) }),
    ensures
        no_cycle(q),
{
    assert forall|x: u64, k: nat| k >= 1 implies #[trigger] up(q, x, k) != Some(x) by {
        if up(q, x, k) == Some(x) {
            lemma_walk_of_contraction(p, q, id, x, k);
            let k2 = choose|k2: nat| k2 >= k && #[trigger] up(p, x, k2) == up(q, x, k);
            assert(up(p, x, k2) == Some(x));
        }
    }
}


// ---------------------------------------------------------------------------
// Editing a link list.

/// Model of a list of entity ids.
pub open spec fn ids_view(v: Seq<EntityId>) -> Seq<u64> {
    v.map_values(|e: EntityId| e.0)
}

/// Model of an optional entity id.
pub open spec fn opt_id(o: Option<EntityId>) -> Option<u64> {
    match o {
        Some(e) => Some(e.0),
        None => None,
    }
}

proof fn lemma_parent_update(links: Seq<(u64, u64)>, i: int, t: u64)
    requires
        sources_unique(links),
        0 <= i < links.len(),
    ensures
        sources_unique(links.update(i, (links[i].0, t))),
        forall|y: u64| #[trigger] parent_of(links.update(i, (links[i].0, t)), y) == if y == links[i].0 {
            Some(t)
        } else {
            parent_of(links, y)
        },
{
    let l2 = links.update(i, (links[i].0, t));
    assert forall|a: int, b: int| 0 <= a < l2.len() && 0 <= b < l2.len() && a != b implies #[trigger] l2[a].0
        != #[trigger] l2[b].0 by {
        assert(links[a].0 != links[b].0);
    }
    assert forall|y: u64| #[trigger] parent_of(l2, y) == if y == links[i].0 {
        Some(t)
    } else {
        parent_of(links, y)
    } by {
        if has_link(links, y) {
            let k = choose|k: int| 0 <= k < links.len() && #[trigger] links[k].0 == y;
            assert(l2[k].0 == y);
        }
        if has_link(l2, y) {
            let k = choose|k: int| 0 <= k < l2.len() && #[trigger] l2[k].0 == y;
            assert(links[k].0 == y);
        }
    }
}

proof fn lemma_parent_push(links: Seq<(u64, u64)>, s: u64, t: u64)
    requires
        sources_unique(links),
        !has_link(links, s),
    ensures
        sources_unique(links.push((s, t))),
        forall|y: u64| #[trigger] parent_of(links.push((s, t)), y) == if y == s {
            Some(t)
        } else {
            parent_of(links, y)
        },
{
    let l2 = links.push((s, t));
    assert forall|a: int, b: int| 0 <= a < l2.len() && 0 <= b < l2.len() && a != b implies #[trigger] l2[a].0
        != #[trigger] l2[b].0 by {
        if a < links.len() && b < links.len() {
            assert(links[a].0 != links[b].0);
        } else if a < links.len() {
            assert(links[a].0 != s);
        } else {
            assert(links[b].0 != s);
        }
    }
    assert forall|y: u64| #[trigger] parent_of(l2, y) == if y == s { Some(t) } else { parent_of(links, y) } by {
        if y == s {
            assert(l2[links.len() as int].0 == s);
        }
        if has_link(links, y) {
            let k = choose|k: int| 0 <= k < links.len() && #[trigger] links[k].0 == y;
            assert(l2[k].0 == y);
        }
        if has_link(l2, y) {
            let k = choose|k: int| 0 <= k < l2.len() && #[trigger] l2[k].0 == y;
            if k < links.len() {
                assert(links[k].0 == y);
            }
        }
    }
}

proof fn lemma_parent_remove(links: Seq<(u64, u64)>, i: int)
    requires
        sources_unique(links),
        0 <= i < links.len(),
    ensures
        sources_unique(links.remove(i)),
        forall|y: u64| #[trigger] parent_of(links.remove(i), y) == if y == links[i].0 {
            None
        } else {
            parent_of(links, y)
        },
{
    let l2 = links.remove(i);
    assert forall|a: int, b: int| 0 <= a < l2.len() && 0 <= b < l2.len() && a != b implies #[trigger] l2[a].0
        != #[trigger] l2[b].0 by {
        let a2 = if a < i { a } else { a + 1 };
        let b2 = if b < i { b } else { b + 1 };
        assert(l2[a] == links[a2]);
        assert(l2[b] == links[b2]);
        assert(links[a2].0 != links[b2].0);
    }
    assert forall|y: u64| #[trigger] parent_of(l2, y) == if y == links[i].0 { None } else { parent_of(links, y) } by {
        if has_link(l2, y) {
            let k = choose|k: int| 0 <= k < l2.len() && #[trigger] l2[k].0 == y;
            let k2 = if k < i { k } else { k + 1 };
            assert(l2[k] == links[k2]);
            assert(links[k2].0 == y);
        }
        if has_link(links, y) && y != links[i].0 {
            let k = choose|k: int| 0 <= k < links.len() && #[trigger] links[k].0 == y;
            assert(k != i);
            let k2 = if k < i { k } else { k - 1 };
            assert(l2[k2] == links[k]);
        }
    }
}

/// The position of the link whose source is `source`.
fn find_link(links: &Vec<(EntityId, EntityId)>, source: EntityId) -> (r: Option<usize>)
    ensures
        match r {
            Some(i) => i < links@.len() && links@[i as int].0.0 == source.0,
            None => !has_link(links_view(links@), source.0),
        },
{
    let mut i: usize = 0;
    while i < links.len()
        invariant
            i <= links@.len(),
            forall|j: int| 0 <= j < i ==> links@[j].0.0 != source.0,
        decreases links.len() - i,
    {
        if links[i].0.0 == source.0 {
            return Some(i);
        }
        i = i + 1;
    }
    proof {
        if has_link(links_view(links@), source.0) {
            let k = choose|k: int| 0 <= k < links@.len() && #[trigger] links_view(links@)[k].0 == source.0;
            assert(links@[k].0.0 == source.0);
        }
    }
    None
}

/// The position of the first link whose target is `target`.
fn find_target(links: &Vec<(EntityId, EntityId)>, target: EntityId) -> (r: Option<usize>)
    ensures
        match r {
            Some(i) => i < links@.len() && links@[i as int].1.0 == target.0,
            None => forall|j: int| 0 <= j < links@.len() ==> links@[j].1.0 != target.0,
        },
{
    let mut i: usize = 0;
    while i < links.len()
        invariant
            i <= links@.len(),
            forall|j: int| 0 <= j < i ==> links@[j].1.0 != target.0,
        decreases links.len() - i,
    {
        if links[i].1.0 == target.0 {
            return Some(i);
        }
        i = i + 1;
    }
    None
}

/// Point `source` at `target`, replacing any link it had.
fn set_link(links: &mut Vec<(EntityId, EntityId)>, source: EntityId, target: EntityId)
    requires
        sources_unique(links_view(old(links)@)),
    ensures
        sources_unique(links_view(final(links)@)),
        forall|y: u64| #[trigger] parent_of(links_view(final(links)@), y) == if y == source.0 {
            Some(target.0)
        } else {
            parent_of(links_view(old(links)@), y)
        },
{
    let ghost lv = links_view(links@);
    match find_link(links, source) {
        Some(i) => {
            links.set(i, (source, target));
            proof {
                lemma_parent_update(lv, i as int, target.0);
                assert(links_view(links@) =~= lv.update(i as int, (lv[i as int].0, target.0)));
            }
        },
        None => {
            links.push((source, target));
            proof {
                lemma_parent_push(lv, source.0, target.0);
                assert(links_view(links@) =~= lv.push((source.0, target.0)));
            }
        },
    }
}

/// Clear `source`'s link, if it has one.
fn remove_link(links: &mut Vec<(EntityId, EntityId)>, source: EntityId)
    requires
        sources_unique(links_view(old(links)@)),
    ensures
        sources_unique(links_view(final(links)@)),
        forall|y: u64| #[trigger] parent_of(links_view(final(links)@), y) == if y == source.0 {
            None
        } else {
            parent_of(links_view(old(links)@), y)
        },
{
    let ghost lv = links_view(links@);
    match find_link(links, source) {
        Some(i) => {
            links.remove(i);
            proof {
                lemma_parent_remove(lv, i as int);
                assert(links_view(links@) =~= lv.remove(i as int));
            }
        },
        None => {
            proof {
                assert forall|y: u64| #[trigger] parent_of(lv, y) == if y == source.0 {
                    None
                } else {
                    parent_of(lv, y)
                } by {}
            }
        },
    }
}

/// Clear every link whose target is `target`.
fn clear_target(links: &mut Vec<(EntityId, EntityId)>, target: EntityId)
    requires
        sources_unique(links_view(old(links)@)),
    ensures
        sources_unique(links_view(final(links)@)),
        forall|y: u64| #[trigger] parent_of(links_view(final(links)@), y) == if parent_of(
            links_view(old(links)@),
            y,
        ) == Some(target.0) {
            None
        } else {
            parent_of(links_view(old(links)@), y)
        },
{
    let ghost lv0 = links_view(links@);
    loop
        invariant
            sources_unique(links_view(links@)),
            forall|y: u64| #[trigger] parent_of(links_view(links@), y) == parent_of(lv0, y) || (
            parent_of(links_view(links@), y) is None && parent_of(lv0, y) == Some(target.0)),
            forall|y: u64| parent_of(lv0, y) != Some(target.0) ==> #[trigger] parent_of(links_view(links@), y)
                == parent_of(lv0, y),
        ensures
            sources_unique(links_view(links@)),
            forall|y: u64| #[trigger] parent_of(links_view(links@), y) == parent_of(lv0, y) || (
            parent_of(links_view(links@), y) is None && parent_of(lv0, y) == Some(target.0)),
            forall|y: u64| parent_of(lv0, y) != Some(target.0) ==> #[trigger] parent_of(links_view(links@), y)
                == parent_of(lv0, y),
            forall|j: int| 0 <= j < links@.len() ==> links@[j].1.0 != target.0,
        decreases links@.len(),
    {
        match find_target(links, target) {
            Some(i) => {
                let ghost lv = links_view(links@);
                links.remove(i);
                proof {
                    lemma_parent_remove(lv, i as int);
                    assert(links_view(links@) =~= lv.remove(i as int));
                    assert(parent_of(lv, lv[i as int].0) == Some(target.0)) by {
                        assert(has_link(lv, lv[i as int].0));
                        let k = choose|k: int| 0 <= k < lv.len() && #[trigger] lv[k].0 == lv[i as int].0;
                        assert(k == i);
                    }
                }
            },
            None => {
                break;
            },
        }
    }
    proof {
        let lv = links_view(links@);
        assert forall|y: u64| parent_of(lv, y) != Some(target.0) by {
            if has_link(lv, y) {
                let k = choose|k: int| 0 <= k < lv.len() && #[trigger] lv[k].0 == y;
                assert(links@[k].1.0 != target.0);
            }
        }
    }
}

/// Point every source of `from` at `to` instead.
fn redirect(links: &mut Vec<(EntityId, EntityId)>, from: EntityId, to: EntityId)
    requires
        sources_unique(links_view(old(links)@)),
    ensures
        sources_unique(links_view(final(links)@)),
        forall|y: u64| #[trigger] parent_of(links_view(final(links)@), y) == if parent_of(
            links_view(old(links)@),
            y,
        ) == Some(from.0) {
            Some(to.0)
        } else {
            parent_of(links_view(old(links)@), y)
        },
{
    let ghost lv0 = links_view(links@);
    let mut i: usize = 0;
    while i < links.len()
        invariant
            links@.len() == lv0.len(),
            i <= lv0.len(),
            forall|j: int| 0 <= j < i ==> #[trigger] links_view(links@)[j] == (lv0[j].0, if lv0[j].1 == from.0 {
                to.0
            } else {
                lv0[j].1
            }),
            forall|j: int| i <= j < lv0.len() ==> #[trigger] links_view(links@)[j] == lv0[j],
        decreases links.len() - i,
    {
        let ghost prev = links_view(links@);
        if links[i].1.0 == from.0 {
            let source = links[i].0;
            links.set(i, (source, to));
            assert(links_view(links@) =~= prev.update(i as int, (prev[i as int].0, to.0)));
        }
        assert(links_view(links@)[i as int] == (lv0[i as int].0, if lv0[i as int].1 == from.0 {
            to.0
        } else {
            lv0[i as int].1
        }));
        i = i + 1;
    }
    proof {
        let lv = links_view(links@);
        assert forall|a: int, b: int| 0 <= a < lv.len() && 0 <= b < lv.len() && a != b implies #[trigger] lv[a].0
            != #[trigger] lv[b].0 by {
            assert(lv0[a].0 != lv0[b].0);
        }
        assert forall|y: u64| #[trigger] parent_of(lv, y) == if parent_of(lv0, y) == Some(from.0) {
            Some(to.0)
        } else {
            parent_of(lv0, y)
        } by {
            if has_link(lv0, y) {
                let k = choose|k: int| 0 <= k < lv0.len() && #[trigger] lv0[k].0 == y;
                assert(lv[k].0 == y);
                let k2 = choose|k2: int| 0 <= k2 < lv.len() && #[trigger] lv[k2].0 == y;
                assert(lv0[k2].0 == y);
                assert(k2 == k);
            }
            if has_link(lv, y) {
                let k = choose|k: int| 0 <= k < lv.len() && #[trigger] lv[k].0 == y;
                assert(lv0[k].0 == y);
            }
        }
    }
}

/// Whether `e` occurs in `ids`.
pub(crate) fn contains_id(ids: &[EntityId], e: EntityId) -> (r: bool)
    ensures
        r == ids_view(ids@).contains(e.0),
{
    let mut i: usize = 0;
    while i < ids.len()
        invariant
            i <= ids@.len(),
            forall|j: int| 0 <= j < i ==> ids@[j].0 != e.0,
        decreases ids.len() - i,
    {
        if ids[i].0 == e.0 {
            assert(ids_view(ids@)[i as int] == e.0);
            return true;
        }
        i = i + 1;
    }
    false
}


/// The chain with room to spare is exactly the walk until it runs out.
proof fn lemma_chain_is_walk(p: spec_fn(u64) -> Option<u64>, x: u64, fuel: nat, s: Seq<u64>)
    requires
        forall|i: int| 0 <= i < s.len() ==> #[trigger] up(p, x, (i + 1) as nat) == Some(s[i]),
        up(p, x, s.len() + 1) is None,
        s.len() < fuel,
    ensures
        chain(p, x, fuel) == s,
{
    let c = chain(p, x, fuel);
    lemma_chain_len(p, x, fuel);
    if c.len() > s.len() {
        lemma_chain_index(p, x, fuel, s.len() as int);
    } else if c.len() < s.len() {
        assert(up(p, x, (c.len() as int + 1) as nat) == Some(s[c.len() as int]));
    }
    assert forall|i: int| 0 <= i < s.len() implies c[i] == s[i] by {
        lemma_chain_index(p, x, fuel, i);
    }
    assert(c =~= s);
}

/// A shortest cycle through `x` visits distinct sources, so it is no longer
/// than the number of links.
proof fn lemma_cycle_within_links(links: Seq<(u64, u64)>, x: u64, k: nat)
    requires
        k >= 1,
        up(parent_fn(links), x, k) == Some(x),
    ensures
        exists|k2: nat| 1 <= k2 <= links.len() && #[trigger] up(parent_fn(links), x, k2) == Some(x),
    decreases k,
{
    let p = parent_fn(links);
    if exists|k1: nat| 1 <= k1 < k && #[trigger] up(p, x, k1) == Some(x) {
        let k1 = choose|k1: nat| 1 <= k1 < k && #[trigger] up(p, x, k1) == Some(x);
        lemma_cycle_within_links(links, x, k1);
    } else {
        assert forall|i: nat| i <= k implies #[trigger] up(p, x, i) is Some by {
            if up(p, x, i) is None {
                lemma_up_none_stays(p, x, i, k);
            }
        }
        let nodes = Seq::new(k, |i: int| up(p, x, i as nat)->0);
        assert forall|i: int| 0 <= i < nodes.len() implies link_sources(links).to_set().contains(#[trigger] nodes[i]) by {
            assert(up(p, x, i as nat) is Some);
            assert(up(p, x, (i + 1) as nat) is Some);
            lemma_up_step(p, x, i as nat);
            lemma_parent_in_sources(links, nodes[i]);
        }
        assert forall|i: int, j: int| 0 <= i < nodes.len() && 0 <= j < nodes.len() && i != j implies nodes[i]
            != nodes[j] by {
            if nodes[i] == nodes[j] {
                let (a, b) = if i < j { (i, j) } else { (j, i) };
                assert(up(p, x, a as nat) is Some);
                assert(up(p, x, b as nat) is Some);
                lemma_up_compose(p, x, b as nat, (k - b) as nat);
                lemma_up_compose(p, x, a as nat, (k - b) as nat);
                assert(b as nat + (k - b) as nat == k);
                let k1 = (a + (k - b)) as nat;
                assert(up(p, x, k1) == Some(x));
                assert(1 <= k1 < k);
            }
        }
        assert(nodes.no_duplicates());
        nodes.unique_seq_to_set();
        link_sources(links).lemma_cardinality_of_set();
        assert(nodes.to_set().subset_of(link_sources(links).to_set()));
        vstd::set_lib::lemma_len_subset(nodes.to_set(), link_sources(links).to_set());
        assert(up(p, x, k) == Some(x));
    }
}

/// A cycle passes through the source of some link.
proof fn lemma_cycle_through_source(links: Seq<(u64, u64)>, x: u64, k: nat)
    requires
        k >= 1,
        up(parent_fn(links), x, k) == Some(x),
    ensures
        has_link(links, x),
{
    let p = parent_fn(links);
    lemma_up_compose(p, x, 1, (k - 1) as nat);
    lemma_up_step(p, x, 0);
    assert(1 + (k - 1) as nat == k);
    if !has_link(links, x) {
        assert(up(p, x, 1) is None);
    }
}

// ---------------------------------------------------------------------------
// Relation kinds.

/// Model of a relation kind.
pub struct KindV {
    pub tag: Seq<char>,
    pub acyclic: bool,
    pub on_target_despawn: Cascade,
    pub emits_movement: bool,
}

/// A relationship kind: the tag of its forward link, whether it must stay
/// tree-shaped, what its sources do when their target dies, and whether a
/// change to it is a spatial move.
#[derive(Debug)]
pub struct RelationKind {
    tag: String,
    acyclic: bool,
    on_target_despawn: Cascade,
    emits_movement: bool,
}

impl View for RelationKind {
    type V = KindV;

    closed spec fn view(&self) -> KindV {
        KindV {
            tag: self.tag@,
            acyclic: self.acyclic,
            on_target_despawn: self.on_target_despawn,
            emits_movement: self.emits_movement,
        }
    }
}

impl RelationKind {
    pub fn new(tag: &str, acyclic: bool, on_target_despawn: Cascade, emits_movement: bool) -> (r: Self)
        ensures
            r@ == (KindV { tag: tag@, acyclic, on_target_despawn, emits_movement }),
    {
        RelationKind { tag: tag.to_owned(), acyclic, on_target_despawn, emits_movement }
    }

    /// The serialization tag of the forward link.
    pub fn tag(&self) -> (r: &str)
        ensures
            r@ == self@.tag,
    {
        self.tag.as_str()
    }

    /// Whether links that would close a cycle are refused.
    pub fn acyclic(&self) -> (r: bool)
        ensures
            r == self@.acyclic,
    {
        self.acyclic
    }

    /// What the sources of a despawned target do.
    pub fn on_target_despawn(&self) -> (r: Cascade)
        ensures
            r == self@.on_target_despawn,
    {
        self.on_target_despawn
    }

    /// Whether a change to this relation is a spatial move.
    pub fn emits_movement(&self) -> (r: bool)
        ensures
            r == self@.emits_movement,
    {
        self.emits_movement
    }
}

/// The containment hierarchy: rooms, containers, and inventories. A thing's
/// target is the container it sits in.
pub struct Containment;

impl Containment {
    pub fn kind() -> (r: RelationKind)
        ensures
            r@ == (KindV {
                tag: "contained_by"@,
                acyclic: true,
                on_target_despawn: Cascade::Reparent,
                emits_movement: true,
            }),
    {
        RelationKind::new("contained_by", true, Cascade::Reparent, true)
    }
}

/// The control wiring: which controller an entity may be driven by. A
/// controller's death detaches what it controlled.
pub struct Controls;

impl Controls {
    pub fn kind() -> (r: RelationKind)
        ensures
            r@ == (KindV {
                tag: "controlled_by"@,
                acyclic: true,
                on_target_despawn: Cascade::Detach,
                emits_movement: false,
            }),
    {
        RelationKind::new("controlled_by", true, Cascade::Detach, false)
    }
}

/// The control cursor: the entity in a controller's chain its input is live on.
pub struct Focus;

impl Focus {
    pub fn kind() -> (r: RelationKind)
        ensures
            r@ == (KindV { tag: "focus"@, acyclic: true, on_target_despawn: Cascade::Detach, emits_movement: false }),
    {
        RelationKind::new("focus", true, Cascade::Detach, false)
    }
}

/// An exit's origin: source = the exit, target = the room it leads out of.
pub struct LeadsFrom;

impl LeadsFrom {
    pub fn kind() -> (r: RelationKind)
        ensures
            r@ == (KindV {
                tag: "leads_from"@,
                acyclic: false,
                on_target_despawn: Cascade::DespawnSources,
                emits_movement: false,
            }),
    {
        RelationKind::new("leads_from", false, Cascade::DespawnSources, false)
    }
}

/// An exit's destination: source = the exit, target = the room it leads into.
pub struct LeadsTo;

impl LeadsTo {
    pub fn kind() -> (r: RelationKind)
        ensures
            r@ == (KindV {
                tag: "leads_to"@,
                acyclic: false,
                on_target_despawn: Cascade::DespawnSources,
                emits_movement: false,
            }),
    {
        RelationKind::new("leads_to", false, Cascade::DespawnSources, false)
    }
}

// ---------------------------------------------------------------------------
// One relation's links.

/// Model of one relation: its kind and its links.
pub struct GraphV {
    pub kind: KindV,
    pub links: Seq<(u64, u64)>,
}

/// The links of one relation kind. Each source has at most one target; a
/// tree-shaped kind never holds a cycle.
#[derive(Debug)]
pub struct RelationGraph {
    kind: RelationKind,
    links: Vec<(EntityId, EntityId)>,
}

impl View for RelationGraph {
    type V = GraphV;

    closed spec fn view(&self) -> GraphV {
        GraphV { kind: self.kind@, links: links_view(self.links@) }
    }
}

/// The target function of a relation.
pub open spec fn targets(g: GraphV) -> spec_fn(u64) -> Option<u64> {
    parent_fn(g.links)
}

impl RelationGraph {
    #[verifier::type_invariant]
    spec fn inv(self) -> bool {
        &&& sources_unique(links_view(self.links@))
        &&& self.kind@.acyclic ==> no_cycle(parent_fn(links_view(self.links@)))
    }

    /// Every relation keeps one target per source, and a tree-shaped one never
    /// holds a cycle.
    pub fn check_wf(&self)
        ensures
            sources_unique(self@.links),
            self@.kind.acyclic ==> no_cycle(targets(self@)),
    {
        proof {
            use_type_invariant(self);
        }
    }

    /// A relation of `kind` with no links.
    pub fn new(kind: RelationKind) -> (r: Self)
        ensures
            r@ == (GraphV { kind: kind@, links: Seq::empty() }),
    {
        let r = RelationGraph { kind, links: Vec::new() };
        assert(links_view(r.links@) =~= Seq::empty());
        r
    }

    pub fn kind(&self) -> (r: &RelationKind)
        ensures
            r@ == self@.kind,
    {
        &self.kind
    }

    /// The target `source` points at, if any.
    pub fn target_of(&self, source: EntityId) -> (r: Option<EntityId>)
        ensures
            opt_id(r) == parent_of(self@.links, source.0),
    {
        match find_link(&self.links, source) {
            Some(i) => {
                proof {
                    use_type_invariant(self);
                    let lv = links_view(self.links@);
                    assert(lv[i as int].0 == source.0);
                    let k = choose|k: int| 0 <= k < lv.len() && #[trigger] lv[k].0 == source.0;
                    assert(k == i);
                }
                Some(self.links[i].1)
            },
            None => None,
        }
    }

    /// A target's sources, each once. The order is unspecified.
    pub fn sources_of(&self, target: EntityId) -> (r: Vec<EntityId>)
        ensures
            ids_view(r@).no_duplicates(),
            forall|s: u64| ids_view(r@).contains(s) <==> parent_of(self@.links, s) == Some(target.0),
    {
        proof {
            use_type_invariant(self);
        }
        let ghost lv = links_view(self.links@);
        let mut out: Vec<EntityId> = Vec::new();
        let mut i: usize = 0;
        while i < self.links.len()
            invariant
                lv == links_view(self.links@),
                sources_unique(lv),
                i <= lv.len(),
                ids_view(out@).no_duplicates(),
                forall|s: u64| ids_view(out@).contains(s) <==> exists|j: int| 0 <= j < i && #[trigger] lv[j] == (s, target.0),
            decreases self.links.len() - i,
        {
            let l = self.links[i];
            if l.1.0 == target.0 {
                let ghost before = ids_view(out@);
                out.push(l.0);
                proof {
                    assert(ids_view(out@) =~= before.push(l.0.0));
                    assert(lv[i as int] == (l.0.0, target.0));
                    if before.contains(l.0.0) {
                        let j = choose|j: int| 0 <= j < i && #[trigger] lv[j] == (l.0.0, target.0);
                        assert(lv[j].0 == lv[i as int].0);
                    }
                    assert forall|s: u64| ids_view(out@).contains(s) implies exists|j: int|
                        0 <= j < i + 1 && #[trigger] lv[j] == (s, target.0) by {
                        if s != l.0.0 {
                            let k = choose|k: int| 0 <= k < ids_view(out@).len() && ids_view(out@)[k] == s;
                            assert(k < before.len());
                            assert(before[k] == s);
                            assert(before.contains(s));
                            let j = choose|j: int| 0 <= j < i && #[trigger] lv[j] == (s, target.0);
                            assert(0 <= j < i + 1 && lv[j] == (s, target.0));
                        } else {
                            assert(lv[i as int] == (s, target.0));
                        }
                    }
                    assert forall|s: u64| (exists|j: int| 0 <= j < i + 1 && #[trigger] lv[j] == (s, target.0)) implies
                        ids_view(out@).contains(s) by {
                        let j = choose|j: int| 0 <= j < i + 1 && #[trigger] lv[j] == (s, target.0);
                        if j < i {
                            assert(before.contains(s));
                            let k = choose|k: int| 0 <= k < before.len() && before[k] == s;
                            assert(ids_view(out@)[k] == s);
                        } else {
                            assert(ids_view(out@)[before.len() as int] == s);
                        }
                    }
                }
            } else {
                proof {
                    assert forall|s: u64| ids_view(out@).contains(s) <==> exists|j: int|
                        0 <= j < i + 1 && #[trigger] lv[j] == (s, target.0) by {
                        if exists|j: int| 0 <= j < i + 1 && #[trigger] lv[j] == (s, target.0) {
                            let j = choose|j: int| 0 <= j < i + 1 && #[trigger] lv[j] == (s, target.0);
                            assert(j != i);
                        }
                    }
                }
            }
            i = i + 1;
        }
        proof {
            assert forall|s: u64| ids_view(out@).contains(s) <==> parent_of(lv, s) == Some(target.0) by {
                if exists|j: int| 0 <= j < lv.len() && #[trigger] lv[j] == (s, target.0) {
                    let j = choose|j: int| 0 <= j < lv.len() && #[trigger] lv[j] == (s, target.0);
                    assert(lv[j].0 == s);
                    let k = choose|k: int| 0 <= k < lv.len() && #[trigger] lv[k].0 == s;
                    assert(k == j);
                }
                if parent_of(lv, s) == Some(target.0) {
                    let k = choose|k: int| 0 <= k < lv.len() && #[trigger] lv[k].0 == s;
                    assert(lv[k] == (s, target.0));
                }
            }
        }
        out
    }

    /// The ancestor chain of `start`, nearest first, up to a root.
    pub fn ancestors(&self, start: EntityId) -> (r: Vec<EntityId>)
        requires
            self@.kind.acyclic,
        ensures
            ids_view(r@) == chain(targets(self@), start.0, (self@.links.len() + 1) as nat),
            up(targets(self@), start.0, r@.len() + 1) is None,
    {
        proof {
            use_type_invariant(self);
        }
        let ghost p = targets(self@);
        let ghost n = self@.links.len();
        let mut out: Vec<EntityId> = Vec::new();
        let mut cur = self.target_of(start);
        proof {
            lemma_up_step(p, start.0, 0);
        }
        loop
            invariant
                p == targets(self@),
                n == self@.links.len(),
                no_cycle(p),
                out@.len() <= n,
                forall|i: int| 0 <= i < out@.len() ==> #[trigger] up(p, start.0, (i + 1) as nat) == Some(ids_view(out@)[i]),
                opt_id(cur) == up(p, start.0, out@.len() + 1),
            ensures
                out@.len() <= n,
                forall|i: int| 0 <= i < out@.len() ==> #[trigger] up(p, start.0, (i + 1) as nat) == Some(ids_view(out@)[i]),
                up(p, start.0, out@.len() + 1) is None,
            decreases n - out@.len(),
        {
            match cur {
                None => {
                    break;
                },
                Some(c) => {
                    proof {
                        lemma_walk_bounded(self@.links, start.0);
                        if out@.len() + 1 >= n + 1 {
                            lemma_up_none_stays(p, start.0, n + 1, out@.len() + 1);
                        }
                    }
                    let ghost before = ids_view(out@);
                    out.push(c);
                    proof {
                        assert(ids_view(out@) =~= before.push(c.0));
                    }
                    cur = self.target_of(c);
                    proof {
                        lemma_up_step(p, start.0, out@.len());
                    }
                },
            }
        }
        proof {
            lemma_chain_is_walk(p, start.0, n + 1, ids_view(out@));
        }
        out
    }

    /// Whether following targets from `from` reaches `to`.
    fn reaches_from(&self, from: EntityId, to: EntityId) -> (r: bool)
        requires
            self@.kind.acyclic,
        ensures
            r == reaches(targets(self@), from.0, to.0),
    {
        proof {
            use_type_invariant(self);
        }
        let ghost p = targets(self@);
        let ghost n = self@.links.len();
        let mut cur: Option<EntityId> = Some(from);
        let ghost mut steps: nat = 0;
        proof {
            lemma_walk_bounded(self@.links, from.0);
        }
        loop
            invariant
                p == targets(self@),
                n == self@.links.len(),
                up(p, from.0, n + 1) is None,
                steps <= n + 1,
                opt_id(cur) == up(p, from.0, steps),
                forall|i: nat| i < steps ==> #[trigger] up(p, from.0, i) != Some(to.0),
            decreases n + 1 - steps,
        {
            match cur {
                None => {
                    proof {
                        assert forall|k: nat| #[trigger] up(p, from.0, k) != Some(to.0) by {
                            if k >= steps {
                                lemma_up_none_stays(p, from.0, steps, k);
                            }
                        }
                    }
                    return false;
                },
                Some(c) => {
                    if c.0 == to.0 {
                        return true;
                    }
                    proof {
                        if steps >= n + 1 {
                            lemma_up_none_stays(p, from.0, n + 1, steps);
                        }
                        lemma_up_step(p, from.0, steps);
                    }
                    cur = self.target_of(c);
                    proof {
                        steps = steps + 1;
                    }
                },
            }
        }
    }

    /// Point `source` at `target`. Both must be live; a tree-shaped kind
    /// refuses a link that would close a cycle. Re-pointing replaces the old link.
    pub fn relate(&mut self, live: &[EntityId], source: EntityId, target: EntityId) -> (r: Result<(), RelationError>)
        ensures
            final(self)@.kind == old(self)@.kind,
            !ids_view(live@).contains(source.0) ==> (r matches Err(RelationError::NoSuchEntity { kind, role, entity })
                && kind@ == old(self)@.kind.tag && role == RelationRole::Source && entity == source),
            ids_view(live@).contains(source.0) && !ids_view(live@).contains(target.0) ==> (r matches Err(
                RelationError::NoSuchEntity { kind, role, entity },
            ) && kind@ == old(self)@.kind.tag && role == RelationRole::Target && entity == target),
            ids_view(live@).contains(source.0) && ids_view(live@).contains(target.0) && old(self)@.kind.acyclic
                && reaches(targets(old(self)@), target.0, source.0) ==> (r matches Err(
                RelationError::Cycle { kind, source: s, target: t },
            ) && kind@ == old(self)@.kind.tag && s == source && t == target),
            r is Ok <==> ids_view(live@).contains(source.0) && ids_view(live@).contains(target.0) && !(
            old(self)@.kind.acyclic && reaches(targets(old(self)@), target.0, source.0)),
            r is Err ==> final(self)@ == old(self)@,
            r is Ok ==> forall|y: u64| #[trigger] parent_of(final(self)@.links, y) == if y == source.0 {
                Some(target.0)
            } else {
                parent_of(old(self)@.links, y)
            },
    {
        if !contains_id(live, source) {
            return Err(RelationError::NoSuchEntity {
                kind: self.kind.tag.clone(),
                role: RelationRole::Source,
                entity: source,
            });
        }
        if !contains_id(live, target) {
            return Err(RelationError::NoSuchEntity {
                kind: self.kind.tag.clone(),
                role: RelationRole::Target,
                entity: target,
            });
        }
        if self.kind.acyclic && self.reaches_from(target, source) {
            return Err(RelationError::Cycle { kind: self.kind.tag.clone(), source, target });
        }
        proof {
            use_type_invariant(&*self);
        }
        let ghost p = targets(self@);
        let mut links: Vec<(EntityId, EntityId)> = Vec::new();
        std::mem::swap(&mut links, &mut self.links);
        set_link(&mut links, source, target);
        proof {
            if self.kind@.acyclic {
                lemma_relink_keeps_acyclic(p, parent_fn(links_view(links@)), source.0, target.0);
            }
        }
        self.links = links;
        Ok(())
    }

    /// Clear `source`'s link, if any.
    pub fn unrelate(&mut self, source: EntityId)
        ensures
            final(self)@.kind == old(self)@.kind,
            forall|y: u64| #[trigger] parent_of(final(self)@.links, y) == if y == source.0 {
                None
            } else {
                parent_of(old(self)@.links, y)
            },
    {
        proof {
            use_type_invariant(&*self);
        }
        let ghost p = targets(self@);
        let mut links: Vec<(EntityId, EntityId)> = Vec::new();
        std::mem::swap(&mut links, &mut self.links);
        remove_link(&mut links, source);
        proof {
            if self.kind@.acyclic {
                lemma_unlink_keeps_acyclic(p, parent_fn(links_view(links@)));
            }
        }
        self.links = links;
    }

    /// Drop `id` from the relation and apply its kind's cascade to the entities
    /// that pointed at it: detach them, point them at `id`'s own target, or hand
    /// them back as the entities to despawn in turn.
    pub fn despawn(&mut self, id: EntityId) -> (r: Vec<EntityId>)
        ensures
            final(self)@.kind == old(self)@.kind,
            parent_of(final(self)@.links, id.0) is None,
            old(self)@.kind.on_target_despawn == Cascade::Detach ==> r@.len() == 0 && forall|y: u64|
                y != id.0 ==> #[trigger] parent_of(final(self)@.links, y) == if parent_of(old(self)@.links, y) == Some(id.0) {
                    None
                } else {
                    parent_of(old(self)@.links, y)
                },
            old(self)@.kind.on_target_despawn == Cascade::Reparent ==> r@.len() == 0 && forall|y: u64|
                y != id.0 ==> #[trigger] parent_of(final(self)@.links, y) == if parent_of(old(self)@.links, y) == Some(id.0) {
                    parent_of(old(self)@.links, id.0)
                } else {
                    parent_of(old(self)@.links, y)
                },
            old(self)@.kind.on_target_despawn == Cascade::DespawnSources ==> (forall|y: u64|
                y != id.0 ==> #[trigger] parent_of(final(self)@.links, y) == parent_of(old(self)@.links, y))
                && ids_view(r@).no_duplicates() && forall|s: u64|
                ids_view(r@).contains(s) <==> s != id.0 && parent_of(old(self)@.links, s) == Some(id.0),
    {
        proof {
            use_type_invariant(&*self);
        }
        let ghost p = targets(self@);
        let old_target = self.target_of(id);
        let mut links: Vec<(EntityId, EntityId)> = Vec::new();
        std::mem::swap(&mut links, &mut self.links);
        remove_link(&mut links, id);
        let ghost p1 = parent_fn(links_view(links@));
        let mut collateral: Vec<EntityId> = Vec::new();
        match self.kind.on_target_despawn {
            Cascade::Detach => {
                clear_target(&mut links, id);
            },
            Cascade::Reparent => {
                match old_target {
                    Some(u) => {
                        redirect(&mut links, id, u);
                    },
                    None => {
                        clear_target(&mut links, id);
                    },
                }
            },
            Cascade::DespawnSources => {},
        }
        proof {
            let q = parent_fn(links_view(links@));
            if self.kind@.acyclic {
                if self.kind@.on_target_despawn == Cascade::Reparent {
                    lemma_reparent_keeps_acyclic(p, q, id.0);
                } else {
                    lemma_unlink_keeps_acyclic(p, q);
                }
            }
        }
        self.links = links;
        if self.kind.on_target_despawn == Cascade::DespawnSources {
            collateral = self.sources_of(id);
        }
        collateral
    }
}


/// Why a loaded snapshot cannot stand.
#[derive(Debug, PartialEq, Eq)]
pub enum LoadError {
    /// The receiving world already holds entity-derived state.
    WorldNotFresh,
    /// Two blobs carry the same entity id.
    DuplicateEntity(EntityId),
    /// A blob's component data is not an object.
    NonObjectBlob { blob_id: EntityId },
    /// A blob's Id component is missing or names another entity.
    IdMismatch { blob_id: EntityId, component_id: Option<EntityId> },
    /// The highest loaded id leaves no successor to allocate.
    IdSpaceExhausted { highest_id: EntityId },
    /// A link points at an entity that is not live.
    DanglingRelation { kind: String, source: EntityId, target: EntityId },
    /// A tree-shaped relation's links close a cycle, listed in link order.
    RelationCycle { kind: String, cycle: Vec<EntityId> },
}

/// Blob `i` repeats the id of an earlier blob.
pub open spec fn repeats_earlier(ids: Seq<u64>, i: int) -> bool {
    exists|j: int| 0 <= j < i && ids[j] == #[trigger] ids[i]
}

/// Blob `i` repeats an earlier id, or its Id component is not its own id.
pub open spec fn identity_fault(ids: Seq<u64>, comps: Seq<Option<u64>>, i: int) -> bool {
    repeats_earlier(ids, i) || comps[i] != Some(ids[i])
}

/// The first blob, in order, with an identity fault.
pub open spec fn first_identity_fault(ids: Seq<u64>, comps: Seq<Option<u64>>, from: nat) -> Option<int>
    decreases ids.len() - from,
{
    if from >= ids.len() {
        None
    } else if identity_fault(ids, comps, from as int) {
        Some(from as int)
    } else {
        first_identity_fault(ids, comps, from + 1)
    }
}

/// The largest id of a nonempty list.
pub open spec fn highest(ids: Seq<u64>) -> u64
    decreases ids.len(),
{
    if ids.len() <= 1 {
        ids[0]
    } else if ids.last() >= highest(ids.drop_last()) {
        ids.last()
    } else {
        highest(ids.drop_last())
    }
}

/// The outcome of the identity checks of a load: the first faulty blob's
/// error; otherwise a highest id of `u64::MAX` leaves no successor; otherwise
/// the id allocation resumes at the larger of `next_id` and one past the
/// highest loaded id (one for an empty snapshot).
pub open spec fn identities_outcome(ids: Seq<u64>, comps: Seq<Option<u64>>, next_id: u64) -> Result<u64, LoadError> {
    match first_identity_fault(ids, comps, 0) {
        Some(i) => if repeats_earlier(ids, i) {
            Err(LoadError::DuplicateEntity(EntityId(ids[i])))
        } else {
            Err(
                LoadError::IdMismatch {
                    blob_id: EntityId(ids[i]),
                    component_id: match comps[i] {
                        Some(c) => Some(EntityId(c)),
                        None => None,
                    },
                },
            )
        },
        None => if ids.len() == 0 {
            Ok(if next_id >= 1 { next_id } else { 1 })
        } else if highest(ids) == u64::MAX {
            Err(LoadError::IdSpaceExhausted { highest_id: EntityId(u64::MAX) })
        } else if next_id >= highest(ids) + 1 {
            Ok(next_id)
        } else {
            Ok((highest(ids) + 1) as u64)
        },
    }
}

proof fn lemma_first_identity_fault(ids: Seq<u64>, comps: Seq<Option<u64>>, from: nat)
    requires
        ids.len() == comps.len(),
    ensures
        match first_identity_fault(ids, comps, from) {
            Some(i) => from <= i < ids.len() && identity_fault(ids, comps, i) && forall|j: int|
                from <= j < i ==> !#[trigger] identity_fault(ids, comps, j),
            None => forall|j: int| from <= j < ids.len() ==> !#[trigger] identity_fault(ids, comps, j),
        },
    decreases ids.len() - from,
{
    if from < ids.len() && !identity_fault(ids, comps, from as int) {
        lemma_first_identity_fault(ids, comps, from + 1);
    }
}

/// Check the identities of a snapshot's blobs, given each blob's id and the
/// entity its Id component names (`None` where it has none), and return the
/// id allocation should resume at.
pub fn check_load_identities(blob_ids: &[EntityId], id_components: &[Option<EntityId>], next_id: u64) -> (r: Result<u64, LoadError>)
    requires
        blob_ids@.len() == id_components@.len(),
    ensures
        r == identities_outcome(
            blob_ids@.map_values(|e: EntityId| e.0),
            id_components@.map_values(|c: Option<EntityId>| match c {
                Some(e) => Some(e.0),
                None => None,
            }),
            next_id,
        ),
{
    let ghost ids = blob_ids@.map_values(|e: EntityId| e.0);
    let ghost comps = id_components@.map_values(|c: Option<EntityId>| match c {
        Some(e) => Some(e.0),
        None => None,
    });
    proof {
        lemma_first_identity_fault(ids, comps, 0);
    }
    let mut top: u64 = 0;
    let mut i: usize = 0;
    while i < blob_ids.len()
        invariant
            i <= blob_ids@.len(),
            blob_ids@.len() == id_components@.len(),
            ids == blob_ids@.map_values(|e: EntityId| e.0),
            comps == id_components@.map_values(|c: Option<EntityId>| match c {
                Some(e) => Some(e.0),
                None => None,
            }),
            forall|j: int| 0 <= j < i ==> !#[trigger] identity_fault(ids, comps, j),
            i > 0 ==> top == highest(ids.take(i as int)),
        decreases blob_ids.len() - i,
    {
        let id = blob_ids[i];
        assert(ids[i as int] == id.0);
        let mut j: usize = 0;
        while j < i
            invariant
                j <= i < blob_ids@.len(),
                blob_ids@.len() == id_components@.len(),
                ids == blob_ids@.map_values(|e: EntityId| e.0),
                comps == id_components@.map_values(|c: Option<EntityId>| match c {
                    Some(e) => Some(e.0),
                    None => None,
                }),
                forall|m: int| 0 <= m < i ==> !#[trigger] identity_fault(ids, comps, m),
                id.0 == ids[i as int],
                forall|m: int| 0 <= m < j ==> ids[m] != ids[i as int],
            decreases i - j,
        {
            assert(ids[j as int] == blob_ids@[j as int].0);
            if blob_ids[j].0 == id.0 {
                proof {
                    assert(repeats_earlier(ids, i as int));
                    lemma_first_identity_fault(ids, comps, 0);
                    lemma_fault_is_first(ids, comps, i as int);
                }
                return Err(LoadError::DuplicateEntity(id));
            }
            j = j + 1;
        }
        assert(!repeats_earlier(ids, i as int));
        assert(comps[i as int] == match id_components@[i as int] {
            Some(e) => Some(e.0),
            None => None,
        });
        let matches = match id_components[i] {
            Some(c) => c.0 == id.0,
            None => false,
        };
        if !matches {
            proof {
                lemma_fault_is_first(ids, comps, i as int);
            }
            return Err(LoadError::IdMismatch { blob_id: id, component_id: id_components[i] });
        }
        proof {
            let t = ids.take(i + 1);
            assert(t.drop_last() =~= ids.take(i as int));
            assert(t.last() == id.0);
        }
        if i == 0 || id.0 > top {
            top = id.0;
        }
        i = i + 1;
    }
    proof {
        assert(ids.take(ids.len() as int) =~= ids);
        assert(first_identity_fault(ids, comps, 0) is None);
    }
    if blob_ids.len() == 0 {
        return Ok(if next_id >= 1 { next_id } else { 1 });
    }
    if top == u64::MAX {
        return Err(LoadError::IdSpaceExhausted { highest_id: EntityId(top) });
    }
    let least = top + 1;
    Ok(if next_id >= least { next_id } else { least })
}

/// A fault at `i` with none before it is the first fault.
proof fn lemma_fault_is_first(ids: Seq<u64>, comps: Seq<Option<u64>>, i: int)
    requires
        ids.len() == comps.len(),
        0 <= i < ids.len(),
        identity_fault(ids, comps, i),
        forall|j: int| 0 <= j < i ==> !#[trigger] identity_fault(ids, comps, j),
    ensures
        first_identity_fault(ids, comps, 0) == Some(i),
{
    lemma_first_identity_fault(ids, comps, 0);
    match first_identity_fault(ids, comps, 0) {
        Some(k) => {
            if k < i {
                assert(!identity_fault(ids, comps, k));
            }
        },
        None => {
            assert(!identity_fault(ids, comps, i));
        },
    }
}

/// The first link, in order, whose target is not live.
pub open spec fn first_dangling(links: Seq<(u64, u64)>, live: Seq<u64>, from: nat) -> Option<int>
    decreases links.len() - from,
{
    if from >= links.len() {
        None
    } else if !live.contains(links[from as int].1) {
        Some(from as int)
    } else {
        first_dangling(links, live, from + 1)
    }
}

proof fn lemma_first_dangling(links: Seq<(u64, u64)>, live: Seq<u64>, from: nat)
    ensures
        match first_dangling(links, live, from) {
            Some(i) => from <= i < links.len() && !live.contains(links[i].1) && forall|j: int|
                from <= j < i ==> live.contains(#[trigger] links[j].1),
            None => forall|j: int| from <= j < links.len() ==> live.contains(#[trigger] links[j].1),
        },
    decreases links.len() - from,
{
    if from < links.len() && live.contains(links[from as int].1) {
        lemma_first_dangling(links, live, from + 1);
    }
}

/// `c` lists a cycle: each entry's target is the next, the last's is the first.
pub open spec fn is_cycle(p: spec_fn(u64) -> Option<u64>, c: Seq<u64>) -> bool {
    &&& c.len() >= 1
    &&& up(p, c[0], c.len()) == Some(c[0])
    &&& forall|i: int| 0 <= i < c.len() ==> #[trigger] up(p, c[0], i as nat) == Some(c[i])
}

/// The target of `x` in a link list with distinct sources.
fn target_in(links: &Vec<(EntityId, EntityId)>, x: EntityId) -> (r: Option<EntityId>)
    requires
        sources_unique(links_view(links@)),
    ensures
        opt_id(r) == parent_of(links_view(links@), x.0),
{
    match find_link(links, x) {
        Some(i) => {
            proof {
                let lv = links_view(links@);
                assert(lv[i as int].0 == x.0);
                let k = choose|k: int| 0 <= k < lv.len() && #[trigger] lv[k].0 == x.0;
                assert(k == i);
            }
            Some(links[i].1)
        },
        None => None,
    }
}

/// The cycle through `x`, starting at `x`, if there is one.
fn cycle_at(links: &Vec<(EntityId, EntityId)>, x: EntityId) -> (r: Option<Vec<EntityId>>)
    requires
        sources_unique(links_view(links@)),
    ensures
        match r {
            Some(c) => is_cycle(parent_fn(links_view(links@)), ids_view(c@)) && c@[0].0 == x.0,
            None => forall|k: nat| k >= 1 ==> #[trigger] up(parent_fn(links_view(links@)), x.0, k) != Some(x.0),
        },
{
    let ghost p = parent_fn(links_view(links@));
    let n = links.len();
    let mut path: Vec<EntityId> = Vec::new();
    path.push(x);
    let mut cur = target_in(links, x);
    let mut k: usize = 1;
    proof {
        lemma_up_step(p, x.0, 0);
    }
    loop
        invariant
            p == parent_fn(links_view(links@)),
            n == links@.len(),
            k == path@.len(),
            1 <= k <= n + 1,
            path@[0].0 == x.0,
            forall|i: int| 0 <= i < k ==> #[trigger] up(p, x.0, i as nat) == Some(ids_view(path@)[i]),
            opt_id(cur) == up(p, x.0, k as nat),
            forall|i: nat| 1 <= i < k ==> #[trigger] up(p, x.0, i) != Some(x.0),
            sources_unique(links_view(links@)),
        decreases n + 1 - k,
    {
        match cur {
            None => {
                proof {
                    assert forall|j: nat| j >= 1 implies #[trigger] up(p, x.0, j) != Some(x.0) by {
                        if j >= k {
                            lemma_up_none_stays(p, x.0, k as nat, j);
                        }
                    }
                }
                return None;
            },
            Some(c) => {
                if c.0 == x.0 {
                    return Some(path);
                }
                if k >= n {
                    proof {
                        assert forall|j: nat| j >= 1 implies #[trigger] up(p, x.0, j) != Some(x.0) by {
                            if up(p, x.0, j) == Some(x.0) {
                                lemma_cycle_within_links(links_view(links@), x.0, j);
                                let j2 = choose|j2: nat| 1 <= j2 <= links_view(links@).len() && #[trigger] up(p, x.0, j2) == Some(x.0);
                                assert(j2 <= k);
                            }
                        }
                    }
                    return None;
                }
                let ghost before = ids_view(path@);
                path.push(c);
                proof {
                    assert(ids_view(path@) =~= before.push(c.0));
                    lemma_up_step(p, x.0, k as nat);
                }
                cur = target_in(links, c);
                k = k + 1;
            },
        }
    }
}

impl RelationGraph {
    /// Rebuild a relation from persisted forward links, one per source. Every
    /// target must be live, and a tree-shaped kind's links must not close a cycle.
    pub fn load(kind: RelationKind, links: Vec<(EntityId, EntityId)>, live: &[EntityId]) -> (r: Result<RelationGraph, LoadError>)
        requires
            sources_unique(links_view(links@)),
        ensures
            match first_dangling(links_view(links@), ids_view(live@), 0) {
                Some(i) => r matches Err(LoadError::DanglingRelation { kind: k, source, target }) && k@ == kind@.tag
                    && source.0 == links_view(links@)[i].0 && target.0 == links_view(links@)[i].1,
                None => if kind@.acyclic && !no_cycle(parent_fn(links_view(links@))) {
                    r matches Err(LoadError::RelationCycle { kind: k, cycle }) && k@ == kind@.tag && is_cycle(
                        parent_fn(links_view(links@)),
                        ids_view(cycle@),
                    )
                } else {
                    r matches Ok(g) && g@ == (GraphV { kind: kind@, links: links_view(links@) })
                },
            },
    {
        let ghost lv = links_view(links@);
        let ghost lives = ids_view(live@);
        let mut i: usize = 0;
        while i < links.len()
            invariant
                lv == links_view(links@),
                lives == ids_view(live@),
                i <= lv.len(),
                forall|j: int| 0 <= j < i ==> lives.contains(#[trigger] lv[j].1),
            decreases links.len() - i,
        {
            if !contains_id(live, links[i].1) {
                proof {
                    lemma_first_dangling(lv, lives, 0);
                    assert(!lives.contains(lv[i as int].1));
                    let f = first_dangling(lv, lives, 0);
                    assert(f is Some);
                    let i2 = f->0;
                    assert(i2 >= i);
                    assert(i2 <= i);
                }
                return Err(LoadError::DanglingRelation {
                    kind: kind.tag.clone(),
                    source: links[i].0,
                    target: links[i].1,
                });
            }
            i = i + 1;
        }
        proof {
            lemma_first_dangling(lv, lives, 0);
            if first_dangling(lv, lives, 0) is Some {
                let i2 = first_dangling(lv, lives, 0)->0;
                assert(lives.contains(lv[i2].1));
            }
        }
        if kind.acyclic {
            let mut j: usize = 0;
            while j < links.len()
                invariant
                    lv == links_view(links@),
                    lives == ids_view(live@),
                    first_dangling(lv, lives, 0) is None,
                    kind@.acyclic,
                    sources_unique(lv),
                    j <= lv.len(),
                    forall|m: int, k: nat| 0 <= m < j && k >= 1 ==> #[trigger] up(parent_fn(lv), lv[m].0, k) != Some(lv[m].0),
                decreases links.len() - j,
            {
                match cycle_at(&links, links[j].0) {
                    Some(c) => {
                        proof {
                            let cv = ids_view(c@);
                            assert(up(parent_fn(lv), cv[0], cv.len()) == Some(cv[0]));
                        }
                        return Err(LoadError::RelationCycle { kind: kind.tag.clone(), cycle: c });
                    },
                    None => {},
                }
                j = j + 1;
            }
            proof {
                assert forall|x: u64, k: nat| k >= 1 implies #[trigger] up(parent_fn(lv), x, k) != Some(x) by {
                    if up(parent_fn(lv), x, k) == Some(x) {
                        lemma_cycle_through_source(lv, x, k);
                        let m = choose|m: int| 0 <= m < lv.len() && #[trigger] lv[m].0 == x;
                        assert(up(parent_fn(lv), lv[m].0, k) != Some(lv[m].0));
                    }
                }
            }
        }
        Ok(RelationGraph { kind, links })
    }
}


/// The first entry of `s` that `marked` holds.
pub open spec fn first_marked(s: Seq<u64>, marked: Seq<u64>) -> Option<u64>
    decreases s.len(),
{
    if s.len() == 0 {
        None
    } else if marked.contains(s[0]) {
        Some(s[0])
    } else {
        first_marked(s.drop_first(), marked)
    }
}

fn find_marked(ids: &Vec<EntityId>, marked: &[EntityId]) -> (r: Option<EntityId>)
    ensures
        opt_id(r) == first_marked(ids_view(ids@), ids_view(marked@)),
{
    let ghost v = ids_view(ids@);
    let ghost m = ids_view(marked@);
    let mut i: usize = 0;
    proof {
        assert(v.skip(0) =~= v);
    }
    while i < ids.len()
        invariant
            v == ids_view(ids@),
            m == ids_view(marked@),
            i <= v.len(),
            first_marked(v, m) == first_marked(v.skip(i as int), m),
        decreases ids.len() - i,
    {
        assert(v.skip(i as int).drop_first() =~= v.skip(i + 1));
        if contains_id(marked, ids[i]) {
            return Some(ids[i]);
        }
        i = i + 1;
    }
    assert(v.skip(i as int).len() == 0);
    None
}

/// The nearest enclosing entity of `entity` that carries the locus marker:
/// the first of its containers, walking outward, that `loci` holds.
pub fn enclosing_locus(containment: &RelationGraph, loci: &[EntityId], entity: EntityId) -> (r: Option<EntityId>)
    requires
        containment@.kind.acyclic,
    ensures
        opt_id(r) == first_marked(
            chain(targets(containment@), entity.0, (containment@.links.len() + 1) as nat),
            ids_view(loci@),
        ),
{
    let ancestors = containment.ancestors(entity);
    find_marked(&ancestors, loci)
}

} // verus!
