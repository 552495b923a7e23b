//! The structural layer of a world: which entities are live, which of them
//! carry the locus marker and what name each is known by, the relations
//! registered over them, and the facts observed since the last drain. Every
//! structural mutation goes through here, so no link ever names a dead entity.

use vstd::prelude::*;
use crate::fact::{lift, locus_in, move_entity, movement, movement_facts, reparent_contents, reparent_facts, DestroyCause, Fact};
use crate::control::{controllers, set_focus, FocusError};
use crate::id::EntityId;
use crate::relation::{
    contains_id, enclosing_locus, ids_view, lemma_up_step, no_cycle, opt_id, parent_of, reaches, targets, up,
    Cascade, Containment, Controls, Focus, GraphV, KindV, RelationError, RelationGraph, RelationKind, RelationRole,
};

verus! {

/// The kind of the containment relation.
pub open spec fn containment_kind() -> KindV {
    KindV { tag: "contained_by"@, acyclic: true, on_target_despawn: Cascade::Reparent, emits_movement: true }
}

/// The kind of the control relation.
pub open spec fn controls_kind() -> KindV {
    KindV { tag: "controlled_by"@, acyclic: true, on_target_despawn: Cascade::Detach, emits_movement: false }
}

/// The kind of the focus relation.
pub open spec fn focus_kind() -> KindV {
    KindV { tag: "focus"@, acyclic: true, on_target_despawn: Cascade::Detach, emits_movement: false }
}

/// No link of `g` starts or ends outside `s`.
pub open spec fn links_within(g: GraphV, s: Set<u64>) -> bool {
    forall|y: u64| #[trigger] parent_of(g.links, y) is Some ==> s.contains(y) && s.contains(parent_of(g.links, y)->0)
}

/// No link of `g` starts or ends at `z`.
pub open spec fn untouched(g: GraphV, z: u64) -> bool {
    forall|y: u64| #[trigger] parent_of(g.links, y) is Some ==> y != z && parent_of(g.links, y) != Some(z)
}

/// The models of a list of relations.
pub open spec fn views(rels: Seq<RelationGraph>) -> Seq<GraphV> {
    rels.map_values(|g: RelationGraph| g@)
}

/// Every relation's links stay within `s`.
pub open spec fn rels_within(rels: Seq<GraphV>, s: Set<u64>) -> bool {
    forall|k: int| 0 <= k < rels.len() ==> links_within(#[trigger] rels[k], s)
}

/// No two relations share a tag.
pub open spec fn tags_distinct(rels: Seq<GraphV>) -> bool {
    forall|i: int, j: int| 0 <= i < rels.len() && 0 <= j < rels.len() && i != j ==> #[trigger] rels[i].kind.tag
        != #[trigger] rels[j].kind.tag
}

/// A relation that reparents its sources is tree-shaped.
pub open spec fn reparent_acyclic(k: KindV) -> bool {
    k.on_target_despawn == Cascade::Reparent ==> k.acyclic
}

/// Every link of `after` leads where its source's link in `before` led, or
/// further up that chain.
pub open spec fn climbs(before: GraphV, after: GraphV) -> bool {
    forall|y: u64| #[trigger] parent_of(after.links, y) is Some ==> parent_of(before.links, y) is Some && reaches(
        targets(before),
        parent_of(before.links, y)->0,
        parent_of(after.links, y)->0,
    )
}

/// Rewiring `before` into `after` gave no entity a link it did not already
/// touch, moved every link only up its own chain, and, in a relation that
/// does not reparent, only dropped links.
pub open spec fn only_loosened(before: GraphV, after: GraphV) -> bool {
    &&& after.kind == before.kind
    &&& forall|z: u64| #![trigger untouched(after, z)] untouched(before, z) ==> untouched(after, z)
    &&& before.kind.on_target_despawn != Cascade::Reparent ==> forall|y: u64| #[trigger] parent_of(after.links, y) is None
        || parent_of(after.links, y) == parent_of(before.links, y)
    &&& climbs(before, after)
}

proof fn lemma_reaches_refl(p: spec_fn(u64) -> Option<u64>, a: u64)
    ensures
        reaches(p, a, a),
{
    assert(up(p, a, 0) == Some(a));
}

proof fn lemma_reaches_step(p: spec_fn(u64) -> Option<u64>, a: u64, b: u64)
    requires
        p(a) == Some(b),
    ensures
        reaches(p, a, b),
{
    lemma_up_step(p, a, 0);
    assert(up(p, a, 1) == Some(b));
}

proof fn lemma_reaches_trans(p: spec_fn(u64) -> Option<u64>, a: u64, b: u64, c: u64)
    requires
        reaches(p, a, b),
        reaches(p, b, c),
    ensures
        reaches(p, a, c),
{
    let i = choose|i: nat| #[trigger] up(p, a, i) == Some(b);
    let m = choose|m: nat| #[trigger] up(p, b, m) == Some(c);
    crate::relation::lemma_up_compose(p, a, i, m);
    assert(up(p, a, i + m) == Some(c));
}

/// A walk in a relation that only climbed is a walk in the original.
proof fn lemma_climbs_reaches(before: GraphV, after: GraphV, u: u64, v: u64, k: nat)
    requires
        climbs(before, after),
        up(targets(after), u, k) == Some(v),
    ensures
        reaches(targets(before), u, v),
    decreases k,
{
    let p = targets(after);
    let q = targets(before);
    if k == 0 {
        assert(u == v);
        lemma_reaches_refl(q, u);
    } else {
        crate::relation::lemma_up_compose(p, u, 1, (k - 1) as nat);
        lemma_up_step(p, u, 0);
        assert(1 + (k - 1) as nat == k);
        let w = p(u)->0;
        assert(parent_of(after.links, u) is Some);
        lemma_climbs_reaches(before, after, w, v, (k - 1) as nat);
        let a = parent_of(before.links, u)->0;
        lemma_reaches_step(q, u, a);
        lemma_reaches_trans(q, u, a, w);
        lemma_reaches_trans(q, u, w, v);
    }
}

proof fn lemma_climbs_trans(a: GraphV, b: GraphV, c: GraphV)
    requires
        climbs(a, b),
        climbs(b, c),
    ensures
        climbs(a, c),
{
    assert forall|y: u64| #[trigger] parent_of(c.links, y) is Some implies parent_of(a.links, y) is Some && reaches(
        targets(a),
        parent_of(a.links, y)->0,
        parent_of(c.links, y)->0,
    ) by {
        let t = parent_of(c.links, y)->0;
        let s = parent_of(b.links, y)->0;
        let r = parent_of(a.links, y)->0;
        let k = choose|k: nat| #[trigger] up(targets(b), s, k) == Some(t);
        lemma_climbs_reaches(a, b, s, t, k);
        lemma_reaches_trans(targets(a), r, s, t);
    }
}

/// Dropping links or keeping them where they are only climbs.
proof fn lemma_climbs_by_dropping(before: GraphV, after: GraphV)
    requires
        forall|y: u64| #[trigger] parent_of(after.links, y) is None || parent_of(after.links, y) == parent_of(before.links, y),
    ensures
        climbs(before, after),
{
    assert forall|y: u64| #[trigger] parent_of(after.links, y) is Some implies parent_of(before.links, y) is Some && reaches(
        targets(before),
        parent_of(before.links, y)->0,
        parent_of(after.links, y)->0,
    ) by {
        lemma_reaches_refl(targets(before), parent_of(before.links, y)->0);
    }
}

/// The name recorded for `x`, the first one listed.
pub open spec fn name_in(names: Seq<(u64, Seq<char>)>, x: u64) -> Option<Seq<char>>
    decreases names.len(),
{
    if names.len() == 0 {
        None
    } else if names[0].0 == x {
        Some(names[0].1)
    } else {
        name_in(names.drop_first(), x)
    }
}

/// Model of a name list.
pub open spec fn names_model(v: Seq<(EntityId, String)>) -> Seq<(u64, Seq<char>)> {
    v.map_values(|p: (EntityId, String)| (p.0.0, p.1@))
}

/// The view of an optional string.
pub open spec fn opt_text(o: Option<String>) -> Option<Seq<char>> {
    match o {
        Some(s) => Some(s@),
        None => None,
    }
}

/// The position of the relation tagged `tag`, if any.
pub open spec fn tag_at(rels: Seq<GraphV>, tag: Seq<char>, i: int) -> bool {
    0 <= i < rels.len() && rels[i].kind.tag == tag
}

/// Whether a relation tagged `tag` is registered.
pub open spec fn has_tag(rels: Seq<GraphV>, tag: Seq<char>) -> bool {
    exists|i: int| #[trigger] tag_at(rels, tag, i)
}

// ---------------------------------------------------------------------------
// What one relation's despawn does to its links.

proof fn lemma_despawn_effects(before: GraphV, after: GraphV, id: u64, s: Set<u64>)
    requires
        after.kind == before.kind,
        parent_of(after.links, id) is None,
        parent_of(before.links, id) != Some(id),
        before.kind.on_target_despawn == Cascade::Detach ==> forall|y: u64|
            y != id ==> #[trigger] parent_of(after.links, y) == if parent_of(before.links, y) == Some(id) {
                None
            } else {
                parent_of(before.links, y)
            },
        before.kind.on_target_despawn == Cascade::Reparent ==> forall|y: u64|
            y != id ==> #[trigger] parent_of(after.links, y) == if parent_of(before.links, y) == Some(id) {
                parent_of(before.links, id)
            } else {
                parent_of(before.links, y)
            },
        before.kind.on_target_despawn == Cascade::DespawnSources ==> forall|y: u64|
            y != id ==> #[trigger] parent_of(after.links, y) == parent_of(before.links, y),
        links_within(before, s),
    ensures
        only_loosened(before, after),
        links_within(after, s),
        before.kind.on_target_despawn != Cascade::DespawnSources ==> untouched(after, id),
{
    assert forall|z: u64| #![trigger untouched(after, z)] untouched(before, z) implies untouched(after, z) by {
        assert forall|y: u64| #[trigger] parent_of(after.links, y) is Some implies y != z && parent_of(after.links, y)
            != Some(z) by {
            assert(y != id);
            if parent_of(before.links, y) == Some(id) && before.kind.on_target_despawn == Cascade::Reparent {
                assert(parent_of(before.links, y) is Some);
                assert(parent_of(before.links, id) is Some);
            } else {
                assert(parent_of(before.links, y) is Some);
            }
        }
    }
    assert forall|y: u64| #[trigger] parent_of(after.links, y) is Some implies s.contains(y) && s.contains(
        parent_of(after.links, y)->0,
    ) by {
        assert(y != id);
        assert(parent_of(before.links, y) is Some);
        if parent_of(before.links, y) == Some(id) && before.kind.on_target_despawn == Cascade::Reparent {
            assert(parent_of(before.links, id) is Some);
        }
    }
    assert forall|y: u64| #[trigger] parent_of(after.links, y) is Some implies parent_of(before.links, y) is Some
        && reaches(targets(before), parent_of(before.links, y)->0, parent_of(after.links, y)->0) by {
        assert(y != id);
        if parent_of(before.links, y) == Some(id) && before.kind.on_target_despawn == Cascade::Reparent {
            lemma_reaches_step(targets(before), id, parent_of(before.links, id)->0);
        } else {
            lemma_reaches_refl(targets(before), parent_of(before.links, y)->0);
        }
    }
    if before.kind.on_target_despawn != Cascade::DespawnSources {
        assert forall|y: u64| #[trigger] parent_of(after.links, y) is Some implies y != id && parent_of(after.links, y)
            != Some(id) by {
            assert(y != id);
        }
    }
}


/// In a relation that despawns its sources, a link dropped between `before`
/// and `after` belonged to an entity no longer in `live`.
pub open spec fn dropped_sources_dead(before: GraphV, after: GraphV, live: Set<u64>) -> bool {
    before.kind.on_target_despawn == Cascade::DespawnSources ==> forall|y: u64|
        #[trigger] parent_of(after.links, y) is None && parent_of(before.links, y) is Some ==> !live.contains(y)
}

proof fn lemma_dropped_trans(a: GraphV, b: GraphV, c: GraphV, live_b: Set<u64>, live_c: Set<u64>)
    requires
        a.kind == b.kind,
        dropped_sources_dead(a, b, live_b),
        dropped_sources_dead(b, c, live_c),
        live_c.subset_of(live_b),
    ensures
        dropped_sources_dead(a, c, live_c),
{
    if a.kind.on_target_despawn == Cascade::DespawnSources {
        assert forall|y: u64| #[trigger] parent_of(c.links, y) is None && parent_of(a.links, y) is Some implies !live_c.contains(y) by {
            if parent_of(b.links, y) is None {
                assert(!live_b.contains(y));
            }
        }
    }
}

proof fn lemma_loosened_trans(a: GraphV, b: GraphV, c: GraphV)
    requires
        only_loosened(a, b),
        only_loosened(b, c),
    ensures
        only_loosened(a, c),
{
    lemma_climbs_trans(a, b, c);
    assert forall|z: u64| #![trigger untouched(c, z)] untouched(a, z) implies untouched(c, z) by {
        assert(untouched(b, z));
    }
    if a.kind.on_target_despawn != Cascade::Reparent {
        assert forall|y: u64| #[trigger] parent_of(c.links, y) is None || parent_of(c.links, y) == parent_of(a.links, y) by {
            if parent_of(c.links, y) is Some {
                assert(parent_of(b.links, y) is Some);
            }
        }
    }
}

proof fn lemma_loosened_refl(a: GraphV)
    ensures
        only_loosened(a, a),
{
    lemma_climbs_by_dropping(a, a);
}

/// Links that avoid `z` and lie within `s` lie within `s` without `z`.
proof fn lemma_within_untouched(g: GraphV, s: Set<u64>, z: u64)
    requires
        links_within(g, s),
        untouched(g, z),
    ensures
        links_within(g, s.remove(z)),
{
    assert forall|y: u64| #[trigger] parent_of(g.links, y) is Some implies s.remove(z).contains(y) && s.remove(
        z,
    ).contains(parent_of(g.links, y)->0) by {
        assert(parent_of(g.links, y) != Some(z));
    }
}

// ---------------------------------------------------------------------------
// Small list helpers.

/// Drop `id` from a list of distinct ids.
fn remove_id(live: &mut Vec<EntityId>, id: EntityId)
    requires
        ids_view(old(live)@).no_duplicates(),
        ids_view(old(live)@).contains(id.0),
    ensures
        ids_view(final(live)@).no_duplicates(),
        ids_view(final(live)@).to_set() == ids_view(old(live)@).to_set().remove(id.0),
        final(live)@.len() == old(live)@.len() - 1,
{
    let ghost before = ids_view(live@);
    let mut i: usize = 0;
    while i < live.len() && live[i].0 != id.0
        invariant
            before == ids_view(live@),
            before.contains(id.0),
            i <= live@.len(),
            forall|j: int| 0 <= j < i ==> live@[j].0 != id.0,
        decreases live.len() - i,
    {
        i = i + 1;
    }
    if i >= live.len() {
        proof {
            let k = choose|k: int| 0 <= k < before.len() && before[k] == id.0;
            assert(live@[k].0 == id.0);
        }
    }
    live.remove(i);
    proof {
        let after = ids_view(live@);
        assert(after =~= before.remove(i as int));
        assert(before[i as int] == id.0);
        assert forall|a: int, b: int| 0 <= a < after.len() && 0 <= b < after.len() && a != b implies after[a]
            != after[b] by {
            let a2 = if a < i { a } else { a + 1 };
            let b2 = if b < i { b } else { b + 1 };
            assert(after[a] == before[a2] && after[b] == before[b2]);
        }
        assert forall|x: u64| after.to_set().contains(x) <==> before.to_set().remove(id.0).contains(x) by {
            if after.contains(x) {
                let a = choose|a: int| 0 <= a < after.len() && after[a] == x;
                let a2 = if a < i { a } else { a + 1 };
                assert(before[a2] == x);
                assert(a2 != i);
            }
            if before.contains(x) && x != id.0 {
                let b = choose|b: int| 0 <= b < before.len() && before[b] == x;
                assert(b != i);
                let b2 = if b < i { b } else { b - 1 };
                assert(after[b2] == x);
            }
        }
        assert(after.to_set() =~= before.to_set().remove(id.0));
    }
}

/// The name recorded for `x`.
fn name_of(names: &[(EntityId, String)], x: EntityId) -> (r: Option<String>)
    ensures
        opt_text(r) == name_in(names_model(names@), x.0),
{
    let ghost nm = names_model(names@);
    let mut i: usize = 0;
    proof {
        assert(nm.skip(0) =~= nm);
    }
    while i < names.len()
        invariant
            nm == names_model(names@),
            i <= nm.len(),
            name_in(nm, x.0) == name_in(nm.skip(i as int), x.0),
        decreases names.len() - i,
    {
        assert(nm.skip(i as int).drop_first() =~= nm.skip(i + 1));
        if names[i].0.0 == x.0 {
            return Some(names[i].1.clone());
        }
        i = i + 1;
    }
    assert(nm.skip(i as int).len() == 0);
    None
}

/// The position of the relation tagged `tag`.
fn find_tag(rels: &Vec<RelationGraph>, tag: &str) -> (r: Option<usize>)
    requires
        tags_distinct(views(rels@)),
    ensures
        match r {
            Some(i) => tag_at(views(rels@), tag@, i as int),
            None => !has_tag(views(rels@), tag@),
        },
        forall|i: int| #[trigger] tag_at(views(rels@), tag@, i) ==> r == Some(i as usize),
{
    let ghost vs = views(rels@);
    let mut i: usize = 0;
    while i < rels.len()
        invariant
            vs == views(rels@),
            tags_distinct(vs),
            i <= rels@.len(),
            forall|j: int| 0 <= j < i ==> vs[j].kind.tag != tag@,
        decreases rels.len() - i,
    {
        if crate::text::str_eq(rels[i].kind().tag(), tag) {
            proof {
                assert(vs[i as int] == rels@[i as int]@);
                assert(tag_at(vs, tag@, i as int));
                assert forall|j: int| #[trigger] tag_at(vs, tag@, j) implies j == i by {
                    if j != i {
                        assert(vs[j].kind.tag != vs[i as int].kind.tag);
                    }
                }
            }
            return Some(i);
        }
        proof {
            assert(vs[i as int] == rels@[i as int]@);
        }
        i = i + 1;
    }
    proof {
        assert forall|j: int| !#[trigger] tag_at(vs, tag@, j) by {}
    }
    None
}

// ---------------------------------------------------------------------------
// The despawn cascade.

/// `x` falls with `id` within `n` steps: it is `id`, or it is a source, in a
/// relation whose sources are despawned with their target, of something that
/// falls with `id` within one step fewer.
pub open spec fn falls_within(rs: Seq<GraphV>, id: u64, x: u64, n: nat) -> bool
    decreases n,
{
    x == id || (n > 0 && exists|k: int|
        0 <= k < rs.len() && rs[k].kind.on_target_despawn == Cascade::DespawnSources && #[trigger] parent_of(
            rs[k].links,
            x,
        ) is Some && falls_within(rs, id, parent_of(rs[k].links, x)->0, (n - 1) as nat))
}

/// Despawning `id` under the relations `rs` takes `x` with it.
pub open spec fn falls_with(rs: Seq<GraphV>, id: u64, x: u64) -> bool {
    exists|n: nat| #[trigger] falls_within(rs, id, x, n)
}

/// Dropping links of relations that do not reparent keeps every chain of
/// falling entities that the later relations still hold.
proof fn lemma_falls_within_loosened(before: Seq<GraphV>, after: Seq<GraphV>, id: u64, x: u64, n: nat)
    requires
        before.len() == after.len(),
        forall|k: int| 0 <= k < before.len() ==> only_loosened(#[trigger] before[k], after[k]),
        falls_within(after, id, x, n),
    ensures
        falls_within(before, id, x, n),
    decreases n,
{
    if x != id {
        let k = choose|k: int|
            0 <= k < after.len() && after[k].kind.on_target_despawn == Cascade::DespawnSources && #[trigger] parent_of(
                after[k].links,
                x,
            ) is Some && falls_within(after, id, parent_of(after[k].links, x)->0, (n - 1) as nat);
        assert(only_loosened(before[k], after[k]));
        assert(parent_of(after[k].links, x) == parent_of(before[k].links, x));
        lemma_falls_within_loosened(before, after, id, parent_of(after[k].links, x)->0, (n - 1) as nat);
    }
}

/// Once `id` is gone, a rewiring that dropped only links whose sources are
/// gone too, and kept every link within what is live, has taken everything
/// that falls with `id`.
proof fn lemma_falls_within_gone(
    before: Seq<GraphV>,
    after: Seq<GraphV>,
    live: Set<u64>,
    id: u64,
    x: u64,
    n: nat,
)
    requires
        before.len() == after.len(),
        forall|k: int| 0 <= k < before.len() ==> only_loosened(#[trigger] before[k], after[k]),
        forall|k: int| 0 <= k < before.len() ==> dropped_sources_dead(#[trigger] before[k], after[k], live),
        rels_within(after, live),
        !live.contains(id),
        falls_within(before, id, x, n),
    ensures
        !live.contains(x),
    decreases n,
{
    if x != id {
        let k = choose|k: int|
            0 <= k < before.len() && before[k].kind.on_target_despawn == Cascade::DespawnSources && #[trigger] parent_of(
                before[k].links,
                x,
            ) is Some && falls_within(before, id, parent_of(before[k].links, x)->0, (n - 1) as nat);
        let y = parent_of(before[k].links, x)->0;
        lemma_falls_within_gone(before, after, live, id, y, (n - 1) as nat);
        assert(only_loosened(before[k], after[k]));
        assert(dropped_sources_dead(before[k], after[k], live));
        assert(links_within(after[k], live));
        if parent_of(after[k].links, x) is Some {
            assert(parent_of(after[k].links, x) == parent_of(before[k].links, x));
        }
    }
}

/// What falls with a source of `id` in a despawning relation falls with `id`.
proof fn lemma_falls_within_source(rs: Seq<GraphV>, id: u64, src: u64, j: int, x: u64, n: nat)
    requires
        0 <= j < rs.len(),
        rs[j].kind.on_target_despawn == Cascade::DespawnSources,
        parent_of(rs[j].links, src) == Some(id),
        falls_within(rs, src, x, n),
    ensures
        falls_within(rs, id, x, n + 1),
    decreases n,
{
    if x == src {
        assert(falls_within(rs, id, id, n));
    } else {
        let k = choose|k: int|
            0 <= k < rs.len() && rs[k].kind.on_target_despawn == Cascade::DespawnSources && #[trigger] parent_of(
                rs[k].links,
                x,
            ) is Some && falls_within(rs, src, parent_of(rs[k].links, x)->0, (n - 1) as nat);
        lemma_falls_within_source(rs, id, src, j, parent_of(rs[k].links, x)->0, (n - 1) as nat);
    }
}


/// Every destruction reported in `fs` from position `from` on, before
/// position `to`, is one a cascade caused.
pub open spec fn cascaded_only(fs: Seq<Fact>, from: int, to: int) -> bool {
    forall|i: int| from <= i < to ==> (#[trigger] fs[i] matches Fact::Destroyed { cause, .. } ==> cause
        == DestroyCause::Cascade)
}

/// `fs` begins with `pre`.
pub open spec fn keeps_facts(pre: Seq<Fact>, fs: Seq<Fact>) -> bool {
    pre.len() <= fs.len() && forall|i: int| 0 <= i < pre.len() ==> #[trigger] fs[i] == pre[i]
}

proof fn lemma_reparent_facts_move_only(srcs: Seq<u64>, id: EntityId, before: GraphV, after: GraphV, loci: Seq<u64>)
    ensures
        cascaded_only(reparent_facts(srcs, id, before, after, loci), 0, reparent_facts(srcs, id, before, after, loci).len() as int),
    decreases srcs.len(),
{
    if srcs.len() > 0 {
        lemma_reparent_facts_move_only(srcs.drop_last(), id, before, after, loci);
    }
}

/// Despawn `id` and everything its destruction cascades to. Entities in
/// `dying` are already on their way out: they are no longer live, and links
/// may still name them until their own cascade finishes.
fn cascade(
    live: &mut Vec<EntityId>,
    rels: &mut Vec<RelationGraph>,
    facts: &mut Vec<Fact>,
    loci: &[EntityId],
    names: &[(EntityId, String)],
    id: EntityId,
    cause: DestroyCause,
    Ghost(dying): Ghost<Set<u64>>,
)
    requires
        ids_view(old(live)@).no_duplicates(),
        old(rels)@.len() >= 1,
        views(old(rels)@)[0].kind == containment_kind(),
        forall|k: int| 0 <= k < old(rels)@.len() ==> reparent_acyclic(#[trigger] views(old(rels)@)[k].kind),
        rels_within(views(old(rels)@), ids_view(old(live)@).to_set().union(dying)),
        ids_view(old(live)@).to_set().disjoint(dying),
    ensures
        ids_view(final(live)@).no_duplicates(),
        ids_view(final(live)@).to_set().subset_of(ids_view(old(live)@).to_set()),
        final(live)@.len() <= old(live)@.len(),
        !ids_view(final(live)@).contains(id.0),
        final(rels)@.len() == old(rels)@.len(),
        forall|k: int| 0 <= k < old(rels)@.len() ==> only_loosened(
            #[trigger] views(old(rels)@)[k],
            views(final(rels)@)[k],
        ),
        rels_within(views(final(rels)@), ids_view(final(live)@).to_set().union(dying)),
        forall|k: int| 0 <= k < old(rels)@.len() ==> dropped_sources_dead(
            #[trigger] views(old(rels)@)[k],
            views(final(rels)@)[k],
            ids_view(final(live)@).to_set(),
        ),
        !ids_view(old(live)@).contains(id.0) ==> final(live)@ == old(live)@ && final(rels)@ == old(rels)@
            && final(facts)@ == old(facts)@,
        forall|x: u64|
            ids_view(old(live)@).contains(x) && !ids_view(final(live)@).contains(x) ==> #[trigger] falls_with(
                views(old(rels)@),
                id.0,
                x,
            ),
        ids_view(old(live)@).contains(id.0) ==> cascaded_only(final(facts)@, old(facts)@.len() as int, final(facts)@.len() - 1),
        keeps_facts(old(facts)@, final(facts)@),
        ids_view(old(live)@).contains(id.0) ==> final(facts)@.len() > old(facts)@.len() && (final(facts)@.last() matches Fact::Destroyed { entity, last_locus, name, cause: c }
            && entity == id && c == cause && opt_id(last_locus) == locus_in(views(old(rels)@)[0], ids_view(loci@), id.0)
            && opt_text(name) == name_in(names_model(names@), id.0)),
    decreases old(live)@.len(),
{
    if !contains_id(live, id) {
        proof {
            assert forall|k: int| 0 <= k < old(rels)@.len() implies only_loosened(
                #[trigger] views(old(rels)@)[k],
                views(rels@)[k],
            ) by {
                lemma_loosened_refl(views(rels@)[k]);
            }
        }
        return;
    }
    let ghost live0 = ids_view(live@).to_set();
    let ghost rels0 = views(rels@);
    let ghost n0 = live@.len();
    let ghost dying2 = dying.insert(id.0);
    proof {
        assert(views(rels@)[0] == rels@[0]@);
    }
    let last_locus = enclosing_locus(&rels[0], loci, id);
    let name = name_of(names, id);
    remove_id(live, id);
    proof {
        assert(falls_within(rels0, id.0, id.0, 0));
        assert forall|x: u64| live0.contains(x) && !ids_view(live@).contains(x) implies #[trigger] falls_with(rels0, id.0, x) by {
            if x != id.0 {
                assert(ids_view(live@).to_set().contains(x));
            }
            assert(falls_within(rels0, id.0, x, 0));
        }
        assert(live0.union(dying) =~= ids_view(live@).to_set().union(dying2));
        assert(!ids_view(live@).to_set().contains(id.0));
        if ids_view(live@).contains(id.0) {
            assert(ids_view(live@).to_set().contains(id.0));
        }
    }
    // Containment first: its contents spill up, each reporting its move.
    let mut g0 = rels.remove(0);
    proof {
        assert(g0@ == rels0[0]);
    }
    g0.check_wf();
    proof {
        lemma_up_step(targets(g0@), id.0, 0);
        assert(up(targets(g0@), id.0, 1) != Some(id.0));
    }
    let mut moved = reparent_contents(&mut g0, loci, id);
    proof {
        let srcs = choose|srcs: Seq<u64>|
            #![trigger reparent_facts(srcs, id, rels0[0], g0@, ids_view(loci@))]
            srcs.no_duplicates() && (forall|s: u64|
                srcs.contains(s) <==> s != id.0 && parent_of(rels0[0].links, s) == Some(id.0)) && moved@
                == reparent_facts(srcs, id, rels0[0], g0@, ids_view(loci@));
        lemma_reparent_facts_move_only(srcs, id, rels0[0], g0@, ids_view(loci@));
    }
    let ghost facts_before = facts@;
    let ghost moved_v = moved@;
    rels.insert(0, g0);
    facts.append(&mut moved);
    proof {
        assert(facts@ =~= facts_before + moved_v);
        assert forall|i: int| old(facts)@.len() <= i < facts@.len() implies (#[trigger] facts@[i] matches Fact::Destroyed { cause, .. } ==> cause
            == DestroyCause::Cascade) by {
            assert(facts@[i] == moved_v[i - facts_before.len()]);
        }
    }
    proof {
        assert(links_within(rels0[0], live0.union(dying)));
        lemma_despawn_effects(rels0[0], views(rels@)[0], id.0, ids_view(live@).to_set().union(dying2));
        assert(views(rels@)[0] == g0@);
        assert forall|k: int| 0 <= k < rels@.len() implies only_loosened(#[trigger] rels0[k], views(rels@)[k]) by {
            if k > 0 {
                assert(views(rels@)[k] == rels0[k]);
                lemma_loosened_refl(rels0[k]);
            }
        }
        let s2 = ids_view(live@).to_set().union(dying2);
        assert forall|k: int| 0 <= k < rels@.len() implies links_within(#[trigger] views(rels@)[k], s2) by {
            if k > 0 {
                assert(views(rels@)[k] == rels0[k]);
                assert(links_within(rels0[k], live0.union(dying)));
            }
        }
        assert(untouched(views(rels@)[0], id.0));
        assert forall|k: int| 0 <= k < rels@.len() implies dropped_sources_dead(#[trigger] rels0[k], views(rels@)[k], ids_view(live@).to_set()) by {
            if k > 0 {
                assert(views(rels@)[k] == rels0[k]);
            }
        }
    }
    let mut j: usize = 1;
    while j < rels.len()
        invariant
            1 <= j <= rels@.len(),
            rels@.len() == rels0.len(),
            ids_view(live@).no_duplicates(),
            ids_view(live@).to_set().subset_of(live0),
            !ids_view(live@).contains(id.0),
            live@.len() < n0,
            live0.disjoint(dying),
            live0.contains(id.0),
            dying2 == dying.insert(id.0),
            rels0[0].kind == containment_kind(),
            forall|k: int| 0 <= k < rels@.len() ==> only_loosened(#[trigger] rels0[k], views(rels@)[k]),
            forall|k: int| 0 <= k < rels0.len() ==> reparent_acyclic(#[trigger] rels0[k].kind),
            rels_within(views(rels@), ids_view(live@).to_set().union(dying2)),
            forall|k: int| 0 <= k < j ==> untouched(#[trigger] views(rels@)[k], id.0),
            forall|k: int| 0 <= k < rels@.len() ==> dropped_sources_dead(#[trigger] rels0[k], views(rels@)[k], ids_view(live@).to_set()),
            facts@.len() >= old(facts)@.len(),
            n0 == old(live)@.len(),
            cascaded_only(facts@, old(facts)@.len() as int, facts@.len() as int),
            keeps_facts(old(facts)@, facts@),
            forall|x: u64| live0.contains(x) && !ids_view(live@).contains(x) ==> #[trigger] falls_with(rels0, id.0, x),
        decreases rels.len() - j,
    {
        let ghost before_j = views(rels@);
        let mut g = rels.remove(j);
        proof {
            assert(g@ == before_j[j as int]);
        }
        g.check_wf();
        proof {
            if g@.kind.on_target_despawn == Cascade::Reparent {
                assert(only_loosened(rels0[j as int], before_j[j as int]));
                assert(reparent_acyclic(rels0[j as int].kind));
                lemma_up_step(targets(g@), id.0, 0);
                assert(up(targets(g@), id.0, 1) != Some(id.0));
            } else if parent_of(g@.links, id.0) == Some(id.0) {
                assert(links_within(before_j[j as int], ids_view(live@).to_set().union(dying2)));
            }
        }
        let ghost gb = g@;
        let coll = g.despawn(id);
        let spreads = g.kind().on_target_despawn() == Cascade::DespawnSources;
        rels.insert(j, g);
        proof {
            assert(links_within(before_j[j as int], ids_view(live@).to_set().union(dying2)));
            if parent_of(gb.links, id.0) != Some(id.0) {
                lemma_despawn_effects(gb, views(rels@)[j as int], id.0, ids_view(live@).to_set().union(dying2));
            } else {
                lemma_despawn_self_link(gb, views(rels@)[j as int], id.0, ids_view(live@).to_set().union(dying2));
            }
            lemma_loosened_trans(rels0[j as int], gb, views(rels@)[j as int]);
            assert forall|k: int| 0 <= k < rels@.len() && k != j implies views(rels@)[k] == before_j[k] by {}
            let s2 = ids_view(live@).to_set().union(dying2);
            assert forall|k: int| 0 <= k < rels@.len() implies links_within(#[trigger] views(rels@)[k], s2) by {
                if k != j {
                    assert(views(rels@)[k] == before_j[k]);
                }
            }
            assert forall|k: int| 0 <= k < j implies untouched(#[trigger] views(rels@)[k], id.0) by {
                assert(views(rels@)[k] == before_j[k]);
            }
            assert forall|k: int| 0 <= k < rels@.len() implies only_loosened(#[trigger] rels0[k], views(rels@)[k]) by {
                if k != j {
                    assert(views(rels@)[k] == before_j[k]);
                }
            }
            assert(dropped_sources_dead(gb, views(rels@)[j as int], ids_view(live@).to_set())) by {
                if gb.kind.on_target_despawn == Cascade::DespawnSources {
                    assert forall|y: u64| #[trigger] parent_of(views(rels@)[j as int].links, y) is None && parent_of(gb.links, y) is Some implies !ids_view(live@).to_set().contains(y) by {
                        assert(y == id.0);
                    }
                }
            }
            assert forall|k: int| 0 <= k < rels@.len() implies dropped_sources_dead(#[trigger] rels0[k], views(rels@)[k], ids_view(live@).to_set()) by {
                if k != j {
                    assert(views(rels@)[k] == before_j[k]);
                } else {
                    assert(only_loosened(rels0[k], before_j[k]));
                    lemma_dropped_trans(rels0[k], gb, views(rels@)[k], ids_view(live@).to_set(), ids_view(live@).to_set());
                }
            }
        }
        if spreads {
            let ghost at_despawn = views(rels@)[j as int];
            proof {
                lemma_loosened_refl(at_despawn);
            }
            let mut c: usize = 0;
            while c < coll.len()
                invariant
                    0 <= c <= coll@.len(),
                    1 <= j < rels@.len(),
                    rels@.len() == rels0.len(),
                    ids_view(live@).no_duplicates(),
                    ids_view(live@).to_set().subset_of(live0),
                    !ids_view(live@).contains(id.0),
                    live@.len() < n0,
                    live0.disjoint(dying),
                    dying2 == dying.insert(id.0),
                    rels0[0].kind == containment_kind(),
                    forall|k: int| 0 <= k < rels@.len() ==> only_loosened(#[trigger] rels0[k], views(rels@)[k]),
                    forall|k: int| 0 <= k < rels0.len() ==> reparent_acyclic(#[trigger] rels0[k].kind),
                    rels_within(views(rels@), ids_view(live@).to_set().union(dying2)),
                    forall|k: int| 0 <= k < j ==> untouched(#[trigger] views(rels@)[k], id.0),
                    at_despawn.kind.on_target_despawn == Cascade::DespawnSources,
                    only_loosened(at_despawn, views(rels@)[j as int]),
                    parent_of(at_despawn.links, id.0) is None,
                    forall|s: u64| ids_view(coll@).contains(s) <==> s != id.0 && parent_of(at_despawn.links, s) == Some(id.0),
                    forall|k: int| 0 <= k < rels@.len() ==> dropped_sources_dead(#[trigger] rels0[k], views(rels@)[k], ids_view(live@).to_set()),
                    forall|k: int| 0 <= k < c ==> !ids_view(live@).contains(#[trigger] coll@[k].0),
                    facts@.len() >= old(facts)@.len(),
                    n0 == old(live)@.len(),
                    cascaded_only(facts@, old(facts)@.len() as int, facts@.len() as int),
                    keeps_facts(old(facts)@, facts@),
                    only_loosened(rels0[j as int], at_despawn),
                    forall|x: u64| live0.contains(x) && !ids_view(live@).contains(x) ==> #[trigger] falls_with(rels0, id.0, x),
                decreases coll.len() - c,
            {
                let ghost step0 = views(rels@);
                proof {
                    assert(ids_view(live@).to_set().disjoint(dying2));
                    assert forall|k: int| 0 <= k < rels@.len() implies reparent_acyclic(#[trigger] views(rels@)[k].kind) by {
                        assert(only_loosened(rels0[k], views(rels@)[k]));
                    }
                    assert(views(rels@)[0].kind == containment_kind()) by {
                        assert(only_loosened(rels0[0], views(rels@)[0]));
                    }
                }
                let ghost live_before = ids_view(live@);
                let ghost facts_before = facts@;
                cascade(live, rels, facts, loci, names, coll[c], DestroyCause::Cascade, Ghost(dying2));
                proof {
                    assert forall|i: int| old(facts)@.len() <= i < facts@.len() implies (#[trigger] facts@[i] matches Fact::Destroyed { cause, .. } ==> cause
                        == DestroyCause::Cascade) by {
                        if i < facts_before.len() {
                            assert(facts@[i] == facts_before[i]);
                        }
                    }
                    assert(keeps_facts(old(facts)@, facts@));
                    let src = coll@[c as int].0;
                    assert(ids_view(coll@)[c as int] == src);
                    assert(ids_view(coll@).contains(src));
                    assert(parent_of(at_despawn.links, src) == Some(id.0));
                    assert(parent_of(rels0[j as int].links, src) == Some(id.0));
                    assert forall|x: u64| live0.contains(x) && !ids_view(live@).contains(x) implies #[trigger] falls_with(rels0, id.0, x) by {
                        if live_before.contains(x) {
                            assert(falls_with(step0, src, x));
                            let n = choose|n: nat| #[trigger] falls_within(step0, src, x, n);
                            lemma_falls_within_loosened(rels0, step0, src, x, n);
                            lemma_falls_within_source(rels0, id.0, src, j as int, x, n);
                        } else {
                            assert(live_before.to_set().contains(x) == live_before.contains(x));
                        }
                    }
                    assert(!ids_view(live@).contains(id.0)) by {
                        if ids_view(live@).contains(id.0) {
                            assert(ids_view(live@).to_set().contains(id.0));
                            assert(live_before.to_set().contains(id.0));
                        }
                    }
                    assert forall|k: int| 0 <= k < rels@.len() implies only_loosened(#[trigger] rels0[k], views(rels@)[k]) by {
                        lemma_loosened_trans(rels0[k], step0[k], views(rels@)[k]);
                    }
                    assert forall|k: int| 0 <= k < j implies untouched(#[trigger] views(rels@)[k], id.0) by {
                        assert(only_loosened(step0[k], views(rels@)[k]));
                        assert(untouched(step0[k], id.0));
                    }
                    lemma_loosened_trans(at_despawn, step0[j as int], views(rels@)[j as int]);
                    assert forall|k: int| 0 <= k < rels@.len() implies dropped_sources_dead(#[trigger] rels0[k], views(rels@)[k], ids_view(live@).to_set()) by {
                        assert(only_loosened(rels0[k], step0[k]));
                        lemma_dropped_trans(rels0[k], step0[k], views(rels@)[k], live_before.to_set(), ids_view(live@).to_set());
                    }
                    assert forall|k: int| 0 <= k < c + 1 implies !ids_view(live@).contains(#[trigger] coll@[k].0) by {
                        if k < c {
                            assert(!live_before.contains(coll@[k].0));
                            if ids_view(live@).contains(coll@[k].0) {
                                assert(ids_view(live@).to_set().contains(coll@[k].0));
                                assert(live_before.to_set().contains(coll@[k].0));
                            }
                        }
                    }
                }
                c = c + 1;
            }
            // Entities already on their way out may still point here; drop those links.
            let ghost pre = views(rels@);
            let mut g = rels.remove(j);
            let ghost g_start = g@;
            proof {
                assert(g_start == pre[j as int]);
                lemma_loosened_refl(g_start);
            }
            let mut c: usize = 0;
            while c < coll.len()
                invariant
                    0 <= c <= coll@.len(),
                    g@.kind == g_start.kind,
                    only_loosened(g_start, g@),
                    forall|y: u64| #[trigger] parent_of(g@.links, y) is None || parent_of(g@.links, y) == parent_of(g_start.links, y),
                    forall|k: int| 0 <= k < c ==> parent_of(g@.links, #[trigger] coll@[k].0) is None,
                    forall|k: int| 0 <= k < coll@.len() ==> !ids_view(live@).contains(#[trigger] coll@[k].0),
                    forall|y: u64| #[trigger] parent_of(g@.links, y) is None && parent_of(g_start.links, y) is Some ==> !ids_view(live@).to_set().contains(y),
                    forall|x: u64| live0.contains(x) && !ids_view(live@).contains(x) ==> #[trigger] falls_with(rels0, id.0, x),
                decreases coll.len() - c,
            {
                let ghost gc = g@;
                g.unrelate(coll[c]);
                proof {
                    assert forall|z: u64| #![trigger untouched(g@, z)] untouched(gc, z) implies untouched(g@, z) by {
                        assert forall|y: u64| #[trigger] parent_of(g@.links, y) is Some implies y != z && parent_of(
                            g@.links,
                            y,
                        ) != Some(z) by {
                            assert(parent_of(gc.links, y) is Some);
                        }
                    }
                    lemma_climbs_by_dropping(gc, g@);
                    lemma_loosened_trans(g_start, gc, g@);
                    assert forall|y: u64| #[trigger] parent_of(g@.links, y) is None && parent_of(g_start.links, y) is Some implies !ids_view(live@).to_set().contains(y) by {
                        if y == coll@[c as int].0 {
                            assert(!ids_view(live@).contains(y));
                        } else {
                            assert(parent_of(gc.links, y) is None);
                        }
                    }
                }
                c = c + 1;
            }
            let ghost g_end = g@;
            rels.insert(j, g);
            proof {
                assert(views(rels@)[j as int] == g_end);
                lemma_loosened_trans(rels0[j as int], g_start, g_end);
                assert(links_within(g_start, ids_view(live@).to_set().union(dying2)));
                assert(links_within(g_end, ids_view(live@).to_set().union(dying2))) by {
                    assert forall|y: u64| #[trigger] parent_of(g_end.links, y) is Some implies ids_view(live@).to_set().union(
                        dying2,
                    ).contains(y) && ids_view(live@).to_set().union(dying2).contains(parent_of(g_end.links, y)->0) by {
                        assert(parent_of(g_start.links, y) is Some);
                    }
                }
                assert(untouched(g_end, id.0)) by {
                    assert forall|y: u64| #[trigger] parent_of(g_end.links, y) is Some implies y != id.0 && parent_of(
                        g_end.links,
                        y,
                    ) != Some(id.0) by {
                        assert(parent_of(g_start.links, y) == parent_of(g_end.links, y));
                        if parent_of(g_end.links, y) == Some(id.0) {
                            assert(parent_of(at_despawn.links, y) == Some(id.0));
                            assert(ids_view(coll@).contains(y));
                            let k = choose|k: int| 0 <= k < ids_view(coll@).len() && ids_view(coll@)[k] == y;
                            assert(coll@[k].0 == y);
                        }
                        if y == id.0 {
                            assert(parent_of(at_despawn.links, id.0) is None);
                        }
                    }
                }
                assert forall|k: int| 0 <= k < rels@.len() && k != j implies views(rels@)[k] == pre[k] by {}
                let s2 = ids_view(live@).to_set().union(dying2);
                assert forall|k: int| 0 <= k < rels@.len() implies links_within(#[trigger] views(rels@)[k], s2) by {
                    if k != j {
                        assert(views(rels@)[k] == pre[k]);
                    }
                }
                assert forall|k: int| 0 <= k < j implies untouched(#[trigger] views(rels@)[k], id.0) by {
                    assert(views(rels@)[k] == pre[k]);
                }
                assert forall|k: int| 0 <= k < rels@.len() implies only_loosened(#[trigger] rels0[k], views(rels@)[k]) by {
                    if k != j {
                        assert(views(rels@)[k] == pre[k]);
                    }
                }
                assert forall|k: int| 0 <= k < rels@.len() implies dropped_sources_dead(#[trigger] rels0[k], views(rels@)[k], ids_view(live@).to_set()) by {
                    if k != j {
                        assert(views(rels@)[k] == pre[k]);
                    } else {
                        assert(only_loosened(rels0[k], g_start));
                        lemma_dropped_trans(rels0[k], g_start, g_end, ids_view(live@).to_set(), ids_view(live@).to_set());
                    }
                }
            }
        }
        proof {
            assert(untouched(views(rels@)[j as int], id.0));
        }
        j = j + 1;
    }
    let ghost facts_before = facts@;
    facts.push(Fact::Destroyed { entity: id, last_locus, name, cause });
    proof {
        assert forall|i: int| old(facts)@.len() <= i < facts@.len() - 1 implies (#[trigger] facts@[i] matches Fact::Destroyed { cause, .. } ==> cause
            == DestroyCause::Cascade) by {
            assert(facts@[i] == facts_before[i]);
        }
        let s = ids_view(live@).to_set().union(dying2);
        assert forall|k: int| 0 <= k < rels@.len() implies links_within(#[trigger] views(rels@)[k], ids_view(live@).to_set().union(dying)) by {
            lemma_within_untouched(views(rels@)[k], s, id.0);
            assert(s.remove(id.0) =~= ids_view(live@).to_set().union(dying));
        }
    }
}

/// A relation that does not reparent drops a self-link along with the rest.
proof fn lemma_despawn_self_link(before: GraphV, after: GraphV, id: u64, s: Set<u64>)
    requires
        after.kind == before.kind,
        before.kind.on_target_despawn != Cascade::Reparent,
        parent_of(after.links, id) is None,
        before.kind.on_target_despawn == Cascade::Detach ==> forall|y: u64|
            y != id ==> #[trigger] parent_of(after.links, y) == if parent_of(before.links, y) == Some(id) {
                None
            } else {
                parent_of(before.links, y)
            },
        before.kind.on_target_despawn == Cascade::DespawnSources ==> forall|y: u64|
            y != id ==> #[trigger] parent_of(after.links, y) == parent_of(before.links, y),
        links_within(before, s),
    ensures
        only_loosened(before, after),
        links_within(after, s),
        before.kind.on_target_despawn != Cascade::DespawnSources ==> untouched(after, id),
{
    assert forall|z: u64| #![trigger untouched(after, z)] untouched(before, z) implies untouched(after, z) by {
        assert forall|y: u64| #[trigger] parent_of(after.links, y) is Some implies y != z && parent_of(after.links, y)
            != Some(z) by {
            assert(y != id);
            assert(parent_of(before.links, y) is Some);
        }
    }
    assert forall|y: u64| #[trigger] parent_of(after.links, y) is Some implies s.contains(y) && s.contains(
        parent_of(after.links, y)->0,
    ) by {
        assert(y != id);
        assert(parent_of(before.links, y) is Some);
    }
    assert forall|y: u64| #[trigger] parent_of(after.links, y) is None || parent_of(after.links, y) == parent_of(before.links, y) by {
        if y == id {
        }
    }
    lemma_climbs_by_dropping(before, after);
    if before.kind.on_target_despawn != Cascade::DespawnSources {
        assert forall|y: u64| #[trigger] parent_of(after.links, y) is Some implies y != id && parent_of(after.links, y)
            != Some(id) by {
            assert(y != id);
        }
    }
}

// ---------------------------------------------------------------------------
// The structure itself.

/// Model of a structure.
pub struct StructureV {
    pub live: Seq<u64>,
    pub loci: Seq<u64>,
    pub names: Seq<(u64, Seq<char>)>,
    pub relations: Seq<GraphV>,
    pub facts: Seq<Fact>,
    pub next_id: u64,
}

/// A structure is well formed: live ids are distinct and below the next id to
/// hand out, containment, control and focus come first, relation tags are distinct, every
/// relation that reparents is tree-shaped, and no link names a dead entity.
pub open spec fn structure_wf(v: StructureV) -> bool {
    &&& v.live.no_duplicates()
    &&& forall|i: int| 0 <= i < v.live.len() ==> #[trigger] v.live[i] < v.next_id
    &&& v.relations.len() >= 3
    &&& v.relations[0].kind == containment_kind()
    &&& v.relations[1].kind == controls_kind()
    &&& v.relations[2].kind == focus_kind()
    &&& tags_distinct(v.relations)
    &&& forall|k: int| 0 <= k < v.relations.len() ==> reparent_acyclic(#[trigger] v.relations[k].kind)
    &&& rels_within(v.relations, v.live.to_set())
}

/// The structural layer of a world.
pub struct Structure {
    live: Vec<EntityId>,
    loci: Vec<EntityId>,
    names: Vec<(EntityId, String)>,
    relations: Vec<RelationGraph>,
    facts: Vec<Fact>,
    next_id: u64,
}

impl View for Structure {
    type V = StructureV;

    closed spec fn view(&self) -> StructureV {
        StructureV {
            live: ids_view(self.live@),
            loci: ids_view(self.loci@),
            names: names_model(self.names@),
            relations: views(self.relations@),
            facts: self.facts@,
            next_id: self.next_id,
        }
    }
}

/// No link of any relation names a dead entity.
pub proof fn lemma_links_name_only_live(v: StructureV, k: int, y: u64)
    requires
        structure_wf(v),
        0 <= k < v.relations.len(),
        parent_of(v.relations[k].links, y) is Some,
    ensures
        v.live.contains(y),
        v.live.contains(parent_of(v.relations[k].links, y)->0),
{
    assert(links_within(v.relations[k], v.live.to_set()));
}

impl Structure {
    /// Whether the structure is well formed.
    pub open spec fn wf(&self) -> bool {
        structure_wf(self@)
    }

    /// An empty structure with the engine's own relations registered:
    /// containment, control, and focus, in that order.
    pub fn new() -> (r: Self)
        ensures
            r.wf(),
            r@.live.len() == 0,
            r@.loci.len() == 0,
            r@.names.len() == 0,
            r@.facts.len() == 0,
            r@.next_id == 1,
            r@.relations.len() == 3,
            r@.relations[0] == (GraphV { kind: containment_kind(), links: Seq::empty() }),
            r@.relations[1] == (GraphV { kind: controls_kind(), links: Seq::empty() }),
            r@.relations[2] == (GraphV { kind: focus_kind(), links: Seq::empty() }),
    {
        let mut relations: Vec<RelationGraph> = Vec::new();
        relations.push(RelationGraph::new(Containment::kind()));
        relations.push(RelationGraph::new(Controls::kind()));
        relations.push(RelationGraph::new(Focus::kind()));
        let r = Structure {
            live: Vec::new(),
            loci: Vec::new(),
            names: Vec::new(),
            relations,
            facts: Vec::new(),
            next_id: 1,
        };
        proof {
            reveal_strlit("contained_by");
            reveal_strlit("controlled_by");
            reveal_strlit("focus");
            let v = r@;
            assert(v.relations[0] == relations@[0]@);
            assert(v.relations[1] == relations@[1]@);
            assert(v.relations[2] == relations@[2]@);
            assert("contained_by"@[4] != "controlled_by"@[4]);
            assert("contained_by"@ != "focus"@);
            assert("controlled_by"@ != "focus"@);
            assert(ids_view(r.live@) =~= Seq::<u64>::empty());
            assert(ids_view(r.loci@) =~= Seq::<u64>::empty());
            assert(names_model(r.names@) =~= Seq::empty());
            assert forall|k: int| 0 <= k < v.relations.len() implies links_within(#[trigger] v.relations[k], v.live.to_set()) by {
                assert forall|y: u64| #[trigger] parent_of(v.relations[k].links, y) is None by {}
            }
        }
        r
    }

    /// Whether a relation tagged `tag` is registered.
    pub fn is_relation_registered(&self, tag: &str) -> (r: bool)
        requires
            self.wf(),
        ensures
            r == has_tag(self@.relations, tag@),
    {
        find_tag(&self.relations, tag).is_some()
    }

    /// Register a relation kind, with no links yet. A kind whose sources move
    /// up to their dead target's target must be tree-shaped. Registering a tag
    /// again changes nothing.
    pub fn register_relation(&mut self, kind: RelationKind)
        requires
            old(self).wf(),
            reparent_acyclic(kind@),
        ensures
            final(self).wf(),
            has_tag(old(self)@.relations, kind@.tag) ==> final(self)@ == old(self)@,
            !has_tag(old(self)@.relations, kind@.tag) ==> final(self)@ == (StructureV {
                relations: old(self)@.relations.push(GraphV { kind: kind@, links: Seq::empty() }),
                ..old(self)@
            }),
    {
        if find_tag(&self.relations, kind.tag()).is_some() {
            return;
        }
        let ghost before = self@;
        let g = RelationGraph::new(kind);
        self.relations.push(g);
        proof {
            let v = self@;
            assert(v.relations =~= before.relations.push(GraphV { kind: kind@, links: Seq::empty() }));
            assert forall|i: int, j: int| 0 <= i < v.relations.len() && 0 <= j < v.relations.len() && i != j implies #[trigger] v.relations[i].kind.tag
                != #[trigger] v.relations[j].kind.tag by {
                if i == before.relations.len() {
                    assert(!tag_at(before.relations, kind@.tag, j));
                } else if j == before.relations.len() {
                    assert(!tag_at(before.relations, kind@.tag, i));
                }
            }
            assert forall|k: int| 0 <= k < v.relations.len() implies links_within(#[trigger] v.relations[k], v.live.to_set()) by {
                if k == before.relations.len() {
                    assert forall|y: u64| #[trigger] parent_of(v.relations[k].links, y) is None by {}
                }
            }
        }
    }

    /// Spawn a new entity with a fresh id, optionally named and marked as a
    /// locus. It starts out unrelated.
    pub fn spawn(&mut self, name: Option<String>, locus: bool) -> (r: EntityId)
        requires
            old(self).wf(),
            old(self)@.next_id < u64::MAX,
        ensures
            final(self).wf(),
            r.0 == old(self)@.next_id,
            final(self)@ == (StructureV {
                live: old(self)@.live.push(r.0),
                loci: if locus { old(self)@.loci.push(r.0) } else { old(self)@.loci },
                names: match name {
                    Some(n) => old(self)@.names.push((r.0, n@)),
                    None => old(self)@.names,
                },
                next_id: (old(self)@.next_id + 1) as u64,
                ..old(self)@
            }),
    {
        let ghost before = self@;
        let ghost nm = opt_text(name);
        let id = EntityId(self.next_id);
        self.next_id = self.next_id + 1;
        self.live.push(id);
        if locus {
            self.loci.push(id);
        }
        match name {
            Some(n) => {
                self.names.push((id, n));
            },
            None => {},
        }
        proof {
            let v = self@;
            assert(v.live =~= before.live.push(id.0));
            if locus {
                assert(v.loci =~= before.loci.push(id.0));
            } else {
                assert(v.loci =~= before.loci);
            }
            if nm is Some {
                assert(v.names =~= before.names.push((id.0, nm->0)));
            } else {
                assert(v.names =~= before.names);
            }
            assert forall|x: u64| before.live.to_set().contains(x) implies v.live.to_set().contains(x) by {
                let i = choose|i: int| 0 <= i < before.live.len() && before.live[i] == x;
                assert(v.live[i] == x);
            }
            assert(v.live.no_duplicates()) by {
                assert forall|i: int| 0 <= i < before.live.len() implies before.live[i] != id.0 by {
                    assert(before.live[i] < before.next_id);
                }
            }
            assert forall|k: int| 0 <= k < v.relations.len() implies links_within(#[trigger] v.relations[k], v.live.to_set()) by {
                assert(links_within(before.relations[k], before.live.to_set()));
                assert forall|y: u64| #[trigger] parent_of(v.relations[k].links, y) is Some implies v.live.to_set().contains(y)
                    && v.live.to_set().contains(parent_of(v.relations[k].links, y)->0) by {
                    assert(before.live.to_set().contains(y));
                    assert(before.live.to_set().contains(parent_of(v.relations[k].links, y)->0));
                }
            }
        }
        id
    }

    /// Whether `id` is live.
    pub fn contains(&self, id: EntityId) -> (r: bool)
        ensures
            r == self@.live.contains(id.0),
    {
        contains_id(&self.live, id)
    }

    /// The relation tagged `tag`, if one is registered.
    pub fn relation(&self, tag: &str) -> (r: Option<&RelationGraph>)
        requires
            self.wf(),
        ensures
            match r {
                Some(g) => exists|i: int| #[trigger] tag_at(self@.relations, tag@, i) && g@ == self@.relations[i],
                None => !has_tag(self@.relations, tag@),
            },
    {
        match find_tag(&self.relations, tag) {
            Some(i) => {
                proof {
                    assert(views(self.relations@)[i as int] == self.relations@[i as int]@);
                }
                Some(&self.relations[i])
            },
            None => None,
        }
    }

    /// The containment relation.
    pub fn containment(&self) -> (r: &RelationGraph)
        requires
            self.wf(),
        ensures
            r@ == self@.relations[0],
    {
        proof {
            assert(views(self.relations@)[0] == self.relations@[0]@);
        }
        &self.relations[0]
    }

    /// The nearest enclosing locus of `entity`, walking up its containers.
    pub fn enclosing_locus(&self, entity: EntityId) -> (r: Option<EntityId>)
        requires
            self.wf(),
        ensures
            opt_id(r) == locus_in(self@.relations[0], self@.loci, entity.0),
    {
        proof {
            assert(views(self.relations@)[0] == self.relations@[0]@);
        }
        enclosing_locus(&self.relations[0], &self.loci, entity)
    }

    /// Point `source` at `target` in the relation tagged `tag`. An unknown tag
    /// is refused first; then the relation's own checks apply (both ends live,
    /// no cycle in a tree-shaped relation). A containment change reports its
    /// movement facts.
    pub fn relate_tag(&mut self, source: EntityId, target: EntityId, tag: &str) -> (r: Result<(), RelationError>)
        requires
            old(self).wf(),
        ensures
            final(self).wf(),
            !has_tag(old(self)@.relations, tag@) ==> (r matches Err(RelationError::UnknownKind(k)) && k@ == tag@)
                && final(self)@ == old(self)@,
            forall|i: int| #[trigger] tag_at(old(self)@.relations, tag@, i) ==> {
                let g = old(self)@.relations[i];
                let live = old(self)@.live;
                &&& !live.contains(source.0) ==> (r matches Err(RelationError::NoSuchEntity { kind, role, entity })
                    && kind@ == tag@ && role == RelationRole::Source && entity == source)
                &&& live.contains(source.0) && !live.contains(target.0) ==> (r matches Err(
                    RelationError::NoSuchEntity { kind, role, entity },
                ) && kind@ == tag@ && role == RelationRole::Target && entity == target)
                &&& live.contains(source.0) && live.contains(target.0) && g.kind.acyclic && reaches(
                    targets(g),
                    target.0,
                    source.0,
                ) ==> (r matches Err(RelationError::Cycle { kind, source: s, target: t }) && kind@ == tag@ && s
                    == source && t == target)
                &&& r is Ok <==> live.contains(source.0) && live.contains(target.0) && !(g.kind.acyclic && reaches(
                    targets(g),
                    target.0,
                    source.0,
                ))
                &&& r is Err ==> final(self)@ == old(self)@
                &&& r is Ok ==> {
                    &&& final(self)@.live == old(self)@.live
                    &&& final(self)@.loci == old(self)@.loci
                    &&& final(self)@.names == old(self)@.names
                    &&& final(self)@.next_id == old(self)@.next_id
                    &&& final(self)@.relations.len() == old(self)@.relations.len()
                    &&& forall|k: int| 0 <= k < old(self)@.relations.len() && k != i ==> #[trigger] final(self)@.relations[k]
                        == old(self)@.relations[k]
                    &&& final(self)@.relations[i].kind == g.kind
                    &&& forall|y: u64| #[trigger] parent_of(final(self)@.relations[i].links, y) == if y == source.0 {
                        Some(target.0)
                    } else {
                        parent_of(g.links, y)
                    }
                    &&& final(self)@.facts == old(self)@.facts + if i == 0 && parent_of(g.links, source.0) != Some(
                        target.0,
                    ) {
                        movement(
                            source,
                            crate::fact::ent(parent_of(g.links, source.0)),
                            Some(target),
                            crate::fact::ent(locus_in(g, old(self)@.loci, source.0)),
                            crate::fact::ent(locus_in(final(self)@.relations[0], old(self)@.loci, source.0)),
                        )
                    } else {
                        Seq::empty()
                    }
                }
            },
    {
        let ghost before = self@;
        let j = match find_tag(&self.relations, tag) {
            None => {
                return Err(RelationError::UnknownKind(tag.to_owned()));
            },
            Some(j) => j,
        };
        let mut g = self.relations.remove(j);
        proof {
            assert(g@ == before.relations[j as int]);
            assert(before.relations[j as int].kind.tag == tag@);
        }
        let r = if j == 0 {
            match move_entity(&mut g, &self.live, &self.loci, source, target) {
                Ok(mut f) => {
                    self.facts.append(&mut f);
                    Ok(())
                },
                Err(e) => Err(e),
            }
        } else {
            g.relate(&self.live, source, target)
        };
        let ghost g_after = g@;
        self.relations.insert(j, g);
        proof {
            let v = self@;
            assert(v.relations =~= before.relations.update(j as int, g_after));
            if r is Err {
                assert(g_after == before.relations[j as int]);
                assert(v.relations =~= before.relations);
                assert(v.facts =~= before.facts);
            } else {
                assert forall|y: u64| #[trigger] parent_of(g_after.links, y) is Some implies v.live.to_set().contains(y)
                    && v.live.to_set().contains(parent_of(g_after.links, y)->0) by {
                    if y != source.0 {
                        assert(links_within(before.relations[j as int], before.live.to_set()));
                        assert(parent_of(before.relations[j as int].links, y) is Some);
                    }
                }
                assert forall|k: int| 0 <= k < v.relations.len() implies links_within(#[trigger] v.relations[k], v.live.to_set()) by {
                    if k != j {
                        assert(v.relations[k] == before.relations[k]);
                    }
                }
                assert forall|a: int, b: int| 0 <= a < v.relations.len() && 0 <= b < v.relations.len() && a != b implies #[trigger] v.relations[a].kind.tag
                    != #[trigger] v.relations[b].kind.tag by {
                    assert(v.relations[a].kind == before.relations[a].kind);
                    assert(v.relations[b].kind == before.relations[b].kind);
                }
                assert forall|k: int| 0 <= k < v.relations.len() implies reparent_acyclic(#[trigger] v.relations[k].kind) by {
                    assert(v.relations[k].kind == before.relations[k].kind);
                }
                if j != 0 {
                    assert(v.facts =~= before.facts + Seq::<Fact>::empty());
                }
            }
        }
        r
    }

    /// Clear `source`'s link in the relation tagged `tag`. An unknown tag is
    /// refused, then a dead source; clearing a link that is not set changes
    /// nothing. Clearing a containment link reports the move to the root.
    pub fn unrelate_tag(&mut self, source: EntityId, tag: &str) -> (r: Result<(), RelationError>)
        requires
            old(self).wf(),
        ensures
            final(self).wf(),
            !has_tag(old(self)@.relations, tag@) ==> (r matches Err(RelationError::UnknownKind(k)) && k@ == tag@)
                && final(self)@ == old(self)@,
            forall|i: int| #[trigger] tag_at(old(self)@.relations, tag@, i) ==> {
                let g = old(self)@.relations[i];
                &&& !old(self)@.live.contains(source.0) ==> (r matches Err(
                    RelationError::NoSuchEntity { kind, role, entity },
                ) && kind@ == tag@ && role == RelationRole::Source && entity == source) && final(self)@ == old(self)@
                &&& old(self)@.live.contains(source.0) ==> {
                    &&& r is Ok
                    &&& final(self)@.live == old(self)@.live
                    &&& final(self)@.loci == old(self)@.loci
                    &&& final(self)@.names == old(self)@.names
                    &&& final(self)@.next_id == old(self)@.next_id
                    &&& final(self)@.relations.len() == old(self)@.relations.len()
                    &&& forall|k: int| 0 <= k < old(self)@.relations.len() && k != i ==> #[trigger] final(self)@.relations[k]
                        == old(self)@.relations[k]
                    &&& final(self)@.relations[i].kind == g.kind
                    &&& forall|y: u64| #[trigger] parent_of(final(self)@.relations[i].links, y) == if y == source.0 {
                        None
                    } else {
                        parent_of(g.links, y)
                    }
                    &&& final(self)@.facts == old(self)@.facts + if i == 0 && parent_of(g.links, source.0) is Some {
                        movement(
                            source,
                            crate::fact::ent(parent_of(g.links, source.0)),
                            None,
                            crate::fact::ent(locus_in(g, old(self)@.loci, source.0)),
                            crate::fact::ent(locus_in(final(self)@.relations[0], old(self)@.loci, source.0)),
                        )
                    } else {
                        Seq::empty()
                    }
                }
            },
    {
        let ghost before = self@;
        let j = match find_tag(&self.relations, tag) {
            None => {
                return Err(RelationError::UnknownKind(tag.to_owned()));
            },
            Some(j) => j,
        };
        if !contains_id(&self.live, source) {
            return Err(RelationError::NoSuchEntity { kind: tag.to_owned(), role: RelationRole::Source, entity: source });
        }
        let mut g = self.relations.remove(j);
        proof {
            assert(g@ == before.relations[j as int]);
        }
        let ghost g_before = g@;
        if j == 0 {
            let from = g.target_of(source);
            let from_locus = enclosing_locus(&g, &self.loci, source);
            g.unrelate(source);
            match from {
                Some(f) => {
                    let to_locus = enclosing_locus(&g, &self.loci, source);
                    let mut m = movement_facts(source, Some(f), None, lift(from_locus), lift(to_locus));
                    self.facts.append(&mut m);
                    proof {
                        assert(Some(f) == crate::fact::ent(parent_of(g_before.links, source.0)));
                    }
                },
                None => {},
            }
        } else {
            g.unrelate(source);
        }
        let ghost g_after = g@;
        self.relations.insert(j, g);
        proof {
            let v = self@;
            assert(v.relations =~= before.relations.update(j as int, g_after));
            assert(v.relations[0] == if j == 0 { g_after } else { before.relations[0] });
            assert forall|y: u64| #[trigger] parent_of(g_after.links, y) is Some implies v.live.to_set().contains(y)
                && v.live.to_set().contains(parent_of(g_after.links, y)->0) by {
                assert(links_within(before.relations[j as int], before.live.to_set()));
                assert(parent_of(before.relations[j as int].links, y) is Some);
            }
            assert forall|k: int| 0 <= k < v.relations.len() implies links_within(#[trigger] v.relations[k], v.live.to_set()) by {
                if k != j {
                    assert(v.relations[k] == before.relations[k]);
                }
            }
            assert forall|a: int, b: int| 0 <= a < v.relations.len() && 0 <= b < v.relations.len() && a != b implies #[trigger] v.relations[a].kind.tag
                != #[trigger] v.relations[b].kind.tag by {
                assert(v.relations[a].kind == before.relations[a].kind);
                assert(v.relations[b].kind == before.relations[b].kind);
            }
            assert forall|k: int| 0 <= k < v.relations.len() implies reparent_acyclic(#[trigger] v.relations[k].kind) by {
                assert(v.relations[k].kind == before.relations[k].kind);
            }
            if !(j == 0 && parent_of(g_before.links, source.0) is Some) {
                assert(v.facts =~= before.facts + Seq::<Fact>::empty());
            }
        }
        Ok(())
    }

    /// The entity a controller is currently piloting, if any.
    pub fn focus_of(&self, controller: EntityId) -> (r: Option<EntityId>)
        requires
            self.wf(),
        ensures
            opt_id(r) == parent_of(self@.relations[2].links, controller.0),
    {
        proof {
            assert(views(self.relations@)[2] == self.relations@[2]@);
        }
        self.relations[2].target_of(controller)
    }

    /// The root of an entity's control chain: the topmost controller, or the
    /// entity itself when nothing controls it.
    pub fn control_root(&self, entity: EntityId) -> (r: EntityId)
        requires
            self.wf(),
        ensures
            r.0 == if controllers(self@.relations[1], entity.0).len() == 0 {
                entity.0
            } else {
                controllers(self@.relations[1], entity.0).last()
            },
    {
        proof {
            assert(views(self.relations@)[1] == self.relations@[1]@);
        }
        crate::control::control_root(&self.relations[1], entity)
    }

    /// Point `controller`'s cursor at `target`, which it must control,
    /// directly or through a chain of controlled entities.
    pub fn set_focus(&mut self, controller: EntityId, target: EntityId) -> (r: Result<(), FocusError>)
        requires
            old(self).wf(),
        ensures
            final(self).wf(),
            r is Err ==> final(self)@ == old(self)@,
            target.0 == controller.0 || !controllers(old(self)@.relations[1], target.0).contains(controller.0) ==> r
                == Err::<(), FocusError>(FocusError::NotControlled),
            target.0 != controller.0 && controllers(old(self)@.relations[1], target.0).contains(controller.0) ==> {
                &&& r is Ok <==> old(self)@.live.contains(controller.0) && old(self)@.live.contains(target.0) && !reaches(
                    targets(old(self)@.relations[2]),
                    target.0,
                    controller.0,
                )
                &&& r is Err ==> (r matches Err(FocusError::Relation(_)))
                &&& r is Ok ==> final(self)@ == (StructureV {
                    relations: old(self)@.relations.update(2, final(self)@.relations[2]),
                    ..old(self)@
                }) && final(self)@.relations[2].kind == focus_kind() && forall|y: u64|
                    #[trigger] parent_of(final(self)@.relations[2].links, y) == if y == controller.0 {
                        Some(target.0)
                    } else {
                        parent_of(old(self)@.relations[2].links, y)
                    }
            },
    {
        let ghost before = self@;
        let mut f = self.relations.remove(2);
        proof {
            assert(f@ == before.relations[2]);
            assert(views(self.relations@)[1] == self.relations@[1]@);
            assert(self.relations@[1]@ == before.relations[1]);
        }
        let r = set_focus(&self.relations[1], &mut f, &self.live, controller, target);
        let ghost f_after = f@;
        self.relations.insert(2, f);
        proof {
            let v = self@;
            assert(v.relations =~= before.relations.update(2, f_after));
            if r is Err {
                assert(v.relations =~= before.relations);
            } else {
                assert forall|y: u64| #[trigger] parent_of(f_after.links, y) is Some implies v.live.to_set().contains(y)
                    && v.live.to_set().contains(parent_of(f_after.links, y)->0) by {
                    if y != controller.0 {
                        assert(links_within(before.relations[2], before.live.to_set()));
                        assert(parent_of(before.relations[2].links, y) is Some);
                    }
                }
                assert forall|k: int| 0 <= k < v.relations.len() implies links_within(#[trigger] v.relations[k], v.live.to_set()) by {
                    if k != 2 {
                        assert(v.relations[k] == before.relations[k]);
                    }
                }
                assert forall|a: int, b: int| 0 <= a < v.relations.len() && 0 <= b < v.relations.len() && a != b implies #[trigger] v.relations[a].kind.tag
                    != #[trigger] v.relations[b].kind.tag by {
                    assert(v.relations[a].kind == before.relations[a].kind);
                    assert(v.relations[b].kind == before.relations[b].kind);
                }
                assert forall|k: int| 0 <= k < v.relations.len() implies reparent_acyclic(#[trigger] v.relations[k].kind) by {
                    assert(v.relations[k].kind == before.relations[k].kind);
                }
            }
        }
        r
    }

    /// Drop a controller's cursor back to itself.
    pub fn clear_focus(&mut self, controller: EntityId)
        requires
            old(self).wf(),
        ensures
            final(self).wf(),
            final(self)@ == (StructureV {
                relations: old(self)@.relations.update(2, final(self)@.relations[2]),
                ..old(self)@
            }),
            final(self)@.relations[2].kind == focus_kind(),
            forall|y: u64| #[trigger] parent_of(final(self)@.relations[2].links, y) == if y == controller.0 {
                None
            } else {
                parent_of(old(self)@.relations[2].links, y)
            },
    {
        let ghost before = self@;
        let mut f = self.relations.remove(2);
        proof {
            assert(f@ == before.relations[2]);
        }
        f.unrelate(controller);
        let ghost f_after = f@;
        self.relations.insert(2, f);
        proof {
            let v = self@;
            assert(v.relations =~= before.relations.update(2, f_after));
            assert forall|y: u64| #[trigger] parent_of(f_after.links, y) is Some implies v.live.to_set().contains(y)
                && v.live.to_set().contains(parent_of(f_after.links, y)->0) by {
                assert(links_within(before.relations[2], before.live.to_set()));
                assert(parent_of(before.relations[2].links, y) is Some);
            }
            assert forall|k: int| 0 <= k < v.relations.len() implies links_within(#[trigger] v.relations[k], v.live.to_set()) by {
                if k != 2 {
                    assert(v.relations[k] == before.relations[k]);
                }
            }
            assert forall|a: int, b: int| 0 <= a < v.relations.len() && 0 <= b < v.relations.len() && a != b implies #[trigger] v.relations[a].kind.tag
                != #[trigger] v.relations[b].kind.tag by {
                assert(v.relations[a].kind == before.relations[a].kind);
                assert(v.relations[b].kind == before.relations[b].kind);
            }
            assert forall|k: int| 0 <= k < v.relations.len() implies reparent_acyclic(#[trigger] v.relations[k].kind) by {
                assert(v.relations[k].kind == before.relations[k].kind);
            }
        }
    }

    /// Drain the facts observed since the last drain.
    pub fn take_facts(&mut self) -> (r: Vec<Fact>)
        requires
            old(self).wf(),
        ensures
            final(self).wf(),
            r@ == old(self)@.facts,
            final(self)@ == (StructureV { facts: Seq::empty(), ..old(self)@ }),
    {
        let mut out: Vec<Fact> = Vec::new();
        std::mem::swap(&mut out, &mut self.facts);
        out
    }

    /// Despawn `id`. Each relation in registration order applies its cascade
    /// to what pointed at `id`: contents spill up to its container (each
    /// reporting its move), detached sources become roots, and dependent
    /// sources are despawned in turn. Exactly what falls with `id` dies, and
    /// every destruction reported before `id`'s own is marked as caused by the
    /// cascade. Then `id` reports its destruction, with
    /// the locus it was in and its name. An entity that is not live changes
    /// nothing.
    pub fn despawn(&mut self, id: EntityId)
        requires
            old(self).wf(),
        ensures
            final(self).wf(),
            !old(self)@.live.contains(id.0) ==> final(self)@ == old(self)@,
            old(self)@.live.contains(id.0) ==> {
                &&& !final(self)@.live.contains(id.0)
                &&& final(self)@.live.to_set().subset_of(old(self)@.live.to_set())
                &&& final(self)@.loci == old(self)@.loci
                &&& final(self)@.names == old(self)@.names
                &&& final(self)@.next_id == old(self)@.next_id
                &&& final(self)@.relations.len() == old(self)@.relations.len()
                &&& forall|k: int| 0 <= k < old(self)@.relations.len() ==> only_loosened(
                    #[trigger] old(self)@.relations[k],
                    final(self)@.relations[k],
                )
                &&& forall|k: int, x: u64|
                    0 <= k < old(self)@.relations.len() && old(self)@.relations[k].kind.on_target_despawn
                        == Cascade::DespawnSources && #[trigger] parent_of(old(self)@.relations[k].links, x) == Some(
                        id.0,
                    ) ==> !final(self)@.live.contains(x)
                &&& forall|x: u64|
                    #[trigger] final(self)@.live.contains(x) <==> old(self)@.live.contains(x) && !falls_with(
                        old(self)@.relations,
                        id.0,
                        x,
                    )
                &&& forall|k: int, x: u64|
                    0 <= k < old(self)@.relations.len() && old(self)@.relations[k].kind.on_target_despawn
                        == Cascade::Detach && #[trigger] parent_of(old(self)@.relations[k].links, x) == Some(id.0)
                        ==> parent_of(final(self)@.relations[k].links, x) is None
                &&& final(self)@.facts.len() > old(self)@.facts.len()
                &&& keeps_facts(old(self)@.facts, final(self)@.facts)
                &&& cascaded_only(final(self)@.facts, old(self)@.facts.len() as int, final(self)@.facts.len() - 1)
                &&& final(self)@.facts.last() matches Fact::Destroyed { entity, last_locus, name, cause }
                    && entity == id && cause == DestroyCause::Direct && opt_id(last_locus) == locus_in(
                    old(self)@.relations[0],
                    old(self)@.loci,
                    id.0,
                ) && opt_text(name) == name_in(old(self)@.names, id.0)
            },
    {
        let ghost before = self@;
        proof {
            assert(before.live.to_set().union(Set::empty()) =~= before.live.to_set());
            assert(before.live.to_set().disjoint(Set::empty()));
        }
        cascade(
            &mut self.live,
            &mut self.relations,
            &mut self.facts,
            &self.loci,
            &self.names,
            id,
            DestroyCause::Direct,
            Ghost(Set::empty()),
        );
        proof {
            let v = self@;
            assert(v.live.to_set().union(Set::empty()) =~= v.live.to_set());
            if before.live.contains(id.0) {
                assert forall|x: u64| #[trigger] v.live.contains(x) <==> before.live.contains(x) && !falls_with(
                    before.relations,
                    id.0,
                    x,
                ) by {
                    if v.live.contains(x) {
                        assert(v.live.to_set().contains(x));
                        assert(before.live.to_set().contains(x));
                        if falls_with(before.relations, id.0, x) {
                            let n = choose|n: nat| #[trigger] falls_within(before.relations, id.0, x, n);
                            lemma_falls_within_gone(before.relations, v.relations, v.live.to_set(), id.0, x, n);
                        }
                    }
                }
            }
            assert forall|i: int| 0 <= i < v.live.len() implies #[trigger] v.live[i] < v.next_id by {
                assert(v.live.to_set().contains(v.live[i]));
                assert(before.live.to_set().contains(v.live[i]));
                let j = choose|j: int| 0 <= j < before.live.len() && before.live[j] == v.live[i];
                assert(before.live[j] < before.next_id);
            }
            assert forall|i: int, j: int| 0 <= i < v.relations.len() && 0 <= j < v.relations.len() && i != j implies #[trigger] v.relations[i].kind.tag
                != #[trigger] v.relations[j].kind.tag by {
                assert(only_loosened(before.relations[i], v.relations[i]));
                assert(only_loosened(before.relations[j], v.relations[j]));
            }
            assert forall|k: int| 0 <= k < v.relations.len() implies reparent_acyclic(#[trigger] v.relations[k].kind) by {
                assert(only_loosened(before.relations[k], v.relations[k]));
            }
            assert(only_loosened(before.relations[0], v.relations[0]));
            assert(only_loosened(before.relations[1], v.relations[1]));
            assert(only_loosened(before.relations[2], v.relations[2]));
            if before.live.contains(id.0) {
                assert forall|k: int, x: u64|
                    0 <= k < before.relations.len() && before.relations[k].kind.on_target_despawn == Cascade::DespawnSources
                        && #[trigger] parent_of(before.relations[k].links, x) == Some(id.0) implies !v.live.contains(x) by {
                    assert(only_loosened(before.relations[k], v.relations[k]));
                    assert(dropped_sources_dead(before.relations[k], v.relations[k], v.live.to_set()));
                    if parent_of(v.relations[k].links, x) is Some {
                        assert(links_within(v.relations[k], v.live.to_set()));
                        assert(parent_of(v.relations[k].links, x) == Some(id.0));
                        assert(v.live.to_set().contains(id.0));
                    }
                    if v.live.contains(x) {
                        assert(v.live.to_set().contains(x));
                    }
                }
                assert forall|k: int, x: u64|
                    0 <= k < before.relations.len() && before.relations[k].kind.on_target_despawn == Cascade::Detach
                        && #[trigger] parent_of(before.relations[k].links, x) == Some(id.0) implies parent_of(
                        v.relations[k].links,
                        x,
                    ) is None by {
                    assert(only_loosened(before.relations[k], v.relations[k]));
                    if parent_of(v.relations[k].links, x) is Some {
                        assert(links_within(v.relations[k], v.live.to_set()));
                        assert(parent_of(v.relations[k].links, x) == Some(id.0));
                        assert(v.live.to_set().contains(id.0));
                    }
                }
            }
        }
    }
}

} // verus!
