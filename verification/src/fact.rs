//! Structural facts: observations of world mutations that a reaction cannot
//! recover from the world afterwards. Containment is the one spatial relation,
//! so a change to an entity's own containment link is a move.

use vstd::prelude::*;
use crate::id::EntityId;
use crate::relation::{
    chain, enclosing_locus, ids_view, opt_id, parent_of, reaches, targets, Cascade, GraphV, RelationError,
    RelationGraph, RelationRole,
};

verus! {

/// Why an entity was destroyed: the one a destroy targeted, or one swept up by
/// a relation cascade below it.
#[derive(Clone, Copy, Debug, PartialEq, Eq, Structural)]
pub enum DestroyCause {
    /// The entity a destroy directly targeted.
    Direct,
    /// An entity removed by a relation cascade below a targeted destroy.
    Cascade,
}

/// An observation of a structural world mutation.
#[derive(Clone, Debug, PartialEq, Eq)]
pub enum Fact {
    /// An entity was despawned; `last_locus` and `name` were captured before it
    /// left the world.
    Destroyed { entity: EntityId, last_locus: Option<EntityId>, name: Option<String>, cause: DestroyCause },
    /// An entity's own containment link changed from `from` to `to`.
    Moved { entity: EntityId, from: Option<EntityId>, to: Option<EntityId> },
    /// A move carried an entity across a locus boundary.
    LocusChanged { entity: EntityId, from: Option<EntityId>, to: Option<EntityId> },
    /// A tracked component was set, overwritten, or removed on an entity.
    ComponentChanged { entity: EntityId, tag: String },
}

/// An optional id as an optional entity.
pub open spec fn ent(o: Option<u64>) -> Option<EntityId> {
    match o {
        Some(x) => Some(EntityId(x)),
        None => None,
    }
}

/// The nearest enclosing locus of `x` in a containment relation.
pub open spec fn locus_in(g: GraphV, loci: Seq<u64>, x: u64) -> Option<u64> {
    crate::relation::first_marked(chain(targets(g), x, (g.links.len() + 1) as nat), loci)
}

/// The facts a containment change reports: always `Moved`, and `LocusChanged`
/// as well when the enclosing locus differs.
pub open spec fn movement(
    entity: EntityId,
    from: Option<EntityId>,
    to: Option<EntityId>,
    from_locus: Option<EntityId>,
    to_locus: Option<EntityId>,
) -> Seq<Fact> {
    if from_locus == to_locus {
        seq![Fact::Moved { entity, from, to }]
    } else {
        seq![Fact::Moved { entity, from, to }, Fact::LocusChanged { entity, from: from_locus, to: to_locus }]
    }
}


/// The entity a movement fact is about.
pub open spec fn moved_entity(f: Fact) -> Option<EntityId> {
    match f {
        Fact::Moved { entity, .. } => Some(entity),
        Fact::LocusChanged { entity, .. } => Some(entity),
        _ => None,
    }
}

/// A move reports facts about the moved entity alone, never about the subtree
/// it carries, and reports a locus change exactly when the locus differs.
pub proof fn lemma_movement_names_only_the_mover(
    entity: EntityId,
    from: Option<EntityId>,
    to: Option<EntityId>,
    from_locus: Option<EntityId>,
    to_locus: Option<EntityId>,
)
    ensures
        forall|i: int| 0 <= i < movement(entity, from, to, from_locus, to_locus).len() ==> moved_entity(
            #[trigger] movement(entity, from, to, from_locus, to_locus)[i],
        ) == Some(entity),
        (exists|i: int| 0 <= i < movement(entity, from, to, from_locus, to_locus).len() && #[trigger] movement(
            entity,
            from,
            to,
            from_locus,
            to_locus,
        )[i] is LocusChanged) <==> from_locus != to_locus,
{
    let m = movement(entity, from, to, from_locus, to_locus);
    if from_locus != to_locus {
        assert(m[1] is LocusChanged);
    } else {
        assert forall|i: int| 0 <= i < m.len() implies !(#[trigger] m[i] is LocusChanged) by {
            assert(i == 0);
        }
    }
}

fn same_place(a: Option<EntityId>, b: Option<EntityId>) -> (r: bool)
    ensures
        r == (a == b),
{
    match (a, b) {
        (Some(x), Some(y)) => x.0 == y.0,
        (None, None) => true,
        _ => false,
    }
}

/// The facts for a containment change of `entity` from `from` to `to`, given
/// its enclosing locus before and after.
pub fn movement_facts(
    entity: EntityId,
    from: Option<EntityId>,
    to: Option<EntityId>,
    from_locus: Option<EntityId>,
    to_locus: Option<EntityId>,
) -> (r: Vec<Fact>)
    ensures
        r@ == movement(entity, from, to, from_locus, to_locus),
{
    let mut r = Vec::new();
    r.push(Fact::Moved { entity, from, to });
    if !same_place(from_locus, to_locus) {
        r.push(Fact::LocusChanged { entity, from: from_locus, to: to_locus });
    }
    r
}

pub(crate) fn lift(o: Option<EntityId>) -> (r: Option<EntityId>)
    ensures
        r == ent(opt_id(o)),
{
    match o {
        Some(e) => Some(EntityId(e.0)),
        None => None,
    }
}

/// Move `entity` into the container `into`: the single mutator of containment.
/// It refuses what `relate` refuses; a move to the container the entity is
/// already in changes nothing and reports nothing; any other move reports its
/// movement facts.
pub fn move_entity(
    containment: &mut RelationGraph,
    live: &[EntityId],
    loci: &[EntityId],
    entity: EntityId,
    into: EntityId,
) -> (r: Result<Vec<Fact>, RelationError>)
    requires
        old(containment)@.kind.acyclic,
    ensures
        final(containment)@.kind == old(containment)@.kind,
        !ids_view(live@).contains(entity.0) ==> (r matches Err(RelationError::NoSuchEntity { kind, role, entity: e })
            && kind@ == old(containment)@.kind.tag && role == RelationRole::Source && e == entity),
        ids_view(live@).contains(entity.0) && !ids_view(live@).contains(into.0) ==> (r matches Err(
            RelationError::NoSuchEntity { kind, role, entity: e },
        ) && kind@ == old(containment)@.kind.tag && role == RelationRole::Target && e == into),
        ids_view(live@).contains(entity.0) && ids_view(live@).contains(into.0) && reaches(
            targets(old(containment)@),
            into.0,
            entity.0,
        ) ==> (r matches Err(RelationError::Cycle { kind, source, target }) && kind@ == old(containment)@.kind.tag
            && source == entity && target == into),
        r is Ok <==> ids_view(live@).contains(entity.0) && ids_view(live@).contains(into.0) && !reaches(
            targets(old(containment)@),
            into.0,
            entity.0,
        ),
        r is Err ==> final(containment)@ == old(containment)@,
        r is Ok ==> forall|y: u64| #[trigger] parent_of(final(containment)@.links, y) == if y == entity.0 {
            Some(into.0)
        } else {
            parent_of(old(containment)@.links, y)
        },
        r matches Ok(f) ==> f@ == if parent_of(old(containment)@.links, entity.0) == Some(into.0) {
            Seq::empty()
        } else {
            movement(
                entity,
                ent(parent_of(old(containment)@.links, entity.0)),
                Some(into),
                ent(locus_in(old(containment)@, ids_view(loci@), entity.0)),
                ent(locus_in(final(containment)@, ids_view(loci@), entity.0)),
            )
        },
{
    let from = containment.target_of(entity);
    let from_locus = enclosing_locus(containment, loci, entity);
    match containment.relate(live, entity, into) {
        Err(e) => Err(e),
        Ok(()) => {
            match from {
                Some(f) => {
                    if f.0 == into.0 {
                        return Ok(Vec::new());
                    }
                },
                None => {},
            }
            let to_locus = enclosing_locus(containment, loci, entity);
            Ok(movement_facts(entity, lift(from), Some(into), lift(from_locus), lift(to_locus)))
        },
    }
}

/// The movement facts of the sources `srcs` of `id` as they reparent from
/// `before` to `after`, in order.
pub open spec fn reparent_facts(srcs: Seq<u64>, id: EntityId, before: GraphV, after: GraphV, loci: Seq<u64>) -> Seq<Fact>
    decreases srcs.len(),
{
    if srcs.len() == 0 {
        Seq::empty()
    } else {
        let s = srcs.last();
        reparent_facts(srcs.drop_last(), id, before, after, loci) + movement(
            EntityId(s),
            Some(id),
            ent(parent_of(before.links, id.0)),
            ent(locus_in(before, loci, s)),
            ent(locus_in(after, loci, s)),
        )
    }
}

/// Drop `id` from the containment hierarchy: its contents spill up to its own
/// container (or become roots), and each reports its move. The order among the
/// spilled contents is unspecified.
pub(crate) fn reparent_contents(containment: &mut RelationGraph, loci: &[EntityId], id: EntityId) -> (r: Vec<Fact>)
    requires
        old(containment)@.kind.acyclic,
        old(containment)@.kind.on_target_despawn == Cascade::Reparent,
    ensures
        final(containment)@.kind == old(containment)@.kind,
        parent_of(final(containment)@.links, id.0) is None,
        forall|y: u64|
            y != id.0 ==> #[trigger] parent_of(final(containment)@.links, y) == if parent_of(
                old(containment)@.links,
                y,
            ) == Some(id.0) {
                parent_of(old(containment)@.links, id.0)
            } else {
                parent_of(old(containment)@.links, y)
            },
        exists|srcs: Seq<u64>|
            #![trigger reparent_facts(srcs, id, old(containment)@, final(containment)@, ids_view(loci@))]
            srcs.no_duplicates() && (forall|s: u64|
                srcs.contains(s) <==> s != id.0 && parent_of(old(containment)@.links, s) == Some(id.0)) && r@
                == reparent_facts(srcs, id, old(containment)@, final(containment)@, ids_view(loci@)),
{
    let ghost before = containment@;
    let srcs = containment.sources_of(id);
    let ghost sv = ids_view(srcs@);
    let mut from_loci: Vec<Option<EntityId>> = Vec::new();
    let mut i: usize = 0;
    while i < srcs.len()
        invariant
            containment@ == before,
            before.kind.acyclic,
            sv == ids_view(srcs@),
            i <= srcs@.len(),
            from_loci@.len() == i,
            forall|j: int| 0 <= j < i ==> #[trigger] from_loci@[j] == ent(locus_in(before, ids_view(loci@), sv[j])),
        decreases srcs.len() - i,
    {
        let l = enclosing_locus(containment, loci, srcs[i]);
        from_loci.push(lift(l));
        i = i + 1;
    }
    containment.check_wf();
    let up = containment.target_of(id);
    let _none = containment.despawn(id);
    let ghost after = containment@;
    proof {
        assert forall|s: u64| sv.contains(s) implies s != id.0 by {
            if s == id.0 {
                crate::relation::lemma_up_step(targets(before), s, 0);
                assert(crate::relation::up(targets(before), s, 1) == Some(s));
            }
        }
    }
    let mut facts: Vec<Fact> = Vec::new();
    let mut k: usize = 0;
    while k < srcs.len()
        invariant
            containment@ == after,
            after.kind.acyclic,
            sv == ids_view(srcs@),
            from_loci@.len() == srcs@.len(),
            forall|j: int| 0 <= j < srcs@.len() ==> #[trigger] from_loci@[j] == ent(locus_in(before, ids_view(loci@), sv[j])),
            opt_id(up) == parent_of(before.links, id.0),
            k <= srcs@.len(),
            facts@ == reparent_facts(sv.take(k as int), id, before, after, ids_view(loci@)),
        decreases srcs.len() - k,
    {
        let s = srcs[k];
        let l = enclosing_locus(containment, loci, s);
        let mut m = movement_facts(s, Some(id), lift(up), from_loci[k], lift(l));
        facts.append(&mut m);
        proof {
            assert(sv.take(k + 1).drop_last() =~= sv.take(k as int));
            assert(sv.take(k + 1).last() == sv[k as int]);
            assert(sv[k as int] == s.0);
            assert(EntityId(s.0) == s);
            assert(ent(opt_id(up)) == ent(parent_of(before.links, id.0)));
        }
        k = k + 1;
    }
    proof {
        assert(sv.take(srcs@.len() as int) =~= sv);
    }
    facts
}

} // verus!
