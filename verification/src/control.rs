//! Embodiment: the control wiring says which controller an entity may be
//! driven by, and the control cursor says which entity in a controller's
//! chain its input is live on right now.

use vstd::prelude::*;
use crate::id::EntityId;
use crate::relation::{
    RelationError, RelationGraph, chain, ids_view, parent_of, reaches, targets,
};

verus! {

/// Why a cursor move was refused.
#[derive(Debug, PartialEq, Eq)]
pub enum FocusError {
    /// The target is not in the controller's control chain (the controller
    /// itself included: no cursor, not a self-cursor, means "drive yourself").
    NotControlled,
    /// The underlying link was refused (a cycle or a missing entity).
    Relation(RelationError),
}

/// The controllers above `entity`, nearest first.
pub open spec fn controllers(controls: crate::relation::GraphV, entity: u64) -> Seq<u64> {
    chain(targets(controls), entity, (controls.links.len() + 1) as nat)
}

/// The root of an entity's control chain: the topmost controller, or the
/// entity itself when nothing controls it.
pub fn control_root(controls: &RelationGraph, entity: EntityId) -> (r: EntityId)
    requires
        controls@.kind.acyclic,
    ensures
        r.0 == if controllers(controls@, entity.0).len() == 0 {
            entity.0
        } else {
            controllers(controls@, entity.0).last()
        },
{
    let above = controls.ancestors(entity);
    if above.len() == 0 {
        entity
    } else {
        above[above.len() - 1]
    }
}

/// Point `controller`'s cursor at `target`, which must be something the
/// controller controls, directly or through a chain of controlled entities.
pub fn set_focus(
    controls: &RelationGraph,
    focus: &mut RelationGraph,
    live: &[EntityId],
    controller: EntityId,
    target: EntityId,
) -> (r: Result<(), FocusError>)
    requires
        controls@.kind.acyclic,
    ensures
        final(focus)@.kind == old(focus)@.kind,
        target.0 == controller.0 || !controllers(controls@, target.0).contains(controller.0) ==> r
            == Err::<(), FocusError>(FocusError::NotControlled) && final(focus)@ == old(focus)@,
        target.0 != controller.0 && controllers(controls@, target.0).contains(controller.0) ==> {
            &&& r is Ok <==> ids_view(live@).contains(controller.0) && ids_view(live@).contains(target.0) && !(
            old(focus)@.kind.acyclic && reaches(targets(old(focus)@), target.0, controller.0))
            &&& r is Err ==> final(focus)@ == old(focus)@ && (r matches Err(FocusError::Relation(_)))
            &&& r is Ok ==> forall|y: u64| #[trigger] parent_of(final(focus)@.links, y) == if y == controller.0 {
                Some(target.0)
            } else {
                parent_of(old(focus)@.links, y)
            }
        },
{
    if target.0 == controller.0 {
        return Err(FocusError::NotControlled);
    }
    let above = controls.ancestors(target);
    let mut i: usize = 0;
    let mut found = false;
    while i < above.len()
        invariant
            i <= above@.len(),
            found <==> exists|j: int| 0 <= j < i && #[trigger] ids_view(above@)[j] == controller.0,
        decreases above.len() - i,
    {
        if above[i].0 == controller.0 {
            found = true;
            assert(ids_view(above@)[i as int] == controller.0);
        } else {
            assert(ids_view(above@)[i as int] != controller.0);
        }
        i = i + 1;
    }
    proof {
        let v = ids_view(above@);
        if v.contains(controller.0) {
            let j = choose|j: int| 0 <= j < v.len() && v[j] == controller.0;
            assert(v[j] == controller.0);
        }
    }
    if !found {
        return Err(FocusError::NotControlled);
    }
    match focus.relate(live, controller, target) {
        Ok(()) => Ok(()),
        Err(e) => Err(FocusError::Relation(e)),
    }
}

/// The entity a character's bare commands drive: the entity it is piloting
/// (its cursor target) when that is live, otherwise the character itself. A
/// cursor aimed at a dead entity means damaged state, so it falls back.
pub fn resolve_actor(focus: &RelationGraph, live: &[EntityId], character: EntityId) -> (r: EntityId)
    ensures
        r.0 == match parent_of(focus@.links, character.0) {
            Some(t) => if ids_view(live@).contains(t) {
                t
            } else {
                character.0
            },
            None => character.0,
        },
{
    match focus.target_of(character) {
        Some(target) => {
            let mut i: usize = 0;
            while i < live.len()
                invariant
                    parent_of(focus@.links, character.0) == Some(target.0),
                    i <= live@.len(),
                    forall|j: int| 0 <= j < i ==> live@[j].0 != target.0,
                decreases live.len() - i,
            {
                if live[i].0 == target.0 {
                    assert(ids_view(live@)[i as int] == target.0);
                    return target;
                }
                i = i + 1;
            }
            proof {
                if ids_view(live@).contains(target.0) {
                    let j = choose|j: int| 0 <= j < ids_view(live@).len() && ids_view(live@)[j] == target.0;
                    assert(live@[j].0 == target.0);
                }
            }
            character
        },
        None => character,
    }
}

} // verus!
