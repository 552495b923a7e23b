//! Scheduler-independent pursuit state for one goal.

use vstd::prelude::*;
use crate::id::EntityId;
use crate::perform::AffordanceRegistry;
use crate::planner::{
    CostModel, Planner, actions_view, plan_spec, search_of, all_hold, entities_view, goals_from, plan_ok, plan_reaches, step_ok,
};
use crate::schema::{Formula, FormulaV, GroundAction, GroundActionV};
use crate::world_view::WorldView;

verus! {

/// How the scheduler's attempt at the pending beat went.
#[derive(Debug, Clone, Copy, PartialEq, Eq, Structural)]
pub enum Beat {
    Committed,
    Refused,
}

/// How a pursuit ended.
#[derive(Debug, Clone, Copy, PartialEq, Eq, Structural)]
pub enum Progress {
    Achieved,
    Abandoned,
}

/// What the pursuit asks of the scheduler next.
#[derive(Debug, PartialEq, Eq)]
pub enum Next {
    Action(GroundAction),
    Complete(Progress),
}

/// Most plans one pursuit requests before giving up.
pub const MAX_REPLANS: usize = 64;

/// Persistent logical state for one pursuit. It owns no world or registry
/// borrow, so a scheduler may ask for a beat, execute it, then report the
/// outcome on the same or a later tick.
pub struct Driver {
    actor: EntityId,
    goal: Formula,
    remaining: Vec<GroundAction>,
    excluded: Vec<GroundAction>,
    pending: Option<GroundAction>,
    replans: usize,
}

impl Driver {
    pub closed spec fn actor_view(&self) -> u64 {
        self.actor.0
    }

    pub closed spec fn goal_view(&self) -> FormulaV {
        self.goal@
    }

    /// The planned beats not yet handed out.
    pub closed spec fn remaining_view(&self) -> Seq<GroundActionV> {
        actions_view(self.remaining@)
    }

    /// The beats refused so far, never proposed again.
    pub closed spec fn excluded_view(&self) -> Seq<GroundActionV> {
        actions_view(self.excluded@)
    }

    /// The beat handed out and not yet recorded.
    pub closed spec fn pending_view(&self) -> Option<GroundActionV> {
        match self.pending {
            Some(a) => Some(a@),
            None => None,
        }
    }

    pub closed spec fn replans_view(&self) -> nat {
        self.replans as nat
    }

    pub fn new(actor: EntityId, goal: Formula) -> (r: Self)
        ensures
            r.actor_view() == actor.0,
            r.goal_view() == goal@,
            r.remaining_view().len() == 0,
            r.excluded_view().len() == 0,
            r.pending_view() is None,
            r.replans_view() == 0,
    {
        Driver {
            actor,
            goal,
            remaining: Vec::new(),
            excluded: Vec::new(),
            pending: None,
            replans: 0,
        }
    }

    pub fn remaining(&self) -> (r: &[GroundAction])
        ensures
            actions_view(r@) == self.remaining_view(),
    {
        self.remaining.as_slice()
    }

    pub fn excluded(&self) -> (r: &[GroundAction])
        ensures
            actions_view(r@) == self.excluded_view(),
    {
        self.excluded.as_slice()
    }

    pub fn pending(&self) -> (r: Option<&GroundAction>)
        ensures
            match self.pending_view() {
                Some(a) => r matches Some(x) && x@ == a,
                None => r is None,
            },
    {
        match &self.pending {
            Some(a) => Some(a),
            None => None,
        }
    }

    fn take_first(&mut self) -> (r: Next)
        requires
            old(self).remaining@.len() > 0,
        ensures
            r@ == NextV::Action(old(self).remaining_view()[0]),
            final(self).remaining_view() == old(self).remaining_view().drop_first(),
            final(self).pending_view() == Some(old(self).remaining@[0]@),
            final(self).excluded_view() == old(self).excluded_view(),
            final(self).replans_view() == old(self).replans_view(),
            final(self).actor_view() == old(self).actor_view(),
            final(self).goal_view() == old(self).goal_view(),
    {
        let action = self.remaining.remove(0);
        let handed = action.clone();
        self.pending = Some(action);
        assert(self.remaining_view() =~= old(self).remaining_view().drop_first());
        Next::Action(handed)
    }

    /// The next beat: the next planned action if one remains; otherwise
    /// completion when the goal holds, abandonment once the replan budget is
    /// spent or no plan avoiding the refused beats exists, else a fresh plan's
    /// first action.
    pub fn next<C: CostModel>(
        &mut self,
        planner: &Planner<C>,
        registry: &AffordanceRegistry,
        known: &[EntityId],
        world: &WorldView,
    ) -> (r: Next)
        requires
            old(self).pending_view() is None,
        ensures
            final(self).actor_view() == old(self).actor_view(),
            final(self).goal_view() == old(self).goal_view(),
            final(self).excluded_view() == old(self).excluded_view(),
            old(self).remaining_view().len() > 0 ==> r@ == NextV::Action(old(self).remaining_view()[0])
                && final(self).remaining_view() == old(self).remaining_view().drop_first()
                && final(self).pending_view() == Some(old(self).remaining_view()[0])
                && final(self).replans_view() == old(self).replans_view(),
            old(self).remaining_view().len() == 0 && goal_holds_spec(old(self), registry, known, world) ==> (r@ == NextV::Complete(Progress::Achieved)
                && final(self).pending_view() is None && final(self).remaining_view().len() == 0
                && final(self).replans_view() == old(self).replans_view()),
            old(self).remaining_view().len() == 0 && !goal_holds_spec(old(self), registry, known, world)
                && old(self).replans_view() >= MAX_REPLANS ==> (r@ == NextV::Complete(Progress::Abandoned)
                && final(self).pending_view() is None && final(self).remaining_view().len() == 0
                && final(self).replans_view() == old(self).replans_view()),
            old(self).remaining_view().len() == 0 && !goal_holds_spec(old(self), registry, known, world)
                && old(self).replans_view() < MAX_REPLANS ==> match plan_spec(
                search_of(
                    registry,
                    old(self).actor_view(),
                    entities_view(known@),
                    world@,
                    old(self).excluded_view(),
                    planner.cost_model(),
                ),
                goals_from(old(self).goal_view(), 0, entities_view(known@), Seq::empty()),
            ) {
                Some(q) => if q.len() > 0 {
                    r@ == NextV::Action(q[0]) && final(self).remaining_view() == q.drop_first()
                } else {
                    r@ == NextV::Complete(Progress::Abandoned)
                },
                None => r@ == NextV::Complete(Progress::Abandoned),
            },
            old(self).remaining_view().len() == 0 && !goal_holds_spec(old(self), registry, known, world)
                && old(self).replans_view() < MAX_REPLANS ==> final(self).replans_view() == old(self).replans_view() + 1
                && (match r@ {
                    NextV::Complete(p) => p == Progress::Abandoned && final(self).pending_view() is None
                        && final(self).remaining_view().len() == 0,
                    NextV::Action(a) => final(self).pending_view() == Some(a) && step_ok(
                        registry.schema_items(),
                        old(self).actor_view(),
                        old(self).excluded_view(),
                        a,
                    ) && final(self).remaining_view().len() < crate::planner::MAX_DEPTH && plan_reaches(
                        registry.state_view(),
                        world@,
                        registry.schema_items(),
                        old(self).actor_view(),
                        goals_from(old(self).goal_view(), 0, entities_view(known@), Seq::empty()),
                        seq![a] + final(self).remaining_view(),
                    ),
                }),
    {
        if self.remaining.len() > 0 {
            return self.take_first();
        }
        if planner.goal_holds(registry, self.actor, &self.goal, known, world) {
            proof {
                let gs = goals_from(self.goal@, 0, entities_view(known@), Seq::empty());
                let i = choose|i: int| 0 <= i < gs.len() && #[trigger] all_hold(registry.state_view(), world@, self.actor.0, gs[i]);
                assert(self.goal_view() == self.goal@);
                assert(self.actor_view() == self.actor.0);
                assert(all_hold(registry.state_view(), world@, old(self).actor_view(), goals_from(old(self).goal_view(), 0, entities_view(known@), Seq::empty())[i]));
            }
            return Next::Complete(Progress::Achieved);
        }
        if self.replans >= MAX_REPLANS {
            return Next::Complete(Progress::Abandoned);
        }
        self.replans = self.replans + 1;
        let plan = match planner.plan_excluding(registry, self.actor, &self.goal, known, world, self.excluded.as_slice()) {
            Some(plan) => plan,
            None => {
                return Next::Complete(Progress::Abandoned);
            },
        };
        if plan.len() == 0 {
            return Next::Complete(Progress::Abandoned);
        }
        proof {
            let pv = actions_view(plan@);
            assert(pv.subrange(pv.len() - 0, pv.len() as int) =~= Seq::<GroundActionV>::empty());
            assert(step_ok(registry.schema_items(), self.actor.0, actions_view(self.excluded@), pv[0]));
            assert(seq![pv[0]] + pv.drop_first() =~= pv);
        }
        self.remaining = plan;
        self.take_first()
    }

    /// Record how the pending beat went: a refusal excludes that exact action
    /// from every later plan and discards the rest of the stale plan; a
    /// commitment keeps the plan.
    pub fn record(&mut self, beat: Beat)
        requires
            old(self).pending_view() is Some,
        ensures
            final(self).pending_view() is None,
            final(self).actor_view() == old(self).actor_view(),
            final(self).goal_view() == old(self).goal_view(),
            final(self).replans_view() == old(self).replans_view(),
            beat == Beat::Refused ==> final(self).excluded_view() == old(self).excluded_view().push(
                old(self).pending_view()->0,
            ) && final(self).remaining_view().len() == 0,
            beat == Beat::Committed ==> final(self).excluded_view() == old(self).excluded_view()
                && final(self).remaining_view() == old(self).remaining_view(),
    {
        let action = match self.pending.take() {
            Some(a) => a,
            None => {
                return;
            },
        };
        if beat == Beat::Refused {
            let ghost before = actions_view(self.excluded@);
            self.excluded.push(action);
            assert(actions_view(self.excluded@) =~= before.push(old(self).pending_view()->0));
            self.remaining.clear();
            assert(actions_view(self.remaining@) =~= Seq::<GroundActionV>::empty());
        }
    }
}

/// Model of a beat request's answer.
pub enum NextV {
    Action(GroundActionV),
    Complete(Progress),
}

impl View for Next {
    type V = NextV;

    open spec fn view(&self) -> NextV {
        match self {
            Next::Action(a) => NextV::Action(a@),
            Next::Complete(p) => NextV::Complete(*p),
        }
    }
}

/// Whether some ground reading of the pursuit's goal holds for its actor.
pub open spec fn goal_holds_spec(d: &Driver, registry: &AffordanceRegistry, known: &[EntityId], world: &WorldView) -> bool {
    exists|i: int|
        0 <= i < goals_from(d.goal_view(), 0, entities_view(known@), Seq::empty()).len()
            && #[trigger] all_hold(
            registry.state_view(),
            world@,
            d.actor_view(),
            goals_from(d.goal_view(), 0, entities_view(known@), Seq::empty())[i],
        )
}

} // verus!
