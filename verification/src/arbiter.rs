//! The arbiter: which goal an agent pursues this tick, and the commitment
//! that keeps it from thrashing between two near-equal goals. An incumbent
//! holds its commitment until a challenger's urgency exceeds it by a margin.

use vstd::prelude::*;
use crate::affordance::{Clause, PredicateV};

verus! {

/// A goal's priority; higher is more urgent.
pub type Urgency = u32;

/// A want handed to the arbiter: the predicate to make true and how urgently.
/// Goal identity is its predicate, not its urgency.
#[derive(Debug, PartialEq, Eq)]
pub struct Goal {
    pub predicate: Clause,
    pub urgency: Urgency,
}

/// Model of a goal: its predicate and urgency.
pub type GoalV = (Seq<PredicateV>, u32);

impl View for Goal {
    type V = GoalV;

    open spec fn view(&self) -> GoalV {
        (self.predicate@, self.urgency)
    }
}

impl Clone for Goal {
    fn clone(&self) -> (r: Self)
        ensures
            r@ == self@,
    {
        Goal { predicate: self.predicate.clone(), urgency: self.urgency }
    }
}

/// `a + b`, saturating at `u32::MAX`.
pub open spec fn sat_add(a: u32, b: u32) -> u32 {
    if a + b > u32::MAX {
        u32::MAX
    } else {
        (a + b) as u32
    }
}

/// Whether a goal is in the field: every goal when nothing is excluded,
/// otherwise the goals whose predicate differs from the excluded one.
pub open spec fn keep(excluded: Option<Seq<PredicateV>>, g: GoalV) -> bool {
    match excluded {
        None => true,
        Some(p) => g.0 != p,
    }
}

/// Goal `i` is a highest-urgency goal among those in the field, and the last
/// such on a tie.
pub open spec fn is_last_max(gs: Seq<GoalV>, excluded: Option<Seq<PredicateV>>, i: int) -> bool {
    &&& 0 <= i < gs.len()
    &&& keep(excluded, gs[i])
    &&& forall|j: int| 0 <= j < gs.len() && keep(excluded, #[trigger] gs[j]) ==> gs[j].1 <= gs[i].1
    &&& forall|j: int| i < j < gs.len() && keep(excluded, #[trigger] gs[j]) ==> gs[j].1 < gs[i].1
}

/// `r` is the highest-urgency goal of `gs` (the last one on a tie), or none
/// when `gs` is empty.
pub open spec fn picks_highest(gs: Seq<GoalV>, r: Option<GoalV>) -> bool {
    if gs.len() == 0 {
        r is None
    } else {
        exists|i: int| is_last_max(gs, None, i) && r == Some(gs[i])
    }
}

/// The first goal of `gs` whose predicate is `p`, if any.
pub open spec fn first_with(gs: Seq<GoalV>, p: Seq<PredicateV>) -> Option<int> {
    if exists|i: int| 0 <= i < gs.len() && gs[i].0 == p {
        Some(
            choose|i: int|
                0 <= i < gs.len() && gs[i].0 == p && forall|j: int| 0 <= j < i ==> gs[j].0 != p,
        )
    } else {
        None
    }
}

/// What `select` commits to, given the previous commitment, the offered
/// goals, and the hysteresis margin.
pub open spec fn selection(
    incumbent: Option<GoalV>,
    gs: Seq<GoalV>,
    hysteresis: u32,
    r: Option<GoalV>,
) -> bool {
    match incumbent {
        None => picks_highest(gs, r),
        Some(inc) => match first_with(gs, inc.0) {
            None => picks_highest(gs, r),
            Some(f) => {
                let others = Some(inc.0);
                if exists|c: int| #[trigger] is_last_max(gs, others, c) && gs[c].1 > sat_add(
                    gs[f].1,
                    hysteresis,
                ) {
                    exists|c: int| #[trigger] is_last_max(gs, others, c) && r == Some(gs[c])
                } else {
                    r == Some(gs[f])
                }
            },
        },
    }
}

/// Picks the goal an agent pursues and commits to it across ticks.
pub struct Arbiter {
    committed: Option<Goal>,
    hysteresis: Urgency,
}

fn goals_view(goals: &[Goal]) -> (r: Ghost<Seq<GoalV>>)
    ensures
        r@ == goals@.map_values(|g: Goal| g@),
{
    Ghost(goals@.map_values(|g: Goal| g@))
}

/// The highest-urgency goal in a set (the last one on a tie), or `None` if the
/// set is empty.
fn highest(goals: &[Goal]) -> (r: Option<Goal>)
    ensures
        picks_highest(goals@.map_values(|g: Goal| g@), match r {
            Some(g) => Some(g@),
            None => None,
        }),
{
    let ghost gs = goals@.map_values(|g: Goal| g@);
    if goals.len() == 0 {
        return None;
    }
    let mut best: usize = 0;
    let mut i: usize = 1;
    while i < goals.len()
        invariant
            1 <= i <= goals@.len(),
            best < i,
            gs == goals@.map_values(|g: Goal| g@),
            forall|j: int| 0 <= j < i ==> #[trigger] gs[j].1 <= gs[best as int].1,
            forall|j: int| best < j < i ==> #[trigger] gs[j].1 < gs[best as int].1,
        decreases goals.len() - i,
    {
        assert(gs[i as int] == goals@[i as int]@);
        assert(gs[best as int] == goals@[best as int]@);
        if goals[i].urgency >= goals[best].urgency {
            best = i;
        }
        i = i + 1;
    }
    assert(gs[best as int] == goals@[best as int]@);
    assert(is_last_max(gs, None, best as int));
    Some(goals[best].clone())
}

impl Arbiter {
    pub closed spec fn committed_view(&self) -> Option<GoalV> {
        match self.committed {
            Some(g) => Some(g@),
            None => None,
        }
    }

    pub closed spec fn hysteresis_view(&self) -> u32 {
        self.hysteresis
    }

    /// An arbiter with the given anti-thrash margin, committed to nothing.
    pub fn new(hysteresis: Urgency) -> (r: Self)
        ensures
            r.committed_view() is None,
            r.hysteresis_view() == hysteresis,
    {
        Arbiter { committed: None, hysteresis }
    }

    /// The goal to pursue this tick, given the current candidate set. Keeps the
    /// committed goal (its urgency refreshed from this tick's offering) unless
    /// it has left the set or some challenger's urgency exceeds it by more than
    /// the hysteresis; an empty set commits to nothing.
    pub fn select(&mut self, goals: &[Goal]) -> (r: Option<Goal>)
        ensures
            selection(
                old(self).committed_view(),
                goals@.map_values(|g: Goal| g@),
                old(self).hysteresis_view(),
                final(self).committed_view(),
            ),
            final(self).committed_view() == match r {
                Some(g) => Some(g@),
                None => None::<GoalV>,
            },
            final(self).hysteresis_view() == old(self).hysteresis_view(),
    {
        let ghost gs = goals@.map_values(|g: Goal| g@);
        let incumbent = self.committed.take();
        let next = match incumbent {
            None => highest(goals),
            Some(inc) => {
                let ghost p = inc.predicate@;
                let mut f: usize = 0;
                while f < goals.len()
                    invariant
                        f <= goals@.len(),
                        gs == goals@.map_values(|g: Goal| g@),
                        p == inc.predicate@,
                        forall|j: int| 0 <= j < f ==> gs[j].0 != p,
                    ensures
                        f <= goals@.len(),
                        forall|j: int| 0 <= j < f ==> gs[j].0 != p,
                        f < goals@.len() ==> gs[f as int].0 == p,
                    decreases goals.len() - f,
                {
                    assert(gs[f as int] == goals@[f as int]@);
                    if goals[f].predicate.same(&inc.predicate) {
                        break;
                    }
                    f = f + 1;
                }
                if f == goals.len() {
                    highest(goals)
                } else {
                    assert(gs[f as int] == goals@[f as int]@);
                    proof {
                        assert(gs[f as int].0 == p && forall|j: int| 0 <= j < f ==> gs[j].0 != p);
                        let k = first_with(gs, p)->0;
                        assert(k == f) by {
                            if k < f {
                                assert(gs[k].0 != p);
                            } else if k > f {
                                assert(gs[f as int].0 == p);
                            }
                        }
                    }
                    let ghost others = Some(p);
                    let mut best: Option<usize> = None;
                    let mut i: usize = 0;
                    while i < goals.len()
                        invariant
                            i <= goals@.len(),
                            gs == goals@.map_values(|g: Goal| g@),
                            p == inc.predicate@,
                            others == Some(p),
                            match best {
                                None => forall|j: int| 0 <= j < i ==> !keep(others, #[trigger] gs[j]),
                                Some(b) => b < i && keep(others, gs[b as int]) && (forall|j: int|
                                    0 <= j < i && keep(others, #[trigger] gs[j]) ==> gs[j].1 <= gs[b as int].1)
                                    && (forall|j: int|
                                    b < j < i && keep(others, #[trigger] gs[j]) ==> gs[j].1 < gs[b as int].1),
                            },
                        decreases goals.len() - i,
                    {
                        assert(gs[i as int] == goals@[i as int]@);
                        if !goals[i].predicate.same(&inc.predicate) {
                            match best {
                                None => {
                                    best = Some(i);
                                },
                                Some(b) => {
                                    assert(gs[b as int] == goals@[b as int]@);
                                    if goals[i].urgency >= goals[b].urgency {
                                        best = Some(i);
                                    }
                                },
                            }
                        }
                        i = i + 1;
                    }
                    assert(gs[f as int] == goals@[f as int]@);
                    let current = goals[f].urgency;
                    let threshold = if current > u32::MAX - self.hysteresis {
                        u32::MAX
                    } else {
                        current + self.hysteresis
                    };
                    assert(threshold == sat_add(gs[f as int].1, self.hysteresis));
                    match best {
                        Some(c) => {
                            assert(gs[c as int] == goals@[c as int]@);
                            assert(is_last_max(gs, others, c as int));
                            if goals[c].urgency > threshold {
                                Some(goals[c].clone())
                            } else {
                                proof {
                                    assert forall|c2: int| #[trigger] is_last_max(gs, others, c2)
                                        implies !(gs[c2].1 > sat_add(gs[f as int].1, self.hysteresis)) by {
                                        assert(gs[c2].1 <= gs[c as int].1);
                                    }
                                }
                                Some(goals[f].clone())
                            }
                        },
                        None => {
                            proof {
                                assert forall|c2: int| !#[trigger] is_last_max(gs, others, c2) by {
                                    if 0 <= c2 < gs.len() {
                                        assert(!keep(others, gs[c2]));
                                    }
                                }
                            }
                            Some(goals[f].clone())
                        },
                    }
                }
            },
        };
        let r = match &next {
            Some(g) => Some(g.clone()),
            None => None,
        };
        self.committed = next;
        r
    }

    /// Drop the committed goal so the next `select` re-picks.
    pub fn release(&mut self)
        ensures
            final(self).committed_view() is None,
            final(self).hysteresis_view() == old(self).hysteresis_view(),
    {
        self.committed = None;
    }

    /// The goal currently committed to, if any.
    pub fn committed(&self) -> (r: Option<&Goal>)
        ensures
            match r {
                Some(g) => self.committed_view() == Some(g@),
                None => self.committed_view() is None,
            },
    {
        self.committed.as_ref()
    }
}

/// Hysteresis never lets the commitment lag the best offer by more than the
/// margin: when goals are offered once each (identity is the predicate),
/// whatever `select` commits to is one of the offered goals and every offered
/// urgency is at most its urgency plus the margin; with a zero margin it is
/// always a highest-urgency goal. An empty offer commits to nothing.
pub proof fn lemma_selection_within_band(
    incumbent: Option<GoalV>,
    gs: Seq<GoalV>,
    hysteresis: u32,
    r: Option<GoalV>,
)
    requires
        selection(incumbent, gs, hysteresis, r),
        forall|a: int, b: int| 0 <= a < b < gs.len() ==> #[trigger] gs[a].0 != #[trigger] gs[b].0,
    ensures
        r is None <==> gs.len() == 0,
        r matches Some(g) ==> forall|j: int| 0 <= j < gs.len() ==> gs[j].1 <= sat_add(g.1, hysteresis),
        r matches Some(g) ==> exists|j: int| 0 <= j < gs.len() && gs[j] == g,
{
    let keep_first = match incumbent {
        None => false,
        Some(inc) => first_with(gs, inc.0) is Some,
    };
    if !keep_first {
        if gs.len() > 0 {
            let i = choose|i: int| is_last_max(gs, None, i) && r == Some(gs[i]);
            assert forall|j: int| 0 <= j < gs.len() implies gs[j].1 <= sat_add(gs[i].1, hysteresis) by {
            }
        }
    } else {
        let inc = incumbent->0;
        let f = first_with(gs, inc.0)->0;
        let others = Some(inc.0);
        assert(0 <= f < gs.len() && gs[f].0 == inc.0) by {
            let w = choose|i: int| 0 <= i < gs.len() && gs[i].0 == inc.0;
            assert(0 <= w < gs.len() && gs[w].0 == inc.0);
        }
        if exists|c: int| #[trigger] is_last_max(gs, others, c) && gs[c].1 > sat_add(
            gs[f].1,
            hysteresis,
        ) {
            let c = choose|c: int| #[trigger] is_last_max(gs, others, c) && r == Some(gs[c]);
            assert forall|j: int| 0 <= j < gs.len() implies gs[j].1 <= sat_add(gs[c].1, hysteresis) by {
                if keep(others, gs[j]) {
                } else {
                    if j != f {
                        if j < f {
                            assert(gs[j].0 != gs[f].0);
                        } else {
                            assert(gs[f].0 != gs[j].0);
                        }
                    }
                    let c0 = choose|c: int| #[trigger] is_last_max(gs, others, c) && gs[c].1 > sat_add(
                        gs[f].1,
                        hysteresis,
                    );
                    assert(gs[c0].1 <= gs[c].1);
                }
            }
        } else {
            assert forall|j: int| 0 <= j < gs.len() implies gs[j].1 <= sat_add(gs[f].1, hysteresis) by {
                if keep(others, gs[j]) {
                    if !(gs[j].1 <= sat_add(gs[f].1, hysteresis)) {
                        lemma_last_max_exists(gs, others, j);
                    }
                } else if j != f {
                    if j < f {
                        assert(gs[j].0 != gs[f].0);
                    } else {
                        assert(gs[f].0 != gs[j].0);
                    }
                }
            }
        }
    }
}

/// With a zero margin the arbiter has no memory that matters: whatever it
/// committed to before, when goals are offered once each it commits to one of
/// them whose urgency is the highest offered, and to nothing on an empty offer.
pub proof fn lemma_zero_margin_picks_highest(incumbent: Option<GoalV>, gs: Seq<GoalV>, r: Option<GoalV>)
    requires
        selection(incumbent, gs, 0, r),
        forall|a: int, b: int| 0 <= a < b < gs.len() ==> #[trigger] gs[a].0 != #[trigger] gs[b].0,
    ensures
        r is None <==> gs.len() == 0,
        r matches Some(g) ==> forall|j: int| 0 <= j < gs.len() ==> gs[j].1 <= g.1,
        r matches Some(g) ==> exists|j: int| 0 <= j < gs.len() && gs[j] == g,
{
    lemma_selection_within_band(incumbent, gs, 0, r);
}

/// The index of the last highest-urgency goal passing `keep` among the first
/// `n` goals.
pub open spec fn last_max_upto(gs: Seq<GoalV>, excluded: Option<Seq<PredicateV>>, n: nat) -> Option<int>
    decreases n,
{
    if n == 0 {
        None
    } else {
        let prev = last_max_upto(gs, excluded, (n - 1) as nat);
        if keep(excluded, gs[n - 1]) && (prev is None || gs[n - 1].1 >= gs[prev->0].1) {
            Some(n - 1)
        } else {
            prev
        }
    }
}

proof fn lemma_last_max_upto(gs: Seq<GoalV>, excluded: Option<Seq<PredicateV>>, n: nat)
    requires
        n <= gs.len(),
    ensures
        match last_max_upto(gs, excluded, n) {
            None => forall|j: int| 0 <= j < n ==> !keep(excluded, #[trigger] gs[j]),
            Some(c) => 0 <= c < n && keep(excluded, gs[c]) && (forall|j: int|
                0 <= j < n && keep(excluded, #[trigger] gs[j]) ==> gs[j].1 <= gs[c].1) && (forall|j: int|
                c < j < n && keep(excluded, #[trigger] gs[j]) ==> gs[j].1 < gs[c].1),
        },
    decreases n,
{
    if n > 0 {
        lemma_last_max_upto(gs, excluded, (n - 1) as nat);
    }
}

proof fn lemma_last_max_exists(gs: Seq<GoalV>, excluded: Option<Seq<PredicateV>>, k: int)
    requires
        0 <= k < gs.len(),
        keep(excluded, gs[k]),
    ensures
        exists|c: int| #[trigger] is_last_max(gs, excluded, c) && gs[c].1 >= gs[k].1,
{
    lemma_last_max_upto(gs, excluded, gs.len());
    let c = last_max_upto(gs, excluded, gs.len())->0;
    assert(is_last_max(gs, excluded, c));
}

} // verus!
