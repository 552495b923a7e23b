//! Capability identity and the authorization verdict. This module decides only
//! whether a verdict admits a capability; it knows nothing of accounts,
//! sessions, or where grants come from.

use vstd::prelude::*;

verus! {

/// An interned capability id. Equality is identity.
#[derive(Clone, Copy, Debug, PartialEq, Eq, Structural, Hash)]
pub struct CapId(pub u32);

/// The set of capabilities an account holds.
pub struct CapSet {
    ids: Vec<CapId>,
}

impl View for CapSet {
    type V = Set<CapId>;

    closed spec fn view(&self) -> Set<CapId> {
        self.ids@.to_set()
    }
}

impl CapSet {
    #[verifier::type_invariant]
    spec fn inv(self) -> bool {
        self.ids@.no_duplicates()
    }

    /// An empty grant set.
    pub fn new() -> (r: Self)
        ensures
            r@ == Set::<CapId>::empty(),
    {
        let r = CapSet { ids: Vec::new() };
        assert(r.ids@.to_set() =~= Set::<CapId>::empty());
        r
    }

    /// A grant set holding exactly the given ids (repeats collapse).
    pub fn from_ids(ids: Vec<CapId>) -> (r: Self)
        ensures
            r@ == ids@.to_set(),
    {
        let mut r = CapSet::new();
        let mut i: usize = 0;
        while i < ids.len()
            invariant
                i <= ids.len(),
                r@ == ids@.take(i as int).to_set(),
            decreases ids.len() - i,
        {
            r.insert(ids[i]);
            assert(ids@.take(i + 1) =~= ids@.take(i as int).push(ids@[i as int]));
            proof {
                ids@.take(i as int).lemma_push_to_set_commute(ids@[i as int]);
            }
            i = i + 1;
        }
        assert(ids@.take(ids@.len() as int) =~= ids@);
        r
    }

    fn find(&self, cap: CapId) -> (r: Option<usize>)
        ensures
            r matches Some(i) ==> i < self.ids@.len() && self.ids@[i as int] == cap,
            r is None <==> !self@.contains(cap),
    {
        let mut i: usize = 0;
        while i < self.ids.len()
            invariant
                i <= self.ids@.len(),
                forall|j: int| 0 <= j < i ==> self.ids@[j] != cap,
            decreases self.ids.len() - i,
        {
            if self.ids[i] == cap {
                return Some(i);
            }
            i = i + 1;
        }
        proof {
            if self.ids@.to_set().contains(cap) {
                assert(self.ids@.contains(cap));
            }
        }
        None
    }

    /// Add a capability; returns whether it was newly inserted.
    pub fn insert(&mut self, cap: CapId) -> (r: bool)
        ensures
            r == !old(self)@.contains(cap),
            final(self)@ == old(self)@.insert(cap),
    {
        proof {
            use_type_invariant(&*self);
        }
        if self.find(cap).is_some() {
            assert(old(self)@.insert(cap) =~= old(self)@);
            return false;
        }
        let mut ids = Vec::new();
        std::mem::swap(&mut ids, &mut self.ids);
        let ghost before = ids@;
        ids.push(cap);
        proof {
            before.lemma_push_to_set_commute(cap);
            assert(!before.contains(cap)) by {
                if before.contains(cap) {
                    assert(before.to_set().contains(cap));
                }
            }
            assert(ids@.no_duplicates()) by {
                assert forall|a: int, b: int|
                    0 <= a < ids@.len() && 0 <= b < ids@.len() && a != b implies ids@[a]
                    != ids@[b] by {
                    if a < before.len() && b < before.len() {
                    } else if a == before.len() {
                        assert(before[b] == ids@[b]);
                    } else {
                        assert(before[a] == ids@[a]);
                    }
                }
            }
        }
        self.ids = ids;
        true
    }

    /// Remove a capability; returns whether it was present.
    pub fn remove(&mut self, cap: CapId) -> (r: bool)
        ensures
            r == old(self)@.contains(cap),
            final(self)@ == old(self)@.remove(cap),
    {
        proof {
            use_type_invariant(&*self);
        }
        match self.find(cap) {
            None => {
                assert(old(self)@.remove(cap) =~= old(self)@);
                false
            },
            Some(i) => {
                let mut ids = Vec::new();
                std::mem::swap(&mut ids, &mut self.ids);
                let ghost before = ids@;
                ids.remove(i);
                proof {
                    assert(ids@ =~= before.remove(i as int));
                    assert(ids@.no_duplicates()) by {
                        assert forall|a: int, b: int|
                            0 <= a < ids@.len() && 0 <= b < ids@.len() && a != b implies ids@[a]
                            != ids@[b] by {
                            let a2 = if a < i { a } else { a + 1 };
                            let b2 = if b < i { b } else { b + 1 };
                            assert(ids@[a] == before[a2]);
                            assert(ids@[b] == before[b2]);
                        }
                    }
                    assert(ids@.to_set() =~= before.to_set().remove(cap)) by {
                        assert forall|x: CapId| ids@.to_set().contains(x) implies before.to_set().remove(cap).contains(x) by {
                            let k = choose|k: int| 0 <= k < ids@.len() && ids@[k] == x;
                            let k2 = if k < i { k } else { k + 1 };
                            assert(before[k2] == x);
                            assert(before.contains(x));
                        }
                        assert forall|x: CapId| before.to_set().remove(cap).contains(x) implies ids@.to_set().contains(x) by {
                            let k = choose|k: int| 0 <= k < before.len() && before[k] == x;
                            assert(k != i);
                            let k2 = if k < i { k } else { k - 1 };
                            assert(ids@[k2] == x);
                            assert(ids@.contains(x));
                        }
                    }
                }
                self.ids = ids;
                true
            },
        }
    }

    /// Whether this set holds `cap`.
    pub fn contains(&self, cap: CapId) -> (r: bool)
        ensures
            r == self@.contains(cap),
    {
        self.find(cap).is_some()
    }

    /// How many capabilities are granted.
    pub fn len(&self) -> (r: usize)
        ensures
            r == self@.len(),
            self@.finite(),
    {
        proof {
            use_type_invariant(self);
            self.ids@.unique_seq_to_set();
        }
        self.ids.len()
    }

    /// Whether no capability is granted.
    pub fn is_empty(&self) -> (r: bool)
        ensures
            r == (self@.len() == 0),
    {
        self.len() == 0
    }

    /// An independent copy holding the same capabilities.
    pub fn copy(&self) -> (r: CapSet)
        ensures
            r@ == self@,
    {
        proof {
            use_type_invariant(self);
        }
        CapSet { ids: self.ids.clone() }
    }

    /// The set is finite.
    pub proof fn lemma_finite(&self)
        ensures
            self@.finite(),
    {
        self.ids@.lemma_cardinality_of_set();
    }
}

/// The resolved authorization a command runs under: the granted capabilities and
/// whether superuser is in force.
pub struct Verdict {
    caps: CapSet,
    su_override: bool,
}

impl Verdict {
    pub closed spec fn caps_view(&self) -> Set<CapId> {
        self.caps@
    }

    pub closed spec fn su(&self) -> bool {
        self.su_override
    }

    /// Whether this verdict admits `cap` in the model.
    pub open spec fn admits(&self, cap: CapId) -> bool {
        self.su() || self.caps_view().contains(cap)
    }

    /// The verdict for an account: its resolved caps, and whether su is in force.
    pub fn new(caps: CapSet, su_override: bool) -> (r: Self)
        ensures
            r.caps_view() == caps@,
            r.su() == su_override,
    {
        Verdict { caps, su_override }
    }

    /// A connection with no account: no caps, no su.
    pub fn guest() -> (r: Self)
        ensures
            r.caps_view() == Set::<CapId>::empty(),
            !r.su(),
    {
        Verdict { caps: CapSet::new(), su_override: false }
    }

    /// Whether this verdict admits `cap`: su bypasses the grant set, otherwise
    /// plain membership.
    pub fn permits(&self, cap: CapId) -> (r: bool)
        ensures
            r == self.admits(cap),
            r == (self.su() || self.caps_view().contains(cap)),
    {
        self.su_override || self.caps.contains(cap)
    }

    /// Whether superuser is in force.
    pub fn is_su(&self) -> (r: bool)
        ensures
            r == self.su(),
    {
        self.su_override
    }
}

/// A guest verdict admits no capability at all.
pub proof fn lemma_guest_admits_nothing(v: Verdict, cap: CapId)
    requires
        v.caps_view() == Set::<CapId>::empty(),
        !v.su(),
    ensures
        !v.admits(cap),
{
}

/// Permission required to run a verb: open, or gated on one capability.
#[derive(Clone, Copy, Debug, PartialEq, Eq, Structural)]
pub enum Gate {
    Open,
    Cap(CapId),
}

impl Gate {
    pub open spec fn admits(self, verdict: &Verdict) -> bool {
        match self {
            Gate::Open => true,
            Gate::Cap(cap) => verdict.admits(cap),
        }
    }

    /// Whether `verdict` passes this gate.
    pub fn permits(self, verdict: &Verdict) -> (r: bool)
        ensures
            r == self.admits(verdict),
    {
        match self {
            Gate::Open => true,
            Gate::Cap(cap) => verdict.permits(cap),
        }
    }
}

} // verus!
