//! The capability interner: the one place a capability name becomes a `CapId`.
//! Ids are minted in registration order.

use vstd::prelude::*;
use crate::caps::{CapId, CapSet};

verus! {

/// The registration position of `name` among `names`, when present.
pub open spec fn position_of(names: Seq<Seq<char>>, name: Seq<char>) -> Option<int> {
    if exists|i: int| 0 <= i < names.len() && names[i] == name {
        Some(choose|i: int| 0 <= i < names.len() && names[i] == name)
    } else {
        None
    }
}

/// A name -> `CapId` interner. It never shrinks, so a minted id stays valid.
pub struct CapRegistry {
    names: Vec<String>,
}

impl View for CapRegistry {
    type V = Seq<Seq<char>>;

    /// The registered names in registration order; a name's id is its position.
    closed spec fn view(&self) -> Seq<Seq<char>> {
        self.names@.map_values(|s: String| s@)
    }
}

/// Linear search for a string among strings, by content.
pub fn find_string(names: &Vec<String>, name: &str) -> (r: Option<usize>)
    ensures
        r matches Some(i) ==> i < names@.len() && names@[i as int]@ == name@ && forall|j: int|
            0 <= j < i ==> names@[j]@ != name@,
        r is None ==> forall|j: int| 0 <= j < names@.len() ==> names@[j]@ != name@,
{
    let wanted = name.to_owned();
    let mut i: usize = 0;
    while i < names.len()
        invariant
            i <= names@.len(),
            wanted@ == name@,
            forall|j: int| 0 <= j < i ==> names@[j]@ != name@,
        decreases names.len() - i,
    {
        if names[i] == wanted {
            return Some(i);
        }
        i = i + 1;
    }
    None
}

impl CapRegistry {
    #[verifier::type_invariant]
    spec fn inv(self) -> bool {
        &&& self@.no_duplicates()
        &&& self@.len() <= u32::MAX
    }

    pub fn new() -> (r: Self)
        ensures
            r@ == Seq::<Seq<char>>::empty(),
            r@.no_duplicates(),
    {
        let r = CapRegistry { names: Vec::new() };
        assert(r@ =~= Seq::<Seq<char>>::empty());
        r
    }

    /// Intern a capability name, returning its id. Idempotent: a known name
    /// returns its existing id; a new name gets the next id in order.
    pub fn register(&mut self, name: &str) -> (r: CapId)
        requires
            old(self)@.len() < u32::MAX,
        ensures
            old(self)@.contains(name@) ==> final(self)@ == old(self)@ && old(self)@[r.0 as int]
                == name@,
            !old(self)@.contains(name@) ==> final(self)@ == old(self)@.push(name@) && r.0
                == old(self)@.len(),
            r.0 < final(self)@.len(),
            final(self)@[r.0 as int] == name@,
            final(self)@.no_duplicates(),
            old(self)@.no_duplicates(),
    {
        proof {
            use_type_invariant(&*self);
        }
        match find_string(&self.names, name) {
            Some(i) => {
                assert(self@[i as int] == name@);
                CapId(i as u32)
            },
            None => {
                proof {
                    if old(self)@.contains(name@) {
                        let k = choose|k: int| 0 <= k < old(self)@.len() && old(self)@[k] == name@;
                        assert(self.names@[k]@ == name@);
                    }
                }
                let id = CapId(self.names.len() as u32);
                let ghost orig = self@;
                assert(forall|j: int| 0 <= j < orig.len() ==> orig[j] != name@);
                let mut names = Vec::new();
                std::mem::swap(&mut names, &mut self.names);
                let ghost before = names@.map_values(|s: String| s@);
                names.push(name.to_owned());
                proof {
                    assert(before =~= orig);
                    assert(names@.map_values(|s: String| s@) =~= before.push(name@));
                    assert(before.push(name@).no_duplicates()) by {
                        assert forall|a: int, b: int|
                            0 <= a < before.len() + 1 && 0 <= b < before.len() + 1 && a != b
                            implies before.push(name@)[a] != before.push(name@)[b] by {
                            if a == before.len() {
                                assert(before[b] == orig[b]);
                            } else if b == before.len() {
                                assert(before[a] == orig[a]);
                            }
                        }
                    }
                }
                self.names = names;
                id
            },
        }
    }

    /// Resolve a name registered earlier, or `None` if it was never registered.
    pub fn resolve(&self, name: &str) -> (r: Option<CapId>)
        ensures
            r is Some <==> self@.contains(name@),
            r matches Some(id) ==> id.0 < self@.len() && self@[id.0 as int] == name@,
            r matches Some(id) ==> forall|j: int| 0 <= j < self@.len() && self@[j] == name@ ==> j == id.0,
            self@.no_duplicates(),
    {
        proof {
            use_type_invariant(self);
        }
        match find_string(&self.names, name) {
            Some(i) => {
                assert(self@[i as int] == name@);
                Some(CapId(i as u32))
            },
            None => {
                proof {
                    if self@.contains(name@) {
                        let k = choose|k: int| 0 <= k < self@.len() && self@[k] == name@;
                        assert(self.names@[k]@ == name@);
                    }
                }
                None
            },
        }
    }

    /// Resolve a batch of grant names into a `CapSet`, returning the names that
    /// did not resolve separately (in input order) rather than dropping them.
    pub fn resolve_set(&self, names: &[String]) -> (r: (CapSet, Vec<String>))
        ensures
            forall|c: CapId| #[trigger]
                r.0@.contains(c) <==> exists|i: int|
                    0 <= i < names@.len() && c.0 < self@.len() && self@[c.0 as int]
                        == names@[i]@,
            r.1@.map_values(|s: String| s@) == names@.map_values(|s: String| s@).filter(
                |n: Seq<char>| !self@.contains(n),
            ),
            self@.no_duplicates(),
    {
        proof {
            use_type_invariant(self);
        }
        let ghost all = names@.map_values(|s: String| s@);
        let ghost unknown_of = |n: Seq<char>| !self@.contains(n);
        let mut resolved = CapSet::new();
        let mut unknown: Vec<String> = Vec::new();
        let mut i: usize = 0;
        while i < names.len()
            invariant
                i <= names@.len(),
                all == names@.map_values(|s: String| s@),
                unknown_of == (|n: Seq<char>| !self@.contains(n)),
                self@.no_duplicates(),
                forall|c: CapId| #[trigger]
                    resolved@.contains(c) <==> exists|k: int|
                        0 <= k < i && c.0 < self@.len() && self@[c.0 as int] == names@[k]@,
                unknown@.map_values(|s: String| s@) == all.take(i as int).filter(unknown_of),
            decreases names.len() - i,
        {
            let ghost prev_unknown = unknown@.map_values(|s: String| s@);
            match self.resolve(names[i].as_str()) {
                Some(id) => {
                    resolved.insert(id);
                    proof {
                        assert forall|c: CapId| #[trigger]
                            resolved@.contains(c) implies exists|k: int|
                                0 <= k < i + 1 && c.0 < self@.len() && self@[c.0 as int]
                                    == names@[k]@ by {
                            if c == id {
                                assert(self@[c.0 as int] == names@[i as int]@);
                            }
                        }
                        assert forall|c: CapId|
                            (exists|k: int|
                                0 <= k < i + 1 && c.0 < self@.len() && self@[c.0 as int]
                                    == names@[k]@) implies #[trigger] resolved@.contains(c) by {
                            let k = choose|k: int|
                                0 <= k < i + 1 && c.0 < self@.len() && self@[c.0 as int]
                                    == names@[k]@;
                            if k == i {
                                assert(self@[c.0 as int] == self@[id.0 as int]);
                                assert(c.0 == id.0);
                            }
                        }
                    }
                },
                None => {
                    unknown.push(names[i].clone());
                    proof {
                        assert(unknown@.map_values(|s: String| s@) =~= prev_unknown.push(
                            names@[i as int]@,
                        ));
                    }
                },
            }
            proof {
                assert(all.take(i + 1) =~= all.take(i as int).push(all[i as int]));
                all.take(i as int).lemma_filter_push(all[i as int], unknown_of);
            }
            i = i + 1;
        }
        assert(all.take(names@.len() as int) =~= all);
        (resolved, unknown)
    }

    /// How many capabilities are registered.
    pub fn len(&self) -> (r: usize)
        ensures
            r == self@.len(),
    {
        self.names.len()
    }

    /// Whether no capability is registered.
    pub fn is_empty(&self) -> (r: bool)
        ensures
            r == (self@.len() == 0),
    {
        self.names.len() == 0
    }
}

/// Registration is idempotent and distinct names get distinct ids: the ids the
/// registry hands out are exactly the registration positions, so two names
/// resolve to the same id iff they are the same name.
pub proof fn lemma_ids_are_identity(reg: &CapRegistry, a: CapId, b: CapId)
    requires
        reg@.no_duplicates(),
        a.0 < reg@.len(),
        b.0 < reg@.len(),
    ensures
        (reg@[a.0 as int] == reg@[b.0 as int]) <==> a == b,
{
}

} // verus!
