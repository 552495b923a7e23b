//! A secondary index over one component: which entities currently key to a
//! value. The index is derived state; the host rereads an entity's key from
//! the world and hands it here, and the index moves the entity between
//! buckets. Each bucket lists its entities in the order they were placed in it.

use vstd::prelude::*;
use crate::id::EntityId;

verus! {

/// How many entities an index expects per key. Diagnostic metadata, not
/// enforcement: a unique index still holds a duplicate and reports it.
#[derive(Clone, Copy, Debug, PartialEq, Eq, Structural)]
pub enum Cardinality {
    Many,
    Unique,
}

/// Model of an index's entries: each indexed entity with its key, in the order
/// the entities were last placed.
pub open spec fn entries_view(v: Seq<(EntityId, i64)>) -> Seq<(u64, i64)> {
    v.map_values(|e: (EntityId, i64)| (e.0.0, e.1))
}

/// The key `e` indexes under, if it is in the entries.
pub open spec fn key_in(s: Seq<(u64, i64)>, e: u64) -> Option<i64>
    decreases s.len(),
{
    if s.len() == 0 {
        None
    } else if s.last().0 == e {
        Some(s.last().1)
    } else {
        key_in(s.drop_last(), e)
    }
}

/// No entity is listed twice.
pub open spec fn entities_unique(s: Seq<(u64, i64)>) -> bool
    decreases s.len(),
{
    s.len() == 0 || (entities_unique(s.drop_last()) && key_in(s.drop_last(), s.last().0) is None)
}

/// The entities keyed to `k`, in placement order.
pub open spec fn bucket(s: Seq<(u64, i64)>, k: i64) -> Seq<u64>
    decreases s.len(),
{
    if s.len() == 0 {
        Seq::empty()
    } else if s.last().1 == k {
        bucket(s.drop_last(), k).push(s.last().0)
    } else {
        bucket(s.drop_last(), k)
    }
}

/// The entries with `e` taken out.
pub open spec fn without(s: Seq<(u64, i64)>, e: u64) -> Seq<(u64, i64)>
    decreases s.len(),
{
    if s.len() == 0 {
        Seq::empty()
    } else if s.last().0 == e {
        without(s.drop_last(), e)
    } else {
        without(s.drop_last(), e).push(s.last())
    }
}

/// The entries after reconciling `e` against its freshly read key: unchanged
/// when the key is the same, else `e` leaves its old bucket and, if it has a
/// key, joins the end of the new one.
pub open spec fn placed(s: Seq<(u64, i64)>, e: u64, key: Option<i64>) -> Seq<(u64, i64)> {
    if key_in(s, e) == key {
        s
    } else {
        match key {
            Some(k) => without(s, e).push((e, k)),
            None => without(s, e),
        }
    }
}

/// The entries after placing each `(entity, key)` in turn into an empty index.
pub open spec fn rebuilt(keys: Seq<(u64, Option<i64>)>) -> Seq<(u64, i64)>
    decreases keys.len(),
{
    if keys.len() == 0 {
        Seq::empty()
    } else {
        placed(rebuilt(keys.drop_last()), keys.last().0, keys.last().1)
    }
}

pub(crate) proof fn lemma_without_key(s: Seq<(u64, i64)>, e: u64, y: u64)
    ensures
        key_in(without(s, e), y) == if y == e {
            None
        } else {
            key_in(s, y)
        },
    decreases s.len(),
{
    if s.len() > 0 {
        lemma_without_key(s.drop_last(), e, y);
        if s.last().0 != e {
            assert(without(s, e).drop_last() =~= without(s.drop_last(), e));
        }
    }
}

proof fn lemma_without_unique(s: Seq<(u64, i64)>, e: u64)
    requires
        entities_unique(s),
    ensures
        entities_unique(without(s, e)),
    decreases s.len(),
{
    if s.len() > 0 {
        lemma_without_unique(s.drop_last(), e);
        if s.last().0 != e {
            assert(without(s, e).drop_last() =~= without(s.drop_last(), e));
            lemma_without_key(s.drop_last(), e, s.last().0);
        }
    }
}

pub(crate) proof fn lemma_without_absent(s: Seq<(u64, i64)>, e: u64)
    requires
        key_in(s, e) is None,
    ensures
        without(s, e) == s,
    decreases s.len(),
{
    if s.len() > 0 {
        lemma_without_absent(s.drop_last(), e);
        assert(s.drop_last().push(s.last()) =~= s);
    }
}

/// Placing `e` gives it exactly the key it was placed with, leaves every other
/// entity's key alone, and never lists an entity twice.
pub proof fn lemma_placed_keys(s: Seq<(u64, i64)>, e: u64, key: Option<i64>, y: u64)
    requires
        entities_unique(s),
    ensures
        entities_unique(placed(s, e, key)),
        key_in(placed(s, e, key), y) == if y == e {
            key
        } else {
            key_in(s, y)
        },
{
    lemma_without_key(s, e, y);
    lemma_without_key(s, e, e);
    lemma_without_unique(s, e);
    if key_in(s, e) != key {
        match key {
            Some(k) => {
                let w = without(s, e);
                assert(w.push((e, k)).drop_last() =~= w);
            },
            None => {},
        }
    }
}

/// Reconciling the same entity against the same key twice is the same as
/// doing it once, so a duplicate change trigger is harmless.
pub proof fn lemma_place_idempotent(s: Seq<(u64, i64)>, e: u64, key: Option<i64>)
    requires
        entities_unique(s),
    ensures
        placed(placed(s, e, key), e, key) == placed(s, e, key),
{
    lemma_placed_keys(s, e, key, e);
}

/// An entity is listed under a key exactly when it indexes under that key.
pub proof fn lemma_bucket_membership(s: Seq<(u64, i64)>, k: i64, e: u64)
    requires
        entities_unique(s),
    ensures
        bucket(s, k).contains(e) <==> key_in(s, e) == Some(k),
    decreases s.len(),
{
    if s.len() > 0 {
        lemma_bucket_membership(s.drop_last(), k, e);
        let b = bucket(s.drop_last(), k);
        if s.last().1 == k {
            if b.push(s.last().0).contains(e) && e != s.last().0 {
                let i = choose|i: int| 0 <= i < b.push(s.last().0).len() && b.push(s.last().0)[i] == e;
                assert(b[i] == e);
            }
            if b.contains(e) {
                let i = choose|i: int| 0 <= i < b.len() && b[i] == e;
                assert(b.push(s.last().0)[i] == e);
            }
            if e == s.last().0 {
                assert(b.push(s.last().0)[b.len() as int] == e);
            }
        }
    }
}

/// The entities in a bucket are distinct.
pub proof fn lemma_bucket_distinct(s: Seq<(u64, i64)>, k: i64)
    requires
        entities_unique(s),
    ensures
        bucket(s, k).no_duplicates(),
    decreases s.len(),
{
    if s.len() > 0 {
        lemma_bucket_distinct(s.drop_last(), k);
        if s.last().1 == k {
            lemma_bucket_membership(s.drop_last(), k, s.last().0);
        }
    }
}

proof fn lemma_key_in_has_entry(s: Seq<(u64, i64)>, e: u64)
    requires
        key_in(s, e) is Some,
    ensures
        exists|j: int| 0 <= j < s.len() && #[trigger] s[j] == (e, key_in(s, e)->0),
    decreases s.len(),
{
    if s.last().0 == e {
        assert(s[s.len() - 1] == (e, key_in(s, e)->0));
    } else {
        lemma_key_in_has_entry(s.drop_last(), e);
        let j = choose|j: int| 0 <= j < s.drop_last().len() && #[trigger] s.drop_last()[j] == (e, key_in(s.drop_last(), e)->0);
        assert(s[j] == s.drop_last()[j]);
    }
}

proof fn lemma_entry_key(s: Seq<(u64, i64)>, j: int)
    requires
        entities_unique(s),
        0 <= j < s.len(),
    ensures
        key_in(s, s[j].0) == Some(s[j].1),
    decreases s.len(),
{
    if j < s.len() - 1 {
        lemma_entry_key(s.drop_last(), j);
        assert(s.drop_last()[j] == s[j]);
    }
}

/// Model of an index.
pub struct IndexV {
    pub cardinality: Cardinality,
    pub source_tag: Seq<char>,
    pub entries: Seq<(u64, i64)>,
}

/// One secondary index: the key each indexed entity currently has, and for
/// each key the entities under it in placement order.
#[derive(Debug)]
pub struct Index {
    cardinality: Cardinality,
    source_tag: String,
    entries: Vec<(EntityId, i64)>,
}

impl View for Index {
    type V = IndexV;

    closed spec fn view(&self) -> IndexV {
        IndexV { cardinality: self.cardinality, source_tag: self.source_tag@, entries: entries_view(self.entries@) }
    }
}

/// Model of a list of entity ids.
pub open spec fn ids_view(v: Seq<EntityId>) -> Seq<u64> {
    v.map_values(|e: EntityId| e.0)
}

impl Index {
    #[verifier::type_invariant]
    spec fn inv(self) -> bool {
        entities_unique(entries_view(self.entries@))
    }

    /// No entity is ever listed twice.
    pub fn check_wf(&self)
        ensures
            entities_unique(self@.entries),
    {
        proof {
            use_type_invariant(self);
        }
    }

    /// An empty index over the component tagged `source_tag`.
    pub fn new(cardinality: Cardinality, source_tag: &str) -> (r: Self)
        ensures
            r@ == (IndexV { cardinality, source_tag: source_tag@, entries: Seq::empty() }),
    {
        let r = Index { cardinality, source_tag: source_tag.to_owned(), entries: Vec::new() };
        assert(entries_view(r.entries@) =~= Seq::empty());
        r
    }

    pub fn cardinality(&self) -> (r: Cardinality)
        ensures
            r == self@.cardinality,
    {
        self.cardinality
    }

    /// The tag of the component this index reads.
    pub fn source_tag(&self) -> (r: &str)
        ensures
            r@ == self@.source_tag,
    {
        self.source_tag.as_str()
    }

    /// The entities currently keyed to `key`, in placement order.
    pub fn get(&self, key: i64) -> (r: Vec<EntityId>)
        ensures
            ids_view(r@) == bucket(self@.entries, key),
    {
        let ghost s = entries_view(self.entries@);
        let mut out: Vec<EntityId> = Vec::new();
        let mut i: usize = 0;
        assert(s.take(0) =~= Seq::<(u64, i64)>::empty());
        assert(ids_view(out@) =~= Seq::<u64>::empty());
        while i < self.entries.len()
            invariant
                s == entries_view(self.entries@),
                i <= s.len(),
                ids_view(out@) == bucket(s.take(i as int), key),
            decreases self.entries.len() - i,
        {
            let ghost before = ids_view(out@);
            assert(s.take(i + 1).drop_last() =~= s.take(i as int));
            assert(s.take(i + 1).last() == s[i as int]);
            let entry = self.entries[i];
            if entry.1 == key {
                out.push(entry.0);
                assert(ids_view(out@) =~= before.push(entry.0.0));
            }
            i = i + 1;
        }
        assert(s.take(s.len() as int) =~= s);
        out
    }

    /// The key `entity` currently indexes under, if it is in this index.
    pub fn key_of(&self, entity: EntityId) -> (r: Option<i64>)
        ensures
            r == key_in(self@.entries, entity.0),
    {
        let ghost s = entries_view(self.entries@);
        let mut i: usize = self.entries.len();
        assert(s.take(s.len() as int) =~= s);
        while i > 0
            invariant
                s == entries_view(self.entries@),
                i <= s.len(),
                key_in(s, entity.0) == key_in(s.take(i as int), entity.0),
            decreases i,
        {
            assert(s.take(i as int).drop_last() =~= s.take(i - 1));
            assert(s.take(i as int).last() == s[i - 1]);
            if self.entries[i - 1].0.0 == entity.0 {
                return Some(self.entries[i - 1].1);
            }
            i = i - 1;
        }
        None
    }

    /// Reconcile `entity` against its freshly read key: move it between
    /// buckets if the key changed; a missing key drops it.
    pub fn place(&mut self, entity: EntityId, key: Option<i64>)
        ensures
            final(self)@ == (IndexV { entries: placed(old(self)@.entries, entity.0, key), ..old(self)@ }),
    {
        proof {
            use_type_invariant(&*self);
        }
        let ghost s = entries_view(self.entries@);
        let old_key = self.key_of(entity);
        if old_key == key {
            return;
        }
        let mut kept: Vec<(EntityId, i64)> = Vec::new();
        let mut i: usize = 0;
        assert(s.take(0) =~= Seq::<(u64, i64)>::empty());
        assert(entries_view(kept@) =~= Seq::<(u64, i64)>::empty());
        while i < self.entries.len()
            invariant
                s == entries_view(self.entries@),
                i <= s.len(),
                entries_view(kept@) == without(s.take(i as int), entity.0),
            decreases self.entries.len() - i,
        {
            let ghost before = entries_view(kept@);
            assert(s.take(i + 1).drop_last() =~= s.take(i as int));
            assert(s.take(i + 1).last() == s[i as int]);
            let entry = self.entries[i];
            if entry.0.0 != entity.0 {
                kept.push(entry);
                assert(entries_view(kept@) =~= before.push((entry.0.0, entry.1)));
            }
            i = i + 1;
        }
        assert(s.take(s.len() as int) =~= s);
        match key {
            Some(k) => {
                let ghost w = entries_view(kept@);
                kept.push((entity, k));
                assert(entries_view(kept@) =~= w.push((entity.0, k)));
            },
            None => {},
        }
        proof {
            lemma_placed_keys(s, entity.0, key, entity.0);
        }
        self.entries = kept;
    }

    /// Drop `entity` with no reread: the eviction path for a despawn.
    pub fn evict(&mut self, entity: EntityId)
        ensures
            final(self)@ == (IndexV { entries: without(old(self)@.entries, entity.0), ..old(self)@ }),
    {
        proof {
            use_type_invariant(&*self);
            let s = self@.entries;
            if key_in(s, entity.0) is None {
                lemma_without_absent(s, entity.0);
            }
        }
        self.place(entity, None);
    }

    /// Rebuild from a full scan: each enumerated entity with the key read for it.
    pub fn rebuild(&mut self, keyed: &[(EntityId, Option<i64>)])
        ensures
            final(self)@ == (IndexV {
                entries: rebuilt(keyed@.map_values(|k: (EntityId, Option<i64>)| (k.0.0, k.1))),
                ..old(self)@
            }),
    {
        let ghost kv = keyed@.map_values(|k: (EntityId, Option<i64>)| (k.0.0, k.1));
        self.entries = Vec::new();
        assert(entries_view(self.entries@) =~= Seq::<(u64, i64)>::empty());
        assert(kv.take(0) =~= Seq::<(u64, Option<i64>)>::empty());
        let mut i: usize = 0;
        while i < keyed.len()
            invariant
                kv == keyed@.map_values(|k: (EntityId, Option<i64>)| (k.0.0, k.1)),
                i <= kv.len(),
                self@ == (IndexV { entries: rebuilt(kv.take(i as int)), ..old(self)@ }),
            decreases keyed.len() - i,
        {
            assert(kv.take(i + 1).drop_last() =~= kv.take(i as int));
            assert(kv.take(i + 1).last() == kv[i as int]);
            let (entity, key) = keyed[i];
            self.place(entity, key);
            i = i + 1;
        }
        assert(kv.take(kv.len() as int) =~= kv);
    }

    /// Every bucket that breaks a unique index's promise, with its key and its
    /// complete list of entities. A many-valued index has none: shared keys are
    /// intentional there.
    pub fn conflicts(&self) -> (r: Vec<(i64, Vec<EntityId>)>)
        ensures
            self@.cardinality == Cardinality::Many ==> r@.len() == 0,
            forall|i: int| 0 <= i < r@.len() ==> ids_view(#[trigger] r@[i].1@) == bucket(self@.entries, r@[i].0)
                && bucket(self@.entries, r@[i].0).len() > 1,
            forall|i: int, j: int| 0 <= i < j < r@.len() ==> #[trigger] r@[i].0 != #[trigger] r@[j].0,
            self@.cardinality == Cardinality::Unique ==> forall|k: i64|
                #[trigger] bucket(self@.entries, k).len() > 1 ==> exists|i: int| 0 <= i < r@.len() && r@[i].0 == k,
    {
        proof {
            use_type_invariant(self);
        }
        let mut out: Vec<(i64, Vec<EntityId>)> = Vec::new();
        if self.cardinality == Cardinality::Many {
            return out;
        }
        let ghost s = entries_view(self.entries@);
        let mut i: usize = 0;
        while i < self.entries.len()
            invariant
                s == entries_view(self.entries@),
                self@.entries == s,
                entities_unique(s),
                i <= s.len(),
                forall|a: int| 0 <= a < out@.len() ==> ids_view(#[trigger] out@[a].1@) == bucket(s, out@[a].0)
                    && bucket(s, out@[a].0).len() > 1,
                forall|a: int, b: int| 0 <= a < b < out@.len() ==> #[trigger] out@[a].0 != #[trigger] out@[b].0,
                forall|j: int| 0 <= j < i && #[trigger] bucket(s, s[j].1).len() > 1 ==> exists|a: int|
                    0 <= a < out@.len() && out@[a].0 == s[j].1,
            decreases self.entries.len() - i,
        {
            let key = self.entries[i].1;
            let mut seen = false;
            let mut a: usize = 0;
            while a < out.len()
                invariant
                    a <= out@.len(),
                    seen <==> exists|b: int| 0 <= b < a && out@[b].0 == key,
                decreases out.len() - a,
            {
                if out[a].0 == key {
                    seen = true;
                }
                a = a + 1;
            }
            assert(a == out@.len());
            let ghost before = out@;
            if !seen {
                let members = self.get(key);
                if members.len() > 1 {
                    assert(ids_view(members@).len() == members@.len());
                    out.push((key, members));
                    assert(out@ =~= before.push((key, members)));
                    assert forall|b: int| 0 <= b < before.len() implies out@[b] == before[b] by {}
                }
            }
            proof {
                assert(s[i as int].1 == key);
                assert forall|j: int| 0 <= j < i + 1 && #[trigger] bucket(s, s[j].1).len() > 1 implies exists|b: int|
                    0 <= b < out@.len() && out@[b].0 == s[j].1 by {
                    if j < i {
                        let b = choose|b: int| 0 <= b < before.len() && before[b].0 == s[j].1;
                        assert(out@[b] == before[b]);
                    } else if seen {
                        let b = choose|b: int| 0 <= b < before.len() && before[b].0 == key;
                        assert(out@[b] == before[b]);
                    } else {
                        assert(out@[before.len() as int].0 == key);
                    }
                }
            }
            i = i + 1;
        }
        proof {
            assert forall|k: i64| #[trigger] bucket(s, k).len() > 1 implies exists|a: int|
                0 <= a < out@.len() && out@[a].0 == k by {
                let e = bucket(s, k)[0];
                assert(bucket(s, k).contains(e));
                lemma_bucket_membership(s, k, e);
                lemma_key_in_has_entry(s, e);
                let j = choose|j: int| 0 <= j < s.len() && #[trigger] s[j] == (e, key_in(s, e)->0);
                assert(s[j].1 == k);
            }
        }
        out
    }
}

} // verus!
