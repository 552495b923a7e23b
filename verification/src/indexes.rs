//! The named secondary indexes of a world. Each index reads one component
//! (by tag) and maps it to a key of its own; one component's change fans out to
//! every index over it, and a destroyed entity leaves every index. Registration
//! is frozen by the first successful baseline, and one component tag stands
//! for one component type.

use vstd::prelude::*;
use crate::fact::Fact;
use crate::id::EntityId;
use crate::index::{
    entities_unique, key_in, lemma_place_idempotent, lemma_without_absent, lemma_without_key, placed, rebuilt,
    without, Cardinality, Index, IndexV,
};
use crate::text::str_eq;

verus! {

/// Why a named index could not be borrowed.
#[derive(Debug, PartialEq, Eq)]
pub enum IndexLookupError {
    UnknownName { name: String },
    WrongKeyType { name: String, requested_type: String, registered_type: String },
}

/// Why the baseline could not be built.
#[derive(Debug, PartialEq, Eq)]
pub enum IndexBuildError {
    UnregisteredSource { tag: String },
}

/// Model of the registry.
pub struct RegistryV {
    pub names: Seq<Seq<char>>,
    pub key_types: Seq<Seq<char>>,
    pub indexes: Seq<IndexV>,
    pub sources: Seq<(Seq<char>, Seq<char>)>,
    pub activated: bool,
}

/// The component type bound to `tag`, if any.
pub open spec fn source_type_of(sources: Seq<(Seq<char>, Seq<char>)>, tag: Seq<char>) -> Option<Seq<char>>
    decreases sources.len(),
{
    if sources.len() == 0 {
        None
    } else if sources[0].0 == tag {
        Some(sources[0].1)
    } else {
        source_type_of(sources.drop_first(), tag)
    }
}

/// The positions of the indexes over `tag`, in registration order.
pub open spec fn readers(indexes: Seq<IndexV>, tag: Seq<char>) -> Seq<int>
    decreases indexes.len(),
{
    if indexes.len() == 0 {
        Seq::empty()
    } else if indexes.last().source_tag == tag {
        readers(indexes.drop_last(), tag).push(indexes.len() - 1)
    } else {
        readers(indexes.drop_last(), tag)
    }
}

/// The first source, in registration order, whose component type is not
/// among `registered`.
pub open spec fn first_unregistered(sources: Seq<(Seq<char>, Seq<char>)>, registered: Seq<Seq<char>>) -> Option<Seq<char>>
    decreases sources.len(),
{
    if sources.len() == 0 {
        None
    } else if !registered.contains(sources[0].1) {
        Some(sources[0].0)
    } else {
        first_unregistered(sources.drop_first(), registered)
    }
}

/// The registry is well formed: one name, key type and index per entry,
/// distinct names, one type per tag.
pub open spec fn registry_wf(v: RegistryV) -> bool {
    &&& v.names.len() == v.key_types.len()
    &&& v.names.len() == v.indexes.len()
    &&& v.names.no_duplicates()
    &&& forall|i: int, j: int|
        0 <= i < v.sources.len() && 0 <= j < v.sources.len() && i != j ==> #[trigger] v.sources[i].0 != #[trigger] v.sources[j].0
}

/// Whether `name` may be registered over `tag`, a component of `source_type`.
pub open spec fn may_register(v: RegistryV, name: Seq<char>, tag: Seq<char>, source_type: Seq<char>) -> bool {
    &&& !v.activated
    &&& !v.names.contains(name)
    &&& source_type_of(v.sources, tag) is None || source_type_of(v.sources, tag) == Some(source_type)
}

/// The sources after binding `tag` to `source_type`: unchanged if the tag is
/// already bound.
pub open spec fn bound(sources: Seq<(Seq<char>, Seq<char>)>, tag: Seq<char>, source_type: Seq<char>) -> Seq<(Seq<char>, Seq<char>)> {
    if source_type_of(sources, tag) is Some {
        sources
    } else {
        sources.push((tag, source_type))
    }
}

/// How one fact changes the indexes, given the keys reread for the readers
/// of a changed component, in reader order.
pub open spec fn after_fact(indexes: Seq<IndexV>, fact: Fact, keys: Seq<Option<i64>>) -> Seq<IndexV> {
    match fact {
        Fact::ComponentChanged { entity, tag } => Seq::new(
            indexes.len(),
            |i: int|
                if readers(indexes, tag@).contains(i) {
                    IndexV {
                        entries: placed(
                            indexes[i].entries,
                            entity.0,
                            keys[readers(indexes, tag@).index_of(i)],
                        ),
                        ..indexes[i]
                    }
                } else {
                    indexes[i]
                },
        ),
        Fact::Destroyed { entity, .. } => Seq::new(
            indexes.len(),
            |i: int| IndexV { entries: without(indexes[i].entries, entity.0), ..indexes[i] },
        ),
        _ => indexes,
    }
}


/// Rewriting the entries of indexes leaves who reads which component alone.
proof fn lemma_readers_by_tags(a: Seq<IndexV>, b: Seq<IndexV>, tag: Seq<char>)
    requires
        a.len() == b.len(),
        forall|i: int| 0 <= i < a.len() ==> #[trigger] a[i].source_tag == b[i].source_tag,
    ensures
        readers(a, tag) == readers(b, tag),
    decreases a.len(),
{
    if a.len() > 0 {
        lemma_readers_by_tags(a.drop_last(), b.drop_last(), tag);
        assert(a.last().source_tag == b.last().source_tag);
    }
}

/// Every index lists each entity at most once.
pub open spec fn all_unique(indexes: Seq<IndexV>) -> bool {
    forall|i: int| 0 <= i < indexes.len() ==> entities_unique(#[trigger] indexes[i].entries)
}

/// Applying the same fact twice, with the same reread keys, is applying it
/// once: a duplicate trigger is harmless.
pub proof fn lemma_apply_idempotent(indexes: Seq<IndexV>, fact: Fact, keys: Seq<Option<i64>>)
    requires
        all_unique(indexes),
    ensures
        after_fact(after_fact(indexes, fact, keys), fact, keys) == after_fact(indexes, fact, keys),
{
    let once = after_fact(indexes, fact, keys);
    match fact {
        Fact::ComponentChanged { entity, tag } => {
            lemma_readers_by_tags(once, indexes, tag@);
            assert forall|i: int| 0 <= i < indexes.len() implies #[trigger] after_fact(once, fact, keys)[i] == once[i] by {
                if readers(indexes, tag@).contains(i) {
                    let k = keys[readers(indexes, tag@).index_of(i)];
                    lemma_place_idempotent(indexes[i].entries, entity.0, k);
                }
            }
            assert(after_fact(once, fact, keys) =~= once);
        },
        Fact::Destroyed { entity, .. } => {
            assert forall|i: int| 0 <= i < indexes.len() implies #[trigger] after_fact(once, fact, keys)[i] == once[i] by {
                lemma_without_key(indexes[i].entries, entity.0, entity.0);
                lemma_without_absent(without(indexes[i].entries, entity.0), entity.0);
            }
            assert(after_fact(once, fact, keys) =~= once);
        },
        _ => {},
    }
}

/// A change and a destruction of one entity in the same batch converge in
/// either order, once the change rereads the dead entity as keyless: the
/// entity ends up in no index.
pub proof fn lemma_change_and_destroy_converge(
    indexes: Seq<IndexV>,
    entity: EntityId,
    tag: String,
    last_locus: Option<EntityId>,
    name: Option<String>,
    cause: crate::fact::DestroyCause,
)
    requires
        all_unique(indexes),
    ensures
        ({
            let changed = Fact::ComponentChanged { entity, tag };
            let destroyed = Fact::Destroyed { entity, last_locus, name, cause };
            let nones = Seq::new(readers(indexes, tag@).len(), |k: int| None::<i64>);
            let a = after_fact(after_fact(indexes, changed, nones), destroyed, Seq::empty());
            let b = after_fact(after_fact(indexes, destroyed, Seq::empty()), changed, nones);
            &&& a == b
            &&& forall|i: int| 0 <= i < a.len() ==> key_in(#[trigger] a[i].entries, entity.0) is None
        }),
{
    let changed = Fact::ComponentChanged { entity, tag };
    let destroyed = Fact::Destroyed { entity, last_locus, name, cause };
    let nones = Seq::new(readers(indexes, tag@).len(), |k: int| None::<i64>);
    let c1 = after_fact(indexes, changed, nones);
    let a = after_fact(c1, destroyed, Seq::empty());
    let d1 = after_fact(indexes, destroyed, Seq::empty());
    let b = after_fact(d1, changed, nones);
    lemma_readers_by_tags(d1, indexes, tag@);
    assert forall|i: int| 0 <= i < indexes.len() implies #[trigger] a[i] == b[i] && key_in(a[i].entries, entity.0) is None by {
        let s = indexes[i].entries;
        lemma_without_key(s, entity.0, entity.0);
        lemma_without_absent(without(s, entity.0), entity.0);
        if readers(indexes, tag@).contains(i) {
            let k = readers(indexes, tag@).index_of(i);
            assert(nones[k] is None);
            if key_in(s, entity.0) is None {
                lemma_without_absent(s, entity.0);
            }
            lemma_without_key(placed(s, entity.0, None), entity.0, entity.0);
            lemma_without_absent(without(placed(s, entity.0, None), entity.0), entity.0);
        }
    }
    assert(a =~= b);
}

proof fn lemma_source_type_found(sources: Seq<(Seq<char>, Seq<char>)>, tag: Seq<char>, i: int)
    requires
        0 <= i < sources.len(),
        sources[i].0 == tag,
        forall|j: int| 0 <= j < i ==> sources[j].0 != tag,
    ensures
        source_type_of(sources, tag) == Some(sources[i].1),
    decreases i,
{
    if i > 0 {
        lemma_source_type_found(sources.drop_first(), tag, i - 1);
    }
}

proof fn lemma_source_type_absent(sources: Seq<(Seq<char>, Seq<char>)>, tag: Seq<char>)
    requires
        forall|j: int| 0 <= j < sources.len() ==> sources[j].0 != tag,
    ensures
        source_type_of(sources, tag) is None,
    decreases sources.len(),
{
    if sources.len() > 0 {
        lemma_source_type_absent(sources.drop_first(), tag);
    }
}

proof fn lemma_source_type_push(sources: Seq<(Seq<char>, Seq<char>)>, tag: Seq<char>, ty: Seq<char>, other: Seq<char>)
    requires
        source_type_of(sources, tag) is None,
    ensures
        source_type_of(sources.push((tag, ty)), other) == if other == tag {
            Some(ty)
        } else {
            source_type_of(sources, other)
        },
    decreases sources.len(),
{
    if sources.len() == 0 {
        assert(sources.push((tag, ty)).drop_first() =~= Seq::<(Seq<char>, Seq<char>)>::empty());
    } else {
        assert(sources.push((tag, ty)).drop_first() =~= sources.drop_first().push((tag, ty)));
        if sources[0].0 != tag {
            lemma_source_type_push(sources.drop_first(), tag, ty, other);
        }
    }
}

proof fn lemma_source_none_means_absent(sources: Seq<(Seq<char>, Seq<char>)>, tag: Seq<char>, j: int)
    requires
        source_type_of(sources, tag) is None,
        0 <= j < sources.len(),
    ensures
        sources[j].0 != tag,
    decreases sources.len(),
{
    if j > 0 && sources[0].0 != tag {
        lemma_source_none_means_absent(sources.drop_first(), tag, j - 1);
    }
}

proof fn lemma_readers_bounds(indexes: Seq<IndexV>, tag: Seq<char>)
    ensures
        forall|k: int| 0 <= k < readers(indexes, tag).len() ==> 0 <= #[trigger] readers(indexes, tag)[k] < indexes.len()
            && indexes[readers(indexes, tag)[k]].source_tag == tag,
        forall|i: int| 0 <= i < indexes.len() && indexes[i].source_tag == tag ==> #[trigger] readers(indexes, tag).contains(i),
        readers(indexes, tag).no_duplicates(),
        forall|a: int, b: int| 0 <= a < b < readers(indexes, tag).len() ==> readers(indexes, tag)[a] < readers(indexes, tag)[b],
    decreases indexes.len(),
{
    if indexes.len() > 0 {
        let d = indexes.drop_last();
        lemma_readers_bounds(d, tag);
        assert forall|i: int| 0 <= i < indexes.len() && indexes[i].source_tag == tag implies #[trigger] readers(indexes, tag).contains(i) by {
            if i < indexes.len() - 1 {
                assert(d[i] == indexes[i]);
                assert(readers(d, tag).contains(i));
                let k = choose|k: int| 0 <= k < readers(d, tag).len() && readers(d, tag)[k] == i;
                assert(readers(indexes, tag)[k] == i);
            } else {
                assert(readers(indexes, tag).last() == i);
            }
        }
        assert forall|k: int| 0 <= k < readers(indexes, tag).len() implies 0 <= #[trigger] readers(indexes, tag)[k] < indexes.len()
            && indexes[readers(indexes, tag)[k]].source_tag == tag by {
            if k < readers(d, tag).len() {
                assert(readers(indexes, tag)[k] == readers(d, tag)[k]);
                assert(d[readers(d, tag)[k]] == indexes[readers(d, tag)[k]]);
            }
        }
    }
}


fn position_of(v: &Vec<usize>, x: usize) -> (r: Option<usize>)
    ensures
        match r {
            Some(k) => k < v@.len() && v@[k as int] == x,
            None => !v@.contains(x),
        },
{
    let mut k: usize = 0;
    while k < v.len()
        invariant
            k <= v@.len(),
            forall|j: int| 0 <= j < k ==> v@[j] != x,
        decreases v.len() - k,
    {
        if v[k] == x {
            return Some(k);
        }
        k = k + 1;
    }
    None
}

/// The named indexes of a world.
pub struct IndexRegistry {
    names: Vec<String>,
    key_types: Vec<String>,
    indexes: Vec<Index>,
    sources: Vec<(String, String)>,
    activated: bool,
}

impl View for IndexRegistry {
    type V = RegistryV;

    closed spec fn view(&self) -> RegistryV {
        RegistryV {
            names: self.names@.map_values(|s: String| s@),
            key_types: self.key_types@.map_values(|s: String| s@),
            indexes: self.indexes@.map_values(|i: Index| i@),
            sources: self.sources@.map_values(|p: (String, String)| (p.0@, p.1@)),
            activated: self.activated,
        }
    }
}

impl IndexRegistry {
    /// Whether the registry is well formed.
    pub open spec fn wf(&self) -> bool {
        registry_wf(self@)
    }

    /// No index lists an entity twice.
    pub fn check_wf(&self)
        ensures
            all_unique(self@.indexes),
    {
        let mut i: usize = 0;
        while i < self.indexes.len()
            invariant
                i <= self.indexes@.len(),
                forall|m: int| 0 <= m < i ==> entities_unique(#[trigger] self@.indexes[m].entries),
            decreases self.indexes.len() - i,
        {
            self.indexes[i].check_wf();
            proof {
                assert(self@.indexes[i as int] == self.indexes@[i as int]@);
            }
            i = i + 1;
        }
    }

    /// A registry with no indexes, not yet activated.
    pub fn new() -> (r: Self)
        ensures
            r.wf(),
            r@ == (RegistryV {
                names: Seq::empty(),
                key_types: Seq::empty(),
                indexes: Seq::empty(),
                sources: Seq::empty(),
                activated: false,
            }),
    {
        let r = IndexRegistry {
            names: Vec::new(),
            key_types: Vec::new(),
            indexes: Vec::new(),
            sources: Vec::new(),
            activated: false,
        };
        proof {
            assert(r@.names =~= Seq::empty());
            assert(r@.key_types =~= Seq::empty());
            assert(r@.indexes =~= Seq::empty());
            assert(r@.sources =~= Seq::empty());
        }
        r
    }

    fn source_type(&self, tag: &str) -> (r: Option<&str>)
        ensures
            match r {
                Some(t) => source_type_of(self@.sources, tag@) == Some(t@),
                None => source_type_of(self@.sources, tag@) is None,
            },
    {
        let ghost sv = self@.sources;
        let mut i: usize = 0;
        while i < self.sources.len()
            invariant
                sv == self@.sources,
                i <= sv.len(),
                forall|j: int| 0 <= j < i ==> sv[j].0 != tag@,
            decreases self.sources.len() - i,
        {
            if str_eq(self.sources[i].0.as_str(), tag) {
                proof {
                    assert(sv[i as int] == (self.sources@[i as int].0@, self.sources@[i as int].1@));
                    lemma_source_type_found(sv, tag@, i as int);
                }
                return Some(self.sources[i].1.as_str());
            }
            proof {
                assert(sv[i as int] == (self.sources@[i as int].0@, self.sources@[i as int].1@));
            }
            i = i + 1;
        }
        proof {
            lemma_source_type_absent(sv, tag@);
        }
        None
    }

    fn position(&self, name: &str) -> (r: Option<usize>)
        ensures
            match r {
                Some(i) => i < self@.names.len() && self@.names[i as int] == name@,
                None => !self@.names.contains(name@),
            },
    {
        let ghost nv = self@.names;
        let mut i: usize = 0;
        while i < self.names.len()
            invariant
                nv == self@.names,
                i <= nv.len(),
                forall|j: int| 0 <= j < i ==> nv[j] != name@,
            decreases self.names.len() - i,
        {
            if str_eq(self.names[i].as_str(), name) {
                return Some(i);
            }
            i = i + 1;
        }
        None
    }

    /// Whether `name` may be registered over the component tagged `tag` of
    /// type `source_type`: registration is still open, the name is new, and
    /// the tag is not bound to another type.
    pub fn can_register(&self, name: &str, tag: &str, source_type: &str) -> (r: bool)
        ensures
            r == may_register(self@, name@, tag@, source_type@),
    {
        if self.activated || self.position(name).is_some() {
            return false;
        }
        match self.source_type(tag) {
            Some(t) => str_eq(t, source_type),
            None => true,
        }
    }

    fn register_with(&mut self, name: &str, tag: &str, source_type: &str, key_type: &str, cardinality: Cardinality)
        requires
            old(self).wf(),
            may_register(old(self)@, name@, tag@, source_type@),
        ensures
            final(self).wf(),
            final(self)@ == (RegistryV {
                names: old(self)@.names.push(name@),
                key_types: old(self)@.key_types.push(key_type@),
                indexes: old(self)@.indexes.push(IndexV { cardinality, source_tag: tag@, entries: Seq::empty() }),
                sources: bound(old(self)@.sources, tag@, source_type@),
                activated: false,
            }),
    {
        let ghost before = self@;
        let known = self.source_type(tag).is_some();
        self.names.push(name.to_owned());
        self.key_types.push(key_type.to_owned());
        self.indexes.push(Index::new(cardinality, tag));
        if !known {
            self.sources.push((tag.to_owned(), source_type.to_owned()));
        }
        proof {
            let v = self@;
            assert(v.names =~= before.names.push(name@));
            assert(v.key_types =~= before.key_types.push(key_type@));
            assert(v.indexes =~= before.indexes.push(IndexV { cardinality, source_tag: tag@, entries: Seq::empty() }));
            if known {
                assert(v.sources =~= before.sources);
            } else {
                assert(v.sources =~= before.sources.push((tag@, source_type@)));
                assert forall|i: int, j: int| 0 <= i < v.sources.len() && 0 <= j < v.sources.len() && i != j implies #[trigger] v.sources[i].0
                    != #[trigger] v.sources[j].0 by {
                    if i == before.sources.len() as int {
                        lemma_source_none_means_absent(before.sources, tag@, j);
                    } else if j == before.sources.len() as int {
                        lemma_source_none_means_absent(before.sources, tag@, i);
                    }
                }
            }
            assert(v.names.no_duplicates()) by {
                assert forall|i: int, j: int| 0 <= i < v.names.len() && 0 <= j < v.names.len() && i != j implies v.names[i]
                    != v.names[j] by {
                    if i == before.names.len() as int {
                        assert(before.names.contains(v.names[j]) || j == i);
                    } else if j == before.names.len() as int {
                        assert(before.names.contains(v.names[i]));
                    }
                }
            }
        }
    }

    /// Add a many-valued index named `name` over the component tagged `tag`,
    /// of type `source_type`, keyed by values of type `key_type`.
    pub fn register_many(&mut self, name: &str, tag: &str, source_type: &str, key_type: &str)
        requires
            old(self).wf(),
            may_register(old(self)@, name@, tag@, source_type@),
        ensures
            final(self).wf(),
            final(self)@ == (RegistryV {
                names: old(self)@.names.push(name@),
                key_types: old(self)@.key_types.push(key_type@),
                indexes: old(self)@.indexes.push(
                    IndexV { cardinality: Cardinality::Many, source_tag: tag@, entries: Seq::empty() },
                ),
                sources: bound(old(self)@.sources, tag@, source_type@),
                activated: false,
            }),
    {
        self.register_with(name, tag, source_type, key_type, Cardinality::Many);
    }

    /// Add an index whose keys are expected to identify at most one entity;
    /// duplicates stay in the bucket and are reported as conflicts.
    pub fn register_unique(&mut self, name: &str, tag: &str, source_type: &str, key_type: &str)
        requires
            old(self).wf(),
            may_register(old(self)@, name@, tag@, source_type@),
        ensures
            final(self).wf(),
            final(self)@ == (RegistryV {
                names: old(self)@.names.push(name@),
                key_types: old(self)@.key_types.push(key_type@),
                indexes: old(self)@.indexes.push(
                    IndexV { cardinality: Cardinality::Unique, source_tag: tag@, entries: Seq::empty() },
                ),
                sources: bound(old(self)@.sources, tag@, source_type@),
                activated: false,
            }),
    {
        self.register_with(name, tag, source_type, key_type, Cardinality::Unique);
    }

    /// Borrow the index named `name`, asked for with keys of `key_type`: an
    /// unknown name and a key type other than the registered one are told apart.
    pub fn index(&self, name: &str, key_type: &str) -> (r: Result<&Index, IndexLookupError>)
        requires
            self.wf(),
        ensures
            !self@.names.contains(name@) ==> (r matches Err(IndexLookupError::UnknownName { name: n }) && n@ == name@),
            forall|i: int| 0 <= i < self@.names.len() && #[trigger] self@.names[i] == name@ ==> {
                &&& self@.key_types[i] == key_type@ ==> (r matches Ok(idx) && idx@ == self@.indexes[i])
                &&& self@.key_types[i] != key_type@ ==> (r matches Err(
                    IndexLookupError::WrongKeyType { name: n, requested_type, registered_type },
                ) && n@ == name@ && requested_type@ == key_type@ && registered_type@ == self@.key_types[i])
            },
    {
        match self.position(name) {
            None => Err(IndexLookupError::UnknownName { name: name.to_owned() }),
            Some(i) => {
                proof {
                    assert forall|j: int| 0 <= j < self@.names.len() && #[trigger] self@.names[j] == name@ implies j == i by {
                        if j != i {
                            assert(self@.names[j] != self@.names[i as int]);
                        }
                    }
                    assert(self@.key_types[i as int] == self.key_types@[i as int]@);
                    assert(self@.indexes[i as int] == self.indexes@[i as int]@);
                }
                if str_eq(self.key_types[i].as_str(), key_type) {
                    Ok(&self.indexes[i])
                } else {
                    Err(IndexLookupError::WrongKeyType {
                        name: name.to_owned(),
                        requested_type: key_type.to_owned(),
                        registered_type: self.key_types[i].clone(),
                    })
                }
            },
        }
    }

    /// The positions of the indexes over the component tagged `tag`, in
    /// registration order: the keys `apply` needs for a change to it.
    pub fn readers_of(&self, tag: &str) -> (r: Vec<usize>)
        ensures
            r@.len() == readers(self@.indexes, tag@).len(),
            forall|k: int| 0 <= k < r@.len() ==> r@[k] as int == #[trigger] readers(self@.indexes, tag@)[k],
    {
        let ghost iv = self@.indexes;
        let mut out: Vec<usize> = Vec::new();
        let mut i: usize = 0;
        while i < self.indexes.len()
            invariant
                iv == self@.indexes,
                i <= iv.len(),
                out@.len() == readers(iv.take(i as int), tag@).len(),
                forall|k: int| 0 <= k < out@.len() ==> out@[k] as int == #[trigger] readers(iv.take(i as int), tag@)[k],
            decreases self.indexes.len() - i,
        {
            proof {
                assert(iv.take(i + 1).drop_last() =~= iv.take(i as int));
                assert(iv.take(i + 1).last() == iv[i as int]);
                assert(iv[i as int] == self.indexes@[i as int]@);
            }
            if str_eq(self.indexes[i].source_tag(), tag) {
                out.push(i);
            }
            i = i + 1;
        }
        proof {
            assert(iv.take(iv.len() as int) =~= iv);
        }
        out
    }

    /// Check every source's component type against the types the world
    /// registered, then rebuild each index from its full scan (`scans[i]` for
    /// the `i`-th index) and close registration. A repeat baseline rescans.
    pub fn baseline(&mut self, registered: &[String], scans: &[Vec<(EntityId, Option<i64>)>]) -> (r: Result<(), IndexBuildError>)
        requires
            old(self).wf(),
            scans@.len() == old(self)@.indexes.len(),
        ensures
            final(self).wf(),
            match first_unregistered(old(self)@.sources, registered@.map_values(|s: String| s@)) {
                Some(tag) => (r matches Err(IndexBuildError::UnregisteredSource { tag: t }) && t@ == tag)
                    && final(self)@ == old(self)@,
                None => r is Ok && final(self)@ == (RegistryV {
                    indexes: Seq::new(
                        old(self)@.indexes.len(),
                        |i: int|
                            IndexV {
                                entries: rebuilt(scans@[i]@.map_values(|k: (EntityId, Option<i64>)| (k.0.0, k.1))),
                                ..old(self)@.indexes[i]
                            },
                    ),
                    activated: true,
                    ..old(self)@
                }),
            },
    {
        let ghost before = self@;
        let ghost reg = registered@.map_values(|s: String| s@);
        let ghost sv = before.sources;
        let mut i: usize = 0;
        proof {
            assert(sv.skip(0) =~= sv);
        }
        while i < self.sources.len()
            invariant
                self@ == before,
                registry_wf(before),
                sv == before.sources,
                reg == registered@.map_values(|s: String| s@),
                i <= sv.len(),
                first_unregistered(sv, reg) == first_unregistered(sv.skip(i as int), reg),
            decreases self.sources.len() - i,
        {
            proof {
                assert(sv.skip(i as int).drop_first() =~= sv.skip(i + 1));
                assert(sv[i as int] == (self.sources@[i as int].0@, self.sources@[i as int].1@));
                assert(sv.skip(i as int)[0] == sv[i as int]);
            }
            let mut found = false;
            let mut k: usize = 0;
            while k < registered.len()
                invariant
                    k <= registered@.len(),
                    reg == registered@.map_values(|s: String| s@),
                    found <==> exists|m: int| 0 <= m < k && reg[m] == sv[i as int].1,
                    sv == before.sources,
                    i < sv.len(),
                    self@ == before,
                decreases registered.len() - k,
            {
                if str_eq(registered[k].as_str(), self.sources[i].1.as_str()) {
                    found = true;
                }
                proof {
                    assert(reg[k as int] == registered@[k as int]@);
                }
                k = k + 1;
            }
            proof {
                if reg.contains(sv[i as int].1) {
                    let m = choose|m: int| 0 <= m < reg.len() && reg[m] == sv[i as int].1;
                    assert(0 <= m < k);
                }
            }
            if !found {
                return Err(IndexBuildError::UnregisteredSource { tag: self.sources[i].0.clone() });
            }
            i = i + 1;
        }
        proof {
            assert(sv.skip(i as int).len() == 0);
        }
        let mut done: Vec<Index> = Vec::new();
        let mut rest: Vec<Index> = Vec::new();
        std::mem::swap(&mut rest, &mut self.indexes);
        let ghost iv = before.indexes;
        let ghost all = rest@;
        let mut j: usize = 0;
        while j < scans.len()
            invariant
                all.map_values(|x: Index| x@) == iv,
                rest@ == all.skip(j as int),
                scans@.len() == iv.len(),
                j <= iv.len(),
                done@.len() == j,
                forall|m: int| 0 <= m < j ==> #[trigger] done@[m]@ == (IndexV {
                    entries: rebuilt(scans@[m]@.map_values(|k: (EntityId, Option<i64>)| (k.0.0, k.1))),
                    ..iv[m]
                }),
            decreases scans.len() - j,
        {
            proof {
                assert(all.map_values(|x: Index| x@)[j as int] == all[j as int]@);
                assert(rest@[0] == all[j as int]);
            }
            let mut idx = rest.remove(0);
            proof {
                assert(rest@ =~= all.skip(j + 1));
            }
            idx.rebuild(scans[j].as_slice());
            done.push(idx);
            j = j + 1;
        }
        self.indexes = done;
        self.activated = true;
        proof {
            let v = self@;
            assert(v.indexes =~= Seq::new(
                before.indexes.len(),
                |m: int|
                    IndexV {
                        entries: rebuilt(scans@[m]@.map_values(|k: (EntityId, Option<i64>)| (k.0.0, k.1))),
                        ..before.indexes[m]
                    },
            ));
        }
        Ok(())
    }

    /// Apply one fact: a component change rereads the entity's key in every
    /// index over that component (`keys` holds the reread keys in reader
    /// order); a destruction evicts the entity everywhere; other facts change
    /// nothing.
    pub fn apply(&mut self, fact: &Fact, keys: &[Option<i64>])
        requires
            old(self).wf(),
            fact matches Fact::ComponentChanged { tag, .. } ==> keys@.len() == readers(old(self)@.indexes, tag@).len(),
        ensures
            final(self).wf(),
            final(self)@ == (RegistryV { indexes: after_fact(old(self)@.indexes, *fact, keys@), ..old(self)@ }),
    {
        let ghost before = self@;
        match fact {
            Fact::ComponentChanged { entity, tag } => {
                let which = self.readers_of(tag.as_str());
                let ghost rd0 = readers(before.indexes, tag@);
                let ghost expected = Seq::new(
                    before.indexes.len(),
                    |m: int|
                        if rd0.contains(m) {
                            IndexV { entries: placed(before.indexes[m].entries, entity.0, keys@[rd0.index_of(m)]), ..before.indexes[m] }
                        } else {
                            before.indexes[m]
                        },
                );
                proof {
                    lemma_readers_bounds(before.indexes, tag@);
                    assert(after_fact(before.indexes, *fact, keys@) == expected);
                }
                let mut rest: Vec<Index> = Vec::new();
                std::mem::swap(&mut rest, &mut self.indexes);
                let ghost all = rest@;
                let ghost rd = readers(before.indexes, tag@);
                let n = rest.len();
                let mut out: Vec<Index> = Vec::new();
                let mut i: usize = 0;
                while i < n
                    invariant
                        n == all.len(),
                        all.map_values(|x: Index| x@) == before.indexes,
                        rest@ == all.skip(i as int),
                        rd0 == rd,
                        expected == after_fact(before.indexes, *fact, keys@),
                        expected.len() == before.indexes.len(),
                        forall|m: int| 0 <= m < expected.len() ==> #[trigger] expected[m] == if rd0.contains(m) {
                            IndexV { entries: placed(before.indexes[m].entries, entity.0, keys@[rd0.index_of(m)]), ..before.indexes[m] }
                        } else {
                            before.indexes[m]
                        },
                        which@.len() == rd.len(),
                        forall|m: int| 0 <= m < which@.len() ==> which@[m] as int == #[trigger] rd[m],
                        keys@.len() == rd.len(),
                        rd == readers(before.indexes, tag@),
                        rd.no_duplicates(),
                        i <= all.len(),
                        out@.len() == i,
                        forall|m: int| 0 <= m < i ==> #[trigger] out@[m]@ == after_fact(before.indexes, *fact, keys@)[m],
                    decreases n - i,
                {
                    proof {
                        assert(all.map_values(|x: Index| x@)[i as int] == all[i as int]@);
                        assert(rest@[0] == all[i as int]);
                    }
                    let mut idx = rest.remove(0);
                    proof {
                        assert(rest@ =~= all.skip(i + 1));
                    }
                    let ghost idx0 = idx@;
                    let ghost out0 = out@;
                    proof {
                        assert(idx0 == before.indexes[i as int]);
                    }
                    match position_of(&which, i) {
                        Some(k) => {
                            idx.place(*entity, keys[k]);
                            proof {
                                assert(rd[k as int] == i);
                                assert(rd.contains(i as int));
                                let q = rd.index_of(i as int);
                                assert(rd[q] == i);
                                assert(q == k as int);
                            }
                        },
                        None => {
                            proof {
                                if rd.contains(i as int) {
                                    let q = choose|q: int| 0 <= q < rd.len() && rd[q] == i;
                                    assert(which@[q] == i);
                                }
                            }
                        },
                    }
                    out.push(idx);
                    proof {
                        assert(expected[i as int] == out@[i as int]@);
                        assert forall|m: int| 0 <= m < i + 1 implies #[trigger] out@[m]@ == expected[m] by {
                            if m < i {
                                assert(out@[m] == out0[m]);
                            }
                        }
                    }
                    i = i + 1;
                }
                self.indexes = out;
                proof {
                    assert(self@.indexes =~= after_fact(before.indexes, *fact, keys@));
                }
            },
            Fact::Destroyed { entity, .. } => {
                let ghost expected = Seq::new(
                    before.indexes.len(),
                    |m: int| IndexV { entries: without(before.indexes[m].entries, entity.0), ..before.indexes[m] },
                );
                proof {
                    assert(after_fact(before.indexes, *fact, keys@) == expected);
                }
                let mut rest: Vec<Index> = Vec::new();
                std::mem::swap(&mut rest, &mut self.indexes);
                let ghost all = rest@;
                let n = rest.len();
                let mut out: Vec<Index> = Vec::new();
                let mut i: usize = 0;
                while i < n
                    invariant
                        n == all.len(),
                        all.map_values(|x: Index| x@) == before.indexes,
                        rest@ == all.skip(i as int),
                        expected == after_fact(before.indexes, *fact, keys@),
                        expected.len() == before.indexes.len(),
                        forall|m: int| 0 <= m < expected.len() ==> #[trigger] expected[m] == (IndexV {
                            entries: without(before.indexes[m].entries, entity.0),
                            ..before.indexes[m]
                        }),
                        i <= all.len(),
                        out@.len() == i,
                        forall|m: int| 0 <= m < i ==> #[trigger] out@[m]@ == after_fact(before.indexes, *fact, keys@)[m],
                    decreases n - i,
                {
                    proof {
                        assert(all.map_values(|x: Index| x@)[i as int] == all[i as int]@);
                        assert(rest@[0] == all[i as int]);
                    }
                    let ghost out0 = out@;
                    let mut idx = rest.remove(0);
                    proof {
                        assert(rest@ =~= all.skip(i + 1));
                        assert(idx@ == before.indexes[i as int]);
                    }
                    idx.evict(*entity);
                    out.push(idx);
                    proof {
                        assert(expected[i as int] == out@[i as int]@);
                        assert forall|m: int| 0 <= m < i + 1 implies #[trigger] out@[m]@ == expected[m] by {
                            if m < i {
                                assert(out@[m] == out0[m]);
                            }
                        }
                    }
                    i = i + 1;
                }
                self.indexes = out;
                proof {
                    assert(self@.indexes =~= after_fact(before.indexes, *fact, keys@));
                }
            },
            _ => {},
        }
    }
}

} // verus!
