//! A read-only picture of the world state the canonical condition algebra
//! reads: which entities are live, relation targets, component presence,
//! enclosing loci, and gauge readings. The host fills it from the live world;
//! evaluation runs against it.

use vstd::prelude::*;
use crate::id::EntityId;

verus! {

/// Model of the world picture. Entries are searched front to back, so a later
/// write (which is placed in front) shadows an earlier one.
pub struct WorldV {
    pub live: Seq<u64>,
    pub relations: Seq<(Seq<char>, u64, u64)>,
    pub components: Seq<(Seq<char>, u64)>,
    pub loci: Seq<(u64, u64)>,
    pub gauges: Seq<(Seq<char>, u64, u8)>,
    /// Names of the relation types the world has registered.
    pub relation_types: Seq<Seq<char>>,
    /// Names of the component types the world has registered.
    pub component_types: Seq<Seq<char>>,
}

impl WorldV {
    pub open spec fn contains(self, e: u64) -> bool {
        self.live.contains(e)
    }

    /// The target `source` points at under relation `tag`, if any.
    pub open spec fn relation_target(self, tag: Seq<char>, source: u64) -> Option<u64> {
        if exists|i: int|
            0 <= i < self.relations.len() && self.relations[i].0 == tag && self.relations[i].1
                == source {
            let i = choose|i: int|
                0 <= i < self.relations.len() && self.relations[i].0 == tag && self.relations[i].1
                    == source && forall|j: int|
                    0 <= j < i ==> !(self.relations[j].0 == tag && self.relations[j].1 == source);
            Some(self.relations[i].2)
        } else {
            None
        }
    }

    pub open spec fn has_component(self, tag: Seq<char>, e: u64) -> bool {
        self.components.contains((tag, e))
    }

    /// The enclosing locus of `e`, if any.
    pub open spec fn locus_of(self, e: u64) -> Option<u64> {
        if exists|i: int| 0 <= i < self.loci.len() && self.loci[i].0 == e {
            let i = choose|i: int|
                0 <= i < self.loci.len() && self.loci[i].0 == e && forall|j: int|
                    0 <= j < i ==> self.loci[j].0 != e;
            Some(self.loci[i].1)
        } else {
            None
        }
    }

    /// The level gauge `gauge` reads for `e`, if it has a reading.
    pub open spec fn gauge_level(self, gauge: Seq<char>, e: u64) -> Option<u8> {
        if exists|i: int| 0 <= i < self.gauges.len() && self.gauges[i].0 == gauge && self.gauges[i].1 == e {
            let i = choose|i: int|
                0 <= i < self.gauges.len() && self.gauges[i].0 == gauge && self.gauges[i].1 == e
                    && forall|j: int|
                    0 <= j < i ==> !(self.gauges[j].0 == gauge && self.gauges[j].1 == e);
            Some(self.gauges[i].2)
        } else {
            None
        }
    }
}

fn contains_name(names: &Vec<String>, name: &str) -> (r: bool)
    ensures
        r == names@.map_values(|t: String| t@).contains(name@),
{
    let ghost ns = names@.map_values(|t: String| t@);
    let mut i: usize = 0;
    while i < names.len()
        invariant
            i <= names@.len(),
            ns == names@.map_values(|t: String| t@),
            forall|j: int| 0 <= j < i ==> ns[j] != name@,
        decreases names.len() - i,
    {
        if crate::text::str_eq(names[i].as_str(), name) {
            assert(ns[i as int] == name@);
            return true;
        }
        i = i + 1;
    }
    false
}

/// A read-only picture of the live world.
pub struct WorldView {
    live: Vec<EntityId>,
    relations: Vec<(String, EntityId, EntityId)>,
    components: Vec<(String, EntityId)>,
    loci: Vec<(EntityId, EntityId)>,
    gauges: Vec<(String, EntityId, u8)>,
    relation_types: Vec<String>,
    component_types: Vec<String>,
}

impl View for WorldView {
    type V = WorldV;

    closed spec fn view(&self) -> WorldV {
        WorldV {
            live: self.live@.map_values(|e: EntityId| e.0),
            relations: self.relations@.map_values(|r: (String, EntityId, EntityId)| (r.0@, r.1.0, r.2.0)),
            components: self.components@.map_values(|c: (String, EntityId)| (c.0@, c.1.0)),
            loci: self.loci@.map_values(|l: (EntityId, EntityId)| (l.0.0, l.1.0)),
            gauges: self.gauges@.map_values(|g: (String, EntityId, u8)| (g.0@, g.1.0, g.2)),
            relation_types: self.relation_types@.map_values(|t: String| t@),
            component_types: self.component_types@.map_values(|t: String| t@),
        }
    }
}

impl WorldView {
    /// An empty world.
    pub fn new() -> (r: Self)
        ensures
            r@.live.len() == 0,
            r@.relations.len() == 0,
            r@.components.len() == 0,
            r@.loci.len() == 0,
            r@.gauges.len() == 0,
            r@.relation_types.len() == 0,
            r@.component_types.len() == 0,
    {
        WorldView {
            live: Vec::new(),
            relations: Vec::new(),
            components: Vec::new(),
            loci: Vec::new(),
            gauges: Vec::new(),
            relation_types: Vec::new(),
            component_types: Vec::new(),
        }
    }

    /// Record a live entity (once).
    pub fn add_entity(&mut self, e: EntityId)
        ensures
            final(self)@.live == if old(self)@.live.contains(e.0) {
                old(self)@.live
            } else {
                old(self)@.live.push(e.0)
            },
            final(self)@.relations == old(self)@.relations,
            final(self)@.components == old(self)@.components,
            final(self)@.loci == old(self)@.loci,
            final(self)@.gauges == old(self)@.gauges,
            final(self)@.relation_types == old(self)@.relation_types,
            final(self)@.component_types == old(self)@.component_types,
    {
        if !self.contains(e) {
            self.live.push(e);
            assert(self@.live =~= old(self)@.live.push(e.0));
        }
    }

    /// Point `source` at `target` under relation `tag`, shadowing any earlier link.
    pub fn set_relation(&mut self, tag: &str, source: EntityId, target: EntityId)
        ensures
            final(self)@.relations == seq![(tag@, source.0, target.0)] + old(self)@.relations,
            final(self)@.live == old(self)@.live,
            final(self)@.components == old(self)@.components,
            final(self)@.loci == old(self)@.loci,
            final(self)@.gauges == old(self)@.gauges,
            final(self)@.relation_types == old(self)@.relation_types,
            final(self)@.component_types == old(self)@.component_types,
    {
        self.relations.insert(0, (tag.to_owned(), source, target));
        assert(self@.relations =~= seq![(tag@, source.0, target.0)] + old(self)@.relations);
    }

    /// Record that `e` bears component `tag`.
    pub fn set_component(&mut self, tag: &str, e: EntityId)
        ensures
            final(self)@.components == old(self)@.components.push((tag@, e.0)),
            final(self)@.live == old(self)@.live,
            final(self)@.relations == old(self)@.relations,
            final(self)@.loci == old(self)@.loci,
            final(self)@.gauges == old(self)@.gauges,
            final(self)@.relation_types == old(self)@.relation_types,
            final(self)@.component_types == old(self)@.component_types,
    {
        self.components.push((tag.to_owned(), e));
        assert(self@.components =~= old(self)@.components.push((tag@, e.0)));
    }

    /// Record `locus` as the enclosing locus of `e`, shadowing any earlier one.
    pub fn set_locus(&mut self, e: EntityId, locus: EntityId)
        ensures
            final(self)@.loci == seq![(e.0, locus.0)] + old(self)@.loci,
            final(self)@.live == old(self)@.live,
            final(self)@.relations == old(self)@.relations,
            final(self)@.components == old(self)@.components,
            final(self)@.gauges == old(self)@.gauges,
            final(self)@.relation_types == old(self)@.relation_types,
            final(self)@.component_types == old(self)@.component_types,
    {
        self.loci.insert(0, (e, locus));
        assert(self@.loci =~= seq![(e.0, locus.0)] + old(self)@.loci);
    }

    /// Record the reading of gauge `gauge` for `e`, shadowing any earlier one.
    pub fn set_gauge(&mut self, gauge: &str, e: EntityId, level: u8)
        ensures
            final(self)@.gauges == seq![(gauge@, e.0, level)] + old(self)@.gauges,
            final(self)@.live == old(self)@.live,
            final(self)@.relations == old(self)@.relations,
            final(self)@.components == old(self)@.components,
            final(self)@.loci == old(self)@.loci,
            final(self)@.relation_types == old(self)@.relation_types,
            final(self)@.component_types == old(self)@.component_types,
    {
        self.gauges.insert(0, (gauge.to_owned(), e, level));
        assert(self@.gauges =~= seq![(gauge@, e.0, level)] + old(self)@.gauges);
    }

    /// Record that the world has registered the relation type `name`.
    pub fn register_relation_type(&mut self, name: &str)
        ensures
            final(self)@ == (WorldV { relation_types: old(self)@.relation_types.push(name@), ..old(self)@ }),
    {
        self.relation_types.push(name.to_owned());
        assert(self@.relation_types =~= old(self)@.relation_types.push(name@));
    }

    /// Record that the world has registered the component type `name`.
    pub fn register_component_type(&mut self, name: &str)
        ensures
            final(self)@ == (WorldV { component_types: old(self)@.component_types.push(name@), ..old(self)@ }),
    {
        self.component_types.push(name.to_owned());
        assert(self@.component_types =~= old(self)@.component_types.push(name@));
    }

    /// Whether the world has registered the relation type `name`.
    pub fn is_relation_registered(&self, name: &str) -> (r: bool)
        ensures
            r == self@.relation_types.contains(name@),
    {
        contains_name(&self.relation_types, name)
    }

    /// Whether the world has registered the component type `name`.
    pub fn is_component_registered(&self, name: &str) -> (r: bool)
        ensures
            r == self@.component_types.contains(name@),
    {
        contains_name(&self.component_types, name)
    }

    /// Whether `e` is live.
    pub fn contains(&self, e: EntityId) -> (r: bool)
        ensures
            r == self@.contains(e.0),
    {
        let mut i: usize = 0;
        while i < self.live.len()
            invariant
                i <= self.live@.len(),
                forall|j: int| 0 <= j < i ==> self@.live[j] != e.0,
            decreases self.live.len() - i,
        {
            if self.live[i].0 == e.0 {
                assert(self@.live[i as int] == e.0);
                return true;
            }
            i = i + 1;
        }
        false
    }

    /// The live entities, in recorded order.
    pub fn entities(&self) -> (r: &[EntityId])
        ensures
            r@.map_values(|e: EntityId| e.0) == self@.live,
    {
        self.live.as_slice()
    }

    /// The target `source` points at under relation `tag`.
    pub fn relation_target(&self, tag: &str, source: EntityId) -> (r: Option<EntityId>)
        ensures
            match r {
                Some(t) => self@.relation_target(tag@, source.0) == Some(t.0),
                None => self@.relation_target(tag@, source.0) is None,
            },
    {
        let mut i: usize = 0;
        while i < self.relations.len()
            invariant
                i <= self.relations@.len(),
                forall|j: int| 0 <= j < i ==> !(self@.relations[j].0 == tag@ && self@.relations[j].1 == source.0),
            decreases self.relations.len() - i,
        {
            assert(self@.relations[i as int] == (self.relations@[i as int].0@, self.relations@[i as int].1.0, self.relations@[i as int].2.0));
            if self.relations[i].1.0 == source.0 && crate::text::str_eq(self.relations[i].0.as_str(), tag) {
                proof {
                    let w = self@;
                    let k = choose|k: int|
                        0 <= k < w.relations.len() && w.relations[k].0 == tag@ && w.relations[k].1
                            == source.0 && forall|j: int|
                            0 <= j < k ==> !(w.relations[j].0 == tag@ && w.relations[j].1 == source.0);
                    assert(k == i) by {
                        if k < i {
                        } else if k > i {
                            assert(w.relations[i as int].0 == tag@ && w.relations[i as int].1 == source.0);
                        }
                    }
                }
                return Some(self.relations[i].2);
            }
            i = i + 1;
        }
        None
    }

    /// Whether `e` bears component `tag`.
    pub fn has_component(&self, tag: &str, e: EntityId) -> (r: bool)
        ensures
            r == self@.has_component(tag@, e.0),
    {
        let mut i: usize = 0;
        while i < self.components.len()
            invariant
                i <= self.components@.len(),
                forall|j: int| 0 <= j < i ==> self@.components[j] != (tag@, e.0),
            decreases self.components.len() - i,
        {
            assert(self@.components[i as int] == (self.components@[i as int].0@, self.components@[i as int].1.0));
            if self.components[i].1.0 == e.0 && crate::text::str_eq(self.components[i].0.as_str(), tag) {
                assert(self@.components[i as int] == (tag@, e.0));
                return true;
            }
            i = i + 1;
        }
        false
    }

    /// The enclosing locus of `e`.
    pub fn locus_of(&self, e: EntityId) -> (r: Option<EntityId>)
        ensures
            match r {
                Some(l) => self@.locus_of(e.0) == Some(l.0),
                None => self@.locus_of(e.0) is None,
            },
    {
        let mut i: usize = 0;
        while i < self.loci.len()
            invariant
                i <= self.loci@.len(),
                forall|j: int| 0 <= j < i ==> self@.loci[j].0 != e.0,
            decreases self.loci.len() - i,
        {
            assert(self@.loci[i as int] == (self.loci@[i as int].0.0, self.loci@[i as int].1.0));
            if self.loci[i].0.0 == e.0 {
                proof {
                    let w = self@;
                    let k = choose|k: int|
                        0 <= k < w.loci.len() && w.loci[k].0 == e.0 && forall|j: int|
                            0 <= j < k ==> w.loci[j].0 != e.0;
                    assert(k == i) by {
                        if k < i {
                        } else if k > i {
                            assert(w.loci[i as int].0 == e.0);
                        }
                    }
                }
                return Some(self.loci[i].1);
            }
            i = i + 1;
        }
        None
    }

    /// The level gauge `gauge` reads for `e`.
    pub fn gauge_level(&self, gauge: &str, e: EntityId) -> (r: Option<u8>)
        ensures
            r == self@.gauge_level(gauge@, e.0),
    {
        let mut i: usize = 0;
        while i < self.gauges.len()
            invariant
                i <= self.gauges@.len(),
                forall|j: int| 0 <= j < i ==> !(self@.gauges[j].0 == gauge@ && self@.gauges[j].1 == e.0),
            decreases self.gauges.len() - i,
        {
            assert(self@.gauges[i as int] == (self.gauges@[i as int].0@, self.gauges@[i as int].1.0, self.gauges@[i as int].2));
            if self.gauges[i].1.0 == e.0 && crate::text::str_eq(self.gauges[i].0.as_str(), gauge) {
                proof {
                    let w = self@;
                    let k = choose|k: int|
                        0 <= k < w.gauges.len() && w.gauges[k].0 == gauge@ && w.gauges[k].1 == e.0
                            && forall|j: int|
                            0 <= j < k ==> !(w.gauges[j].0 == gauge@ && w.gauges[j].1 == e.0);
                    assert(k == i) by {
                        if k < i {
                        } else if k > i {
                            assert(w.gauges[i as int].0 == gauge@ && w.gauges[i as int].1 == e.0);
                        }
                    }
                }
                return Some(self.gauges[i].2);
            }
            i = i + 1;
        }
        None
    }
}

} // verus!
