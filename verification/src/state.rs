//! Registered state vocabulary for the canonical affordance state algebra:
//! relation and component ids, gauges with their ordered qualitative regions,
//! and finite symbol domains. Unknown vocabulary is always an error.

use vstd::prelude::*;
use crate::gauge::{GaugeId, GaugeLevel, GaugeTarget};
use crate::registry::find_string;
use crate::id::EntityId;
use crate::schema::{
    ActionOutcome, AffordanceSchema, ComponentId, Condition, ConditionV, Formula, OptionalEntity,
    Term, Value, FormulaV, GaugeRegionId, GroundAction,
    LocalId, NameError, OptionalEntityV, ParameterId, ParameterMode, ParameterV, RelationId,
    SymbolDomainId, SymbolId, SymbolValue, TermV, ValueSort, ValueSortV, ValueV, param_index,
    sort_of,
};
use crate::world_view::{WorldV, WorldView};
use crate::text::{is_valid_name, valid_name, sort_strings, strings_sorted};

verus! {

/// Model of a region: its id and its inclusive interval.
pub type RegionV = (Seq<char>, u8, u8);

/// One named inclusive interval in a gauge's total qualitative ordering.
#[derive(Debug, PartialEq, Eq)]
pub struct GaugeRegion {
    id: GaugeRegionId,
    target: GaugeTarget,
}

impl View for GaugeRegion {
    type V = RegionV;

    closed spec fn view(&self) -> RegionV {
        (self.id@, self.target.lo(), self.target.hi())
    }
}

impl Clone for GaugeRegion {
    fn clone(&self) -> (r: Self)
        ensures
            r == *self,
    {
        GaugeRegion { id: self.id.clone(), target: self.target }
    }
}

impl GaugeRegion {
    pub fn new(id: GaugeRegionId, target: GaugeTarget) -> (r: Self)
        ensures
            r@ == (id@, target.lo(), target.hi()),
    {
        GaugeRegion { id, target }
    }

    pub fn id(&self) -> (r: &GaugeRegionId)
        ensures
            r@ == self@.0,
    {
        &self.id
    }

    pub fn target(&self) -> (r: GaugeTarget)
        ensures
            r.lo() == self@.1,
            r.hi() == self@.2,
            self@.1 <= self@.2,
    {
        let t = self.target;
        let _ = t.min();
        t
    }
}

/// A point reading plus its registered qualitative region.
#[derive(Debug, PartialEq, Eq)]
pub struct GaugeReading {
    level: GaugeLevel,
    region: GaugeRegionId,
    ordinal: usize,
}

impl GaugeReading {
    pub closed spec fn level_view(&self) -> u8 {
        self.level.level()
    }

    pub closed spec fn region_view(&self) -> Seq<char> {
        self.region@
    }

    pub closed spec fn ordinal_view(&self) -> usize {
        self.ordinal
    }

    pub fn level(&self) -> (r: GaugeLevel)
        ensures
            r.level() == self.level_view(),
    {
        self.level
    }

    pub fn region(&self) -> (r: &GaugeRegionId)
        ensures
            r@ == self.region_view(),
    {
        &self.region
    }

    pub fn ordinal(&self) -> (r: usize)
        ensures
            r == self.ordinal_view(),
    {
        self.ordinal
    }
}

/// Failure while assembling stable state vocabulary.
#[derive(Debug)]
pub enum StateRegistrationError {
    Name(NameError),
    IdCollision { kind: String, id: String, existing: String, attempted: String },
    DuplicateGauge(String),
    InvalidGauge { gauge: String, reason: String },
    DuplicateSymbolDomain(String),
    InvalidSymbolDomain { domain: String, reason: String },
}

impl StateRegistrationError {
    /// Converts a name error into a registration failure.
    pub fn from_name(value: NameError) -> (r: Self)
        ensures
            r == StateRegistrationError::Name(value),
    {
        StateRegistrationError::Name(value)
    }
}

/// State readers whose typed world registration is missing at activation.
#[derive(Debug, PartialEq, Eq)]
pub struct StateActivationError {
    missing: Vec<String>,
}

impl StateActivationError {
    pub closed spec fn missing_view(&self) -> Seq<Seq<char>> {
        self.missing@.map_values(|m: String| m@)
    }

    /// The unregistered readers, described and sorted.
    pub fn missing(&self) -> (r: &[String])
        ensures
            r@.map_values(|m: String| m@) == self.missing_view(),
    {
        self.missing.as_slice()
    }
}

/// How a reader whose type the world lacks is described.
pub open spec fn reader_entry(kind: Seq<char>, id: Seq<char>, rust_type: Seq<char>) -> Seq<char> {
    kind + id + " ("@ + rust_type + ")"@
}

/// The readers, in registration order, whose type `registered` lacks.
pub open spec fn unregistered(
    readers: Seq<(Seq<char>, Seq<char>)>,
    registered: Seq<Seq<char>>,
    kind: Seq<char>,
) -> Seq<Seq<char>> {
    readers.filter(|r: (Seq<char>, Seq<char>)| !registered.contains(r.1)).map_values(
        |r: (Seq<char>, Seq<char>)| reader_entry(kind, r.0, r.1),
    )
}

/// Every relation and component reader whose type `w` has not registered.
pub open spec fn missing_readers(st: StateV, w: WorldV) -> Seq<Seq<char>> {
    unregistered(st.relations, w.relation_types, "relation "@) + unregistered(
        st.components,
        w.component_types,
        "component "@,
    )
}

fn collect_unregistered(
    readers: &Vec<(String, String)>,
    registered: &WorldView,
    relations: bool,
    kind: &str,
    out: &mut Vec<String>,
)
    ensures
        final(out)@.map_values(|m: String| m@) == old(out)@.map_values(|m: String| m@)
            + unregistered(
            readers@.map_values(|e: (String, String)| (e.0@, e.1@)),
            if relations {
                registered@.relation_types
            } else {
                registered@.component_types
            },
            kind@,
        ),
{
    let ghost rs = readers@.map_values(|e: (String, String)| (e.0@, e.1@));
    let ghost types = if relations {
        registered@.relation_types
    } else {
        registered@.component_types
    };
    let ghost pred = |r: (Seq<char>, Seq<char>)| !types.contains(r.1);
    let ghost f = |r: (Seq<char>, Seq<char>)| reader_entry(kind@, r.0, r.1);
    let ghost start = out@.map_values(|m: String| m@);
    assert(rs.take(0).filter(pred) =~= Seq::<(Seq<char>, Seq<char>)>::empty());
    assert(out@.map_values(|m: String| m@) =~= start + rs.take(0).filter(pred).map_values(f));
    let mut i: usize = 0;
    while i < readers.len()
        invariant
            i <= readers@.len(),
            rs == readers@.map_values(|e: (String, String)| (e.0@, e.1@)),
            types == (if relations {
                registered@.relation_types
            } else {
                registered@.component_types
            }),
            pred == (|r: (Seq<char>, Seq<char>)| !types.contains(r.1)),
            f == (|r: (Seq<char>, Seq<char>)| reader_entry(kind@, r.0, r.1)),
            out@.map_values(|m: String| m@) == start + rs.take(i as int).filter(pred).map_values(f),
        decreases readers.len() - i,
    {
        let ghost prev = out@.map_values(|m: String| m@);
        let entry = &readers[i];
        assert(rs[i as int] == (entry.0@, entry.1@));
        let present = if relations {
            registered.is_relation_registered(entry.1.as_str())
        } else {
            registered.is_component_registered(entry.1.as_str())
        };
        if !present {
            let mut line = String::from_str(kind);
            line.append(entry.0.as_str());
            line.append(" (");
            line.append(entry.1.as_str());
            line.append(")");
            assert(line@ == reader_entry(kind@, entry.0@, entry.1@));
            out.push(line);
            assert(out@.map_values(|m: String| m@) =~= prev.push(f(rs[i as int])));
        }
        proof {
            assert(rs.take(i + 1) =~= rs.take(i as int).push(rs[i as int]));
            rs.take(i as int).lemma_filter_push(rs[i as int], pred);
            let fl = rs.take(i as int).filter(pred);
            if pred(rs[i as int]) {
                assert(fl.push(rs[i as int]).map_values(f) =~= fl.map_values(f).push(f(rs[i as int])));
            }
        }
        i = i + 1;
    }
    assert(rs.take(readers@.len() as int) =~= rs);
}

/// The regions form a total, ordered, non-overlapping cover of `0..=255` with
/// distinct ids: the first starts at the minimum, the last ends at the
/// maximum, and each starts immediately after its predecessor ends.
pub open spec fn valid_cover(rs: Seq<RegionV>) -> bool {
    &&& rs.len() > 0
    &&& rs[0].1 == 0
    &&& rs[rs.len() - 1].2 == 255
    &&& forall|i: int, j: int| 0 <= i < j < rs.len() ==> #[trigger] rs[i].0 != #[trigger] rs[j].0
    &&& forall|i: int|
        0 < i < rs.len() ==> #[trigger] adjacent(rs, i)
}

/// Region `i` starts immediately after region `i - 1` ends, which is below the
/// maximum.
pub open spec fn adjacent(rs: Seq<RegionV>, i: int) -> bool {
    rs[i - 1].2 < 255 && rs[i].1 == rs[i - 1].2 + 1
}

/// Every region's interval is well formed.
pub open spec fn regions_ordered(rs: Seq<RegionV>) -> bool {
    forall|i: int| 0 <= i < rs.len() ==> #[trigger] rs[i].1 <= rs[i].2
}

/// Whether region `i` of `rs` contains `level`.
pub open spec fn region_holds(rs: Seq<RegionV>, i: int, level: u8) -> bool {
    rs[i].1 <= level <= rs[i].2
}

proof fn lemma_cover_increasing(rs: Seq<RegionV>, i: int, j: int)
    requires
        valid_cover(rs),
        regions_ordered(rs),
        0 <= i < j < rs.len(),
    ensures
        rs[i].2 < rs[j].1,
    decreases j - i,
{
    assert(adjacent(rs, j));
    if i < j - 1 {
        lemma_cover_increasing(rs, i, j - 1);
        assert(rs[j - 1].1 <= rs[j - 1].2);
    }
}

proof fn lemma_cover_reaches(rs: Seq<RegionV>, level: u8, k: int)
    requires
        valid_cover(rs),
        regions_ordered(rs),
        0 <= k < rs.len(),
        rs[k].1 <= level,
    ensures
        exists|i: int| k <= i < rs.len() && region_holds(rs, i, level),
    decreases rs.len() - k,
{
    if k == rs.len() - 1 {
        assert(region_holds(rs, k, level));
    } else if rs[k + 1].1 <= level {
        lemma_cover_reaches(rs, level, k + 1);
    } else {
        assert(adjacent(rs, k + 1));
        assert(region_holds(rs, k, level));
    }
}

/// A registered gauge's regions partition the reading space: every level lies
/// in exactly one region.
pub proof fn lemma_cover_is_partition(rs: Seq<RegionV>, level: u8)
    requires
        valid_cover(rs),
        regions_ordered(rs),
    ensures
        exists|i: int| 0 <= i < rs.len() && region_holds(rs, i, level),
        forall|i: int, j: int|
            0 <= i < rs.len() && 0 <= j < rs.len() && region_holds(rs, i, level) && region_holds(
                rs,
                j,
                level,
            ) ==> i == j,
{
    lemma_cover_reaches(rs, level, 0);
    assert forall|i: int, j: int|
        0 <= i < rs.len() && 0 <= j < rs.len() && region_holds(rs, i, level) && region_holds(
            rs,
            j,
            level,
        ) implies i == j by {
        if i < j {
            lemma_cover_increasing(rs, i, j);
        } else if j < i {
            lemma_cover_increasing(rs, j, i);
        }
    }
}

fn invalid_gauge(gauge: &GaugeId, reason: String) -> (r: StateRegistrationError)
    ensures
        r matches StateRegistrationError::InvalidGauge { gauge: g, reason: why } && g@ == gauge@
            && why@ == reason@,
{
    StateRegistrationError::InvalidGauge { gauge: gauge.as_str().to_owned(), reason }
}

/// The gauge-name rule: nonempty, no whitespace or control characters.
pub fn validate_gauge_name(id: &GaugeId) -> (r: Result<(), StateRegistrationError>)
    ensures
        r is Ok <==> valid_name(id@),
        r matches Err(e) ==> e matches StateRegistrationError::InvalidGauge { gauge, .. }
            && gauge@ == id@,
{
    if !is_valid_name(id.as_str()) {
        return Err(
            invalid_gauge(
                id,
                "ids must be nonempty and contain no whitespace or control characters".to_owned(),
            ),
        );
    }
    Ok(())
}

/// Check that `regions` form a total ordered cover with distinct ids.
pub fn validate_regions(gauge: &GaugeId, regions: &Vec<GaugeRegion>) -> (r: Result<
    (),
    StateRegistrationError,
>)
    ensures
        r is Ok <==> valid_cover(regions@.map_values(|g: GaugeRegion| g@)),
        r matches Err(e) ==> e matches StateRegistrationError::InvalidGauge { gauge: g, .. }
            && g@ == gauge@,
        regions_ordered(regions@.map_values(|g: GaugeRegion| g@)),
{
    let ghost rs = regions@.map_values(|g: GaugeRegion| g@);
    let mut k: usize = 0;
    while k < regions.len()
        invariant
            k <= regions@.len(),
            rs == regions@.map_values(|g: GaugeRegion| g@),
            forall|i: int| 0 <= i < k ==> #[trigger] rs[i].1 <= rs[i].2,
        decreases regions.len() - k,
    {
        let _ = regions[k].target();
        assert(rs[k as int] == regions@[k as int]@);
        k = k + 1;
    }
    if regions.len() == 0 {
        return Err(invalid_gauge(gauge, "at least one region is required".to_owned()));
    }
    if !regions[0].target().min().is_min() {
        return Err(invalid_gauge(gauge, "the first region must start at MIN".to_owned()));
    }
    if !regions[regions.len() - 1].target().max().is_max() {
        return Err(invalid_gauge(gauge, "the last region must end at MAX".to_owned()));
    }
    assert(rs.len() == regions@.len());
    assert(rs[0] == regions@[0]@);
    assert(rs[rs.len() - 1] == regions@[rs.len() - 1]@);
    let mut ordinal: usize = 0;
    while ordinal < regions.len()
        invariant
            0 < regions@.len(),
            ordinal <= regions@.len(),
            rs == regions@.map_values(|g: GaugeRegion| g@),
            rs.len() == regions@.len(),
            rs[0].1 == 0,
            rs[rs.len() - 1].2 == 255,
            regions_ordered(rs),
            forall|i: int, j: int| 0 <= i < j < ordinal ==> #[trigger] rs[i].0 != #[trigger] rs[j].0,
            forall|i: int|
                0 < i < ordinal ==> #[trigger] adjacent(rs, i),
        decreases regions.len() - ordinal,
    {
        let region = &regions[ordinal];
        assert(rs[ordinal as int] == region@);
        let mut j: usize = 0;
        while j < ordinal
            invariant
                ordinal < regions@.len(),
                j <= ordinal,
                rs == regions@.map_values(|g: GaugeRegion| g@),
                rs.len() == regions@.len(),
                regions_ordered(rs),
                rs[ordinal as int] == region@,
                rs[0].1 == 0,
                rs[rs.len() - 1].2 == 255,
                forall|a: int, b: int| 0 <= a < b < ordinal ==> #[trigger] rs[a].0 != #[trigger] rs[b].0,
                forall|a: int| 0 < a < ordinal ==> #[trigger] adjacent(rs, a),
                forall|m: int| 0 <= m < j ==> rs[m].0 != rs[ordinal as int].0,
            decreases ordinal - j,
        {
            assert(rs[j as int] == regions@[j as int]@);
            if regions[j].id().same(region.id()) {
                let mut reason = "duplicate region id ".to_owned();
                reason.append(region.id().as_str());
                proof {
                    assert(!valid_cover(rs)) by {
                        assert(rs[j as int].0 == rs[ordinal as int].0);
                    }
                }
                return Err(invalid_gauge(gauge, reason));
            }
            j = j + 1;
        }
        if ordinal > 0 {
            assert(rs[ordinal - 1] == regions@[ordinal - 1]@);
            let previous = regions[ordinal - 1].target().max().get();
            assert(previous == rs[ordinal - 1].2);
            assert(ordinal < rs.len());
            if previous == 255 {
                let mut reason = "region ".to_owned();
                reason.append(region.id().as_str());
                reason.append(" follows a region that already ends at MAX");
                proof {
                    assert(!valid_cover(rs)) by {
                        let i = ordinal as int;
                        assert(rs[i - 1].2 == 255);
                        assert(!adjacent(rs, i));
                    }
                }
                return Err(invalid_gauge(gauge, reason));
            }
            if region.target().min().get() != previous + 1 {
                let mut reason = "region ".to_owned();
                reason.append(region.id().as_str());
                reason.append(" must start immediately after the prior region");
                proof {
                    assert(!valid_cover(rs)) by {
                        assert(!adjacent(rs, ordinal as int));
                    }
                }
                return Err(invalid_gauge(gauge, reason));
            }
            assert(adjacent(rs, ordinal as int));
        }
        ordinal = ordinal + 1;
    }
    Ok(())
}


/// Model of the registered state vocabulary.
pub struct StateV {
    /// Relation ids with the name of the type registered under each.
    pub relations: Seq<(Seq<char>, Seq<char>)>,
    /// Component ids with the name of the type registered under each.
    pub components: Seq<(Seq<char>, Seq<char>)>,
    /// Gauge ids with their ordered region covers.
    pub gauges: Seq<(Seq<char>, Seq<RegionV>)>,
    /// Symbol domains with their members in registration order.
    pub symbols: Seq<(Seq<char>, Seq<Seq<char>>)>,
}

/// No key of a keyed sequence occurs twice.
pub open spec fn keys_unique<A, B>(s: Seq<(A, B)>) -> bool {
    forall|i: int, j: int| 0 <= i < j < s.len() ==> #[trigger] s[i].0 != #[trigger] s[j].0
}

/// Whether `key` is a key of a keyed sequence.
pub open spec fn has_key<A, B>(s: Seq<(A, B)>, key: A) -> bool {
    exists|i: int| 0 <= i < s.len() && #[trigger] s[i].0 == key
}

impl StateV {
    /// Registered vocabulary is well formed: ids are unique per kind, each gauge
    /// carries a valid region cover, and each symbol domain is a nonempty list
    /// of distinct members.
    pub open spec fn wf(self) -> bool {
        &&& keys_unique(self.relations)
        &&& keys_unique(self.components)
        &&& keys_unique(self.gauges)
        &&& keys_unique(self.symbols)
        &&& forall|i: int|
            0 <= i < self.gauges.len() ==> valid_cover(#[trigger] self.gauges[i].1)
                && regions_ordered(self.gauges[i].1)
        &&& forall|i: int|
            0 <= i < self.symbols.len() ==> (#[trigger] self.symbols[i].1).len() > 0
                && self.symbols[i].1.no_duplicates()
    }

    pub open spec fn has_relation(self, id: Seq<char>) -> bool {
        has_key(self.relations, id)
    }

    pub open spec fn has_component(self, id: Seq<char>) -> bool {
        has_key(self.components, id)
    }

    pub open spec fn has_gauge(self, id: Seq<char>) -> bool {
        has_key(self.gauges, id)
    }

    pub open spec fn has_gauge_region(self, gauge: Seq<char>, region: Seq<char>) -> bool {
        exists|i: int, j: int|
            0 <= i < self.gauges.len() && self.gauges[i].0 == gauge && 0 <= j
                < self.gauges[i].1.len() && #[trigger] self.gauges[i].1[j].0 == region
    }

    pub open spec fn has_symbol_domain(self, id: Seq<char>) -> bool {
        has_key(self.symbols, id)
    }

    pub open spec fn has_symbol(self, domain: Seq<char>, value: Seq<char>) -> bool {
        exists|i: int|
            0 <= i < self.symbols.len() && #[trigger] self.symbols[i].0 == domain
                && self.symbols[i].1.contains(value)
    }
}

struct GaugeEntry {
    id: GaugeId,
    regions: Vec<GaugeRegion>,
}

/// The app-assembled read vocabulary for canonical conditions.
pub struct StateRegistry {
    relations: Vec<(String, String)>,
    components: Vec<(String, String)>,
    gauges: Vec<GaugeEntry>,
    symbols: Vec<(SymbolDomainId, Vec<SymbolId>)>,
}

pub open spec fn symbols_view(v: Vec<SymbolId>) -> Seq<Seq<char>> {
    v@.map_values(|m: SymbolId| m@)
}

impl View for StateRegistry {
    type V = StateV;

    closed spec fn view(&self) -> StateV {
        StateV {
            relations: self.relations@.map_values(|e: (String, String)| (e.0@, e.1@)),
            components: self.components@.map_values(|e: (String, String)| (e.0@, e.1@)),
            gauges: self.gauges@.map_values(
                |e: GaugeEntry| (e.id@, e.regions@.map_values(|g: GaugeRegion| g@)),
            ),
            symbols: self.symbols@.map_values(
                |e: (SymbolDomainId, Vec<SymbolId>)| (e.0@, symbols_view(e.1)),
            ),
        }
    }
}

impl StateRegistry {
    #[verifier::type_invariant]
    spec fn inv(self) -> bool {
        self@.wf()
    }

    pub fn new() -> (r: Self)
        ensures
            r@.relations.len() == 0,
            r@.components.len() == 0,
            r@.gauges.len() == 0,
            r@.symbols.len() == 0,
            r@.wf(),
    {
        let r = StateRegistry {
            relations: Vec::new(),
            components: Vec::new(),
            gauges: Vec::new(),
            symbols: Vec::new(),
        };
        assert(r@.relations =~= Seq::empty());
        assert(r@.components =~= Seq::empty());
        assert(r@.gauges =~= Seq::empty());
        assert(r@.symbols =~= Seq::empty());
        r
    }

    /// The registered vocabulary is well formed.
    pub fn check_wf(&self)
        ensures
            self@.wf(),
    {
        proof {
            use_type_invariant(self);
        }
    }

    fn find_relation(&self, id: &str) -> (r: Option<usize>)
        ensures
            r matches Some(i) ==> i < self@.relations.len() && self@.relations[i as int].0 == id@,
            r is None ==> !self@.has_relation(id@),
    {
        let mut i: usize = 0;
        while i < self.relations.len()
            invariant
                i <= self.relations@.len(),
                forall|j: int| 0 <= j < i ==> self@.relations[j].0 != id@,
            decreases self.relations.len() - i,
        {
            assert(self@.relations[i as int].0 == self.relations@[i as int].0@);
            if crate::text::str_eq(self.relations[i].0.as_str(), id) {
                return Some(i);
            }
            i = i + 1;
        }
        None
    }

    fn find_component(&self, id: &str) -> (r: Option<usize>)
        ensures
            r matches Some(i) ==> i < self@.components.len() && self@.components[i as int].0 == id@,
            r is None ==> !self@.has_component(id@),
    {
        let mut i: usize = 0;
        while i < self.components.len()
            invariant
                i <= self.components@.len(),
                forall|j: int| 0 <= j < i ==> self@.components[j].0 != id@,
            decreases self.components.len() - i,
        {
            assert(self@.components[i as int].0 == self.components@[i as int].0@);
            if crate::text::str_eq(self.components[i].0.as_str(), id) {
                return Some(i);
            }
            i = i + 1;
        }
        None
    }

    fn find_gauge(&self, id: &GaugeId) -> (r: Option<usize>)
        ensures
            r matches Some(i) ==> i < self@.gauges.len() && self@.gauges[i as int].0 == id@,
            r is None ==> !self@.has_gauge(id@),
    {
        let mut i: usize = 0;
        while i < self.gauges.len()
            invariant
                i <= self.gauges@.len(),
                forall|j: int| 0 <= j < i ==> self@.gauges[j].0 != id@,
            decreases self.gauges.len() - i,
        {
            assert(self@.gauges[i as int].0 == self.gauges@[i as int].id@);
            if self.gauges[i].id.same(id) {
                return Some(i);
            }
            i = i + 1;
        }
        None
    }

    fn find_domain(&self, id: &SymbolDomainId) -> (r: Option<usize>)
        ensures
            r matches Some(i) ==> i < self@.symbols.len() && self@.symbols[i as int].0 == id@,
            r is None ==> !self@.has_symbol_domain(id@),
    {
        let mut i: usize = 0;
        while i < self.symbols.len()
            invariant
                i <= self.symbols@.len(),
                forall|j: int| 0 <= j < i ==> self@.symbols[j].0 != id@,
            decreases self.symbols.len() - i,
        {
            assert(self@.symbols[i as int].0 == self.symbols@[i as int].0@);
            if self.symbols[i].0.same(id) {
                return Some(i);
            }
            i = i + 1;
        }
        None
    }

    pub fn has_relation(&self, id: &RelationId) -> (r: bool)
        ensures
            r == self@.has_relation(id@),
    {
        self.find_relation(id.as_str()).is_some()
    }

    pub fn has_component(&self, id: &ComponentId) -> (r: bool)
        ensures
            r == self@.has_component(id@),
    {
        self.find_component(id.as_str()).is_some()
    }

    pub fn has_gauge(&self, id: &GaugeId) -> (r: bool)
        ensures
            r == self@.has_gauge(id@),
    {
        self.find_gauge(id).is_some()
    }

    pub fn has_symbol_domain(&self, id: &SymbolDomainId) -> (r: bool)
        ensures
            r == self@.has_symbol_domain(id@),
    {
        self.find_domain(id).is_some()
    }

    /// The position of `region` in the ordered regions of `gauge`.
    fn region_ordinal(&self, gauge: usize, region: &GaugeRegionId) -> (r: Option<usize>)
        requires
            gauge < self@.gauges.len(),
        ensures
            r matches Some(j) ==> j < self@.gauges[gauge as int].1.len()
                && self@.gauges[gauge as int].1[j as int].0 == region@,
            r is None ==> forall|j: int|
                0 <= j < self@.gauges[gauge as int].1.len() ==> self@.gauges[gauge as int].1[j].0
                    != region@,
    {
        let regions = &self.gauges[gauge].regions;
        assert(self@.gauges[gauge as int].1 == regions@.map_values(|g: GaugeRegion| g@));
        let mut j: usize = 0;
        while j < regions.len()
            invariant
                j <= regions@.len(),
                self@.gauges[gauge as int].1 == regions@.map_values(|g: GaugeRegion| g@),
                forall|m: int| 0 <= m < j ==> self@.gauges[gauge as int].1[m].0 != region@,
            decreases regions.len() - j,
        {
            assert(self@.gauges[gauge as int].1[j as int] == regions@[j as int]@);
            if regions[j].id().same(region) {
                return Some(j);
            }
            j = j + 1;
        }
        None
    }

    pub fn has_gauge_region(&self, gauge: &GaugeId, region: &GaugeRegionId) -> (r: bool)
        ensures
            r == self@.has_gauge_region(gauge@, region@),
    {
        proof {
            use_type_invariant(self);
        }
        match self.find_gauge(gauge) {
            None => false,
            Some(i) => {
                let found = self.region_ordinal(i, region).is_some();
                proof {
                    if !found && self@.has_gauge_region(gauge@, region@) {
                        let (a, b) = choose|a: int, b: int|
                            0 <= a < self@.gauges.len() && self@.gauges[a].0 == gauge@ && 0 <= b
                                < self@.gauges[a].1.len() && #[trigger] self@.gauges[a].1[b].0
                                == region@;
                        assert(a == i) by {
                            if a != i {
                                assert(self@.gauges[a].0 == self@.gauges[i as int].0);
                            }
                        }
                    }
                }
                found
            },
        }
    }

    pub fn has_symbol(&self, value: &SymbolValue) -> (r: bool)
        ensures
            r == self@.has_symbol(value@.0, value@.1),
    {
        proof {
            use_type_invariant(self);
        }
        match self.find_domain(value.domain()) {
            None => false,
            Some(i) => {
                let members = &self.symbols[i].1;
                assert(self@.symbols[i as int].1 == symbols_view(*members));
                let mut j: usize = 0;
                while j < members.len()
                    invariant
                        j <= members@.len(),
                        i < self@.symbols.len(),
                        self@.symbols[i as int].0 == value@.0,
                        self@.symbols[i as int].1 == symbols_view(*members),
                        forall|m: int| 0 <= m < j ==> self@.symbols[i as int].1[m] != value@.1,
                    decreases members.len() - j,
                {
                    assert(self@.symbols[i as int].1[j as int] == members@[j as int]@);
                    if members[j].same(value.value()) {
                        assert(self@.symbols[i as int].1.contains(value@.1));
                        return true;
                    }
                    j = j + 1;
                }
                proof {
                    if self@.has_symbol(value@.0, value@.1) {
                        let a = choose|a: int|
                            0 <= a < self@.symbols.len() && #[trigger] self@.symbols[a].0
                                == value@.0 && self@.symbols[a].1.contains(value@.1);
                        assert(a == i) by {
                            if a != i {
                                assert(self@.symbols[a].0 == self@.symbols[i as int].0);
                            }
                        }
                    }
                }
                false
            },
        }
    }

    /// Register a relation reader's stable id `tag`, typed `rust_type`.
    /// Re-registering the same id with the same type is idempotent; the same id
    /// under another type is a collision.
    pub fn register_relation(&mut self, tag: &str, rust_type: &str) -> (r: Result<
        RelationId,
        StateRegistrationError,
    >)
        ensures
            r is Ok <==> valid_name(tag@) && forall|i: int|
                0 <= i < old(self)@.relations.len() && old(self)@.relations[i].0 == tag@
                    ==> old(self)@.relations[i].1 == rust_type@,
            r matches Ok(id) ==> id@ == tag@,
            !valid_name(tag@) ==> r matches Err(StateRegistrationError::Name(_)),
            valid_name(tag@) && r is Err ==> r matches Err(
                StateRegistrationError::IdCollision { .. },
            ),
            (r is Ok && !old(self)@.has_relation(tag@)) ==> final(self)@.relations == old(
                self,
            )@.relations.push((tag@, rust_type@)),
            (r is Err || old(self)@.has_relation(tag@)) ==> final(self)@.relations == old(
                self,
            )@.relations,
            final(self)@.components == old(self)@.components,
            final(self)@.gauges == old(self)@.gauges,
            final(self)@.symbols == old(self)@.symbols,
    {
        proof {
            use_type_invariant(&*self);
        }
        let id = match RelationId::new(tag) {
            Ok(id) => id,
            Err(e) => {
                return Err(StateRegistrationError::Name(e));
            },
        };
        match self.find_relation(tag) {
            Some(i) => {
                if crate::text::str_eq(self.relations[i].1.as_str(), rust_type) {
                    proof {
                        assert forall|j: int|
                            0 <= j < old(self)@.relations.len() && old(self)@.relations[j].0 == tag@
                                implies old(self)@.relations[j].1 == rust_type@ by {
                            if j != i {
                                if j < i {
                                    assert(old(self)@.relations[j].0 != old(self)@.relations[i as int].0);
                                } else {
                                    assert(old(self)@.relations[i as int].0 != old(self)@.relations[j].0);
                                }
                            }
                        }
                    }
                    return Ok(id);
                }
                assert(old(self)@.relations[i as int].1 != rust_type@);
                Err(
                    StateRegistrationError::IdCollision {
                        kind: "relation".to_owned(),
                        id: tag.to_owned(),
                        existing: self.relations[i].1.clone(),
                        attempted: rust_type.to_owned(),
                    },
                )
            },
            None => {
                let mut v = Vec::new();
                std::mem::swap(&mut v, &mut self.relations);
                v.push((tag.to_owned(), rust_type.to_owned()));
                proof {
                    let old_v = old(self)@.relations;
                    let new_v = v@.map_values(|e: (String, String)| (e.0@, e.1@));
                    assert(new_v =~= old_v.push((tag@, rust_type@)));
                    assert(keys_unique(new_v)) by {
                        assert forall|a: int, b: int| 0 <= a < b < new_v.len() implies #[trigger] new_v[a].0 != #[trigger] new_v[b].0 by {
                            if b == old_v.len() {
                                assert(old_v[a].0 != tag@);
                            }
                        }
                    }
                }
                self.relations = v;
                Ok(id)
            },
        }
    }

    /// Register a component reader's stable id `tag`, typed `rust_type`, with
    /// the same idempotence and collision rule as relations.
    pub fn register_component(&mut self, tag: &str, rust_type: &str) -> (r: Result<
        ComponentId,
        StateRegistrationError,
    >)
        ensures
            r is Ok <==> valid_name(tag@) && forall|i: int|
                0 <= i < old(self)@.components.len() && old(self)@.components[i].0 == tag@
                    ==> old(self)@.components[i].1 == rust_type@,
            r matches Ok(id) ==> id@ == tag@,
            !valid_name(tag@) ==> r matches Err(StateRegistrationError::Name(_)),
            valid_name(tag@) && r is Err ==> r matches Err(
                StateRegistrationError::IdCollision { .. },
            ),
            (r is Ok && !old(self)@.has_component(tag@)) ==> final(self)@.components == old(
                self,
            )@.components.push((tag@, rust_type@)),
            (r is Err || old(self)@.has_component(tag@)) ==> final(self)@.components == old(
                self,
            )@.components,
            final(self)@.relations == old(self)@.relations,
            final(self)@.gauges == old(self)@.gauges,
            final(self)@.symbols == old(self)@.symbols,
    {
        proof {
            use_type_invariant(&*self);
        }
        let id = match ComponentId::new(tag) {
            Ok(id) => id,
            Err(e) => {
                return Err(StateRegistrationError::Name(e));
            },
        };
        match self.find_component(tag) {
            Some(i) => {
                if crate::text::str_eq(self.components[i].1.as_str(), rust_type) {
                    proof {
                        assert forall|j: int|
                            0 <= j < old(self)@.components.len() && old(self)@.components[j].0 == tag@
                                implies old(self)@.components[j].1 == rust_type@ by {
                            if j != i {
                                if j < i {
                                    assert(old(self)@.components[j].0 != old(self)@.components[i as int].0);
                                } else {
                                    assert(old(self)@.components[i as int].0 != old(self)@.components[j].0);
                                }
                            }
                        }
                    }
                    return Ok(id);
                }
                assert(old(self)@.components[i as int].1 != rust_type@);
                Err(
                    StateRegistrationError::IdCollision {
                        kind: "component".to_owned(),
                        id: tag.to_owned(),
                        existing: self.components[i].1.clone(),
                        attempted: rust_type.to_owned(),
                    },
                )
            },
            None => {
                let mut v = Vec::new();
                std::mem::swap(&mut v, &mut self.components);
                v.push((tag.to_owned(), rust_type.to_owned()));
                proof {
                    let old_v = old(self)@.components;
                    let new_v = v@.map_values(|e: (String, String)| (e.0@, e.1@));
                    assert(new_v =~= old_v.push((tag@, rust_type@)));
                    assert(keys_unique(new_v)) by {
                        assert forall|a: int, b: int| 0 <= a < b < new_v.len() implies #[trigger] new_v[a].0 != #[trigger] new_v[b].0 by {
                            if b == old_v.len() {
                                assert(old_v[a].0 != tag@);
                            }
                        }
                    }
                }
                self.components = v;
                Ok(id)
            },
        }
    }

    /// Register a gauge and its total ordered region cover.
    pub fn register_gauge(&mut self, id: GaugeId, regions: Vec<GaugeRegion>) -> (r: Result<
        (),
        StateRegistrationError,
    >)
        ensures
            r is Ok <==> valid_name(id@) && !old(self)@.has_gauge(id@) && valid_cover(
                regions@.map_values(|g: GaugeRegion| g@),
            ),
            !valid_name(id@) ==> r matches Err(StateRegistrationError::InvalidGauge { .. }),
            valid_name(id@) && old(self)@.has_gauge(id@) ==> (r matches Err(
                StateRegistrationError::DuplicateGauge(g),
            ) && g@ == id@),
            valid_name(id@) && !old(self)@.has_gauge(id@) && r is Err ==> r matches Err(
                StateRegistrationError::InvalidGauge { .. },
            ),
            r is Ok ==> final(self)@.gauges == old(self)@.gauges.push(
                (id@, regions@.map_values(|g: GaugeRegion| g@)),
            ),
            r is Err ==> final(self)@.gauges == old(self)@.gauges,
            final(self)@.relations == old(self)@.relations,
            final(self)@.components == old(self)@.components,
            final(self)@.symbols == old(self)@.symbols,
    {
        proof {
            use_type_invariant(&*self);
        }
        validate_gauge_name(&id)?;
        if self.find_gauge(&id).is_some() {
            return Err(StateRegistrationError::DuplicateGauge(id.as_str().to_owned()));
        }
        validate_regions(&id, &regions)?;
        let ghost rv = regions@.map_values(|g: GaugeRegion| g@);
        let ghost idv = id@;
        let mut v = Vec::new();
        std::mem::swap(&mut v, &mut self.gauges);
        v.push(GaugeEntry { id, regions });
        proof {
            let old_v = old(self)@.gauges;
            let new_v = v@.map_values(
                |e: GaugeEntry| (e.id@, e.regions@.map_values(|g: GaugeRegion| g@)),
            );
            assert(new_v =~= old_v.push((idv, rv)));
            assert(keys_unique(new_v)) by {
                assert forall|a: int, b: int| 0 <= a < b < new_v.len() implies #[trigger] new_v[a].0 != #[trigger] new_v[b].0 by {
                    if b == old_v.len() {
                        assert(old_v[a].0 != idv);
                    }
                }
            }
            assert forall|i: int| 0 <= i < new_v.len() implies valid_cover(#[trigger] new_v[i].1)
                && regions_ordered(new_v[i].1) by {
                if i < old_v.len() {
                    assert(new_v[i] == old_v[i]);
                }
            }
        }
        self.gauges = v;
        Ok(())
    }

    /// Register a finite symbolic domain: nonempty, with distinct members.
    pub fn register_symbol_domain(&mut self, id: SymbolDomainId, members: Vec<SymbolId>) -> (r:
        Result<(), StateRegistrationError>)
        ensures
            r is Ok <==> !old(self)@.has_symbol_domain(id@) && members@.len() > 0
                && symbols_view(members).no_duplicates(),
            old(self)@.has_symbol_domain(id@) ==> (r matches Err(
                StateRegistrationError::DuplicateSymbolDomain(d),
            ) && d@ == id@),
            !old(self)@.has_symbol_domain(id@) && r is Err ==> r matches Err(
                StateRegistrationError::InvalidSymbolDomain { .. },
            ),
            r is Ok ==> final(self)@.symbols == old(self)@.symbols.push(
                (id@, symbols_view(members)),
            ),
            r is Err ==> final(self)@.symbols == old(self)@.symbols,
            final(self)@.relations == old(self)@.relations,
            final(self)@.components == old(self)@.components,
            final(self)@.gauges == old(self)@.gauges,
    {
        proof {
            use_type_invariant(&*self);
        }
        if self.find_domain(&id).is_some() {
            return Err(StateRegistrationError::DuplicateSymbolDomain(id.as_str().to_owned()));
        }
        if members.len() == 0 {
            return Err(
                StateRegistrationError::InvalidSymbolDomain {
                    domain: id.as_str().to_owned(),
                    reason: "a finite domain must contain at least one member".to_owned(),
                },
            );
        }
        let ghost mv = symbols_view(members);
        let mut k: usize = 1;
        while k < members.len()
            invariant
                1 <= k <= members@.len(),
                mv == symbols_view(members),
                !old(self)@.has_symbol_domain(id@),
                forall|a: int, b: int| 0 <= a < b < k ==> mv[a] != mv[b],
            decreases members.len() - k,
        {
            let mut j: usize = 0;
            while j < k
                invariant
                    j <= k < members@.len(),
                    mv == symbols_view(members),
                    !old(self)@.has_symbol_domain(id@),
                    forall|a: int| 0 <= a < j ==> mv[a] != mv[k as int],
                decreases k - j,
            {
                assert(mv[j as int] == members@[j as int]@ && mv[k as int] == members@[k as int]@);
                if members[j].same(&members[k]) {
                    let mut reason = "duplicate member ".to_owned();
                    reason.append(members[k].as_str());
                    assert(!mv.no_duplicates()) by {
                        assert(mv[j as int] == mv[k as int]);
                    }
                    return Err(
                        StateRegistrationError::InvalidSymbolDomain {
                            domain: id.as_str().to_owned(),
                            reason,
                        },
                    );
                }
                j = j + 1;
            }
            k = k + 1;
        }
        assert(mv.no_duplicates());
        let ghost idv = id@;
        let mut v = Vec::new();
        std::mem::swap(&mut v, &mut self.symbols);
        v.push((id, members));
        proof {
            let old_v = old(self)@.symbols;
            let new_v = v@.map_values(
                |e: (SymbolDomainId, Vec<SymbolId>)| (e.0@, symbols_view(e.1)),
            );
            assert(new_v =~= old_v.push((idv, mv)));
            assert(keys_unique(new_v)) by {
                assert forall|a: int, b: int| 0 <= a < b < new_v.len() implies #[trigger] new_v[a].0 != #[trigger] new_v[b].0 by {
                    if b == old_v.len() {
                        assert(old_v[a].0 != idv);
                    }
                }
            }
            assert forall|i: int| 0 <= i < new_v.len() implies (#[trigger] new_v[i].1).len() > 0
                && new_v[i].1.no_duplicates() by {
                if i < old_v.len() {
                    assert(new_v[i] == old_v[i]);
                }
            }
        }
        self.symbols = v;
        Ok(())
    }

    /// The first registered member of `domain`, as a symbol value.
    pub fn first_symbol(&self, domain: &SymbolDomainId) -> (r: Option<SymbolValue>)
        ensures
            r is Some <==> self@.has_symbol_domain(domain@),
            r matches Some(v) ==> v@.0 == domain@ && self@.has_symbol(domain@, v@.1) && exists|i: int|
                0 <= i < self@.symbols.len() && self@.symbols[i].0 == domain@ && v@.1
                    == self@.symbols[i].1[0],
    {
        proof {
            use_type_invariant(self);
        }
        match self.find_domain(domain) {
            None => None,
            Some(i) => {
                let members = &self.symbols[i].1;
                assert(self@.symbols[i as int].1 == symbols_view(*members));
                assert(self@.symbols[i as int].1.len() > 0);
                let v = SymbolValue::new(domain.clone(), members[0].clone());
                assert(self@.symbols[i as int].1.contains(v@.1)) by {
                    assert(self@.symbols[i as int].1[0] == v@.1);
                }
                Some(v)
            },
        }
    }
}


/// Model of an evaluation error.
pub enum EvalErrV {
    UnknownRelation(Seq<char>),
    UnknownComponent(Seq<char>),
    UnknownGauge(Seq<char>),
    UnknownGaugeRegion(Seq<char>, Seq<char>),
    UnknownSymbolDomain(Seq<char>),
    UnknownParameter(Seq<char>),
    WrongParameterMode(Seq<char>, ParameterMode, ParameterMode),
    MissingParameterValue(Seq<char>, ParameterMode, u16),
    WrongValueSort(Seq<char>, ValueSortV, ValueSortV),
    UndeclaredLocal(Seq<char>),
    NonEnumerableLocal(Seq<char>),
    ExpectedEntity(ValueSortV),
    GaugeLevelOutsideRegions(Seq<char>, u8),
}

/// A malformed grounding, term, or state reference during evaluation.
#[derive(Debug, PartialEq, Eq)]
pub enum EvaluationError {
    UnknownRelation(RelationId),
    UnknownComponent(ComponentId),
    UnknownGauge(GaugeId),
    UnknownGaugeRegion { gauge: GaugeId, region: GaugeRegionId },
    UnknownSymbolDomain(SymbolDomainId),
    UnknownParameter(ParameterId),
    WrongParameterMode { parameter: ParameterId, expected: ParameterMode, actual: ParameterMode },
    MissingParameterValue { parameter: ParameterId, mode: ParameterMode, slot: u16 },
    WrongValueSort { parameter: ParameterId, expected: ValueSort, actual: ValueSort },
    UndeclaredLocal(LocalId),
    NonEnumerableLocal(LocalId),
    ExpectedEntity(ValueSort),
    GaugeLevelOutsideRegions { gauge: GaugeId, level: GaugeLevel },
}

impl View for EvaluationError {
    type V = EvalErrV;

    open spec fn view(&self) -> EvalErrV {
        match self {
            EvaluationError::UnknownRelation(id) => EvalErrV::UnknownRelation(id@),
            EvaluationError::UnknownComponent(id) => EvalErrV::UnknownComponent(id@),
            EvaluationError::UnknownGauge(id) => EvalErrV::UnknownGauge(id@),
            EvaluationError::UnknownGaugeRegion { gauge, region } => EvalErrV::UnknownGaugeRegion(
                gauge@,
                region@,
            ),
            EvaluationError::UnknownSymbolDomain(id) => EvalErrV::UnknownSymbolDomain(id@),
            EvaluationError::UnknownParameter(id) => EvalErrV::UnknownParameter(id@),
            EvaluationError::WrongParameterMode { parameter, expected, actual } =>
                EvalErrV::WrongParameterMode(parameter@, *expected, *actual),
            EvaluationError::MissingParameterValue { parameter, mode, slot } =>
                EvalErrV::MissingParameterValue(parameter@, *mode, *slot),
            EvaluationError::WrongValueSort { parameter, expected, actual } =>
                EvalErrV::WrongValueSort(parameter@, expected@, actual@),
            EvaluationError::UndeclaredLocal(id) => EvalErrV::UndeclaredLocal(id@),
            EvaluationError::NonEnumerableLocal(id) => EvalErrV::NonEnumerableLocal(id@),
            EvaluationError::ExpectedEntity(sort) => EvalErrV::ExpectedEntity(sort@),
            EvaluationError::GaugeLevelOutsideRegions { gauge, level } =>
                EvalErrV::GaugeLevelOutsideRegions(gauge@, level.level()),
        }
    }
}

/// Everything a term may refer to while one formula is evaluated.
pub struct EvalCtx {
    pub params: Seq<ParameterV>,
    pub actor: u64,
    pub inputs: Seq<ValueV>,
    pub results: Seq<ValueV>,
}

/// The value of a local in the current bindings: the innermost binding wins.
pub open spec fn local_value(binds: Seq<(Seq<char>, ValueV)>, id: Seq<char>) -> Option<ValueV>
    decreases binds.len(),
{
    if binds.len() == 0 {
        None
    } else if binds.last().0 == id {
        Some(binds.last().1)
    } else {
        local_value(binds.drop_last(), id)
    }
}

/// The value a parameter holds in a dense value array.
pub open spec fn param_value_spec(
    id: Seq<char>,
    mode: ParameterMode,
    ps: Seq<ParameterV>,
    values: Seq<ValueV>,
) -> Result<ValueV, EvalErrV> {
    match param_index(ps, id) {
        None => Err(EvalErrV::UnknownParameter(id)),
        Some(i) => if ps[i].mode != mode {
            Err(EvalErrV::WrongParameterMode(id, mode, ps[i].mode))
        } else if ps[i].slot >= values.len() {
            Err(EvalErrV::MissingParameterValue(id, mode, ps[i].slot))
        } else if sort_of(values[ps[i].slot as int]) != ps[i].sort {
            Err(EvalErrV::WrongValueSort(id, ps[i].sort, sort_of(values[ps[i].slot as int])))
        } else {
            Ok(values[ps[i].slot as int])
        },
    }
}

pub open spec fn resolve_spec(t: TermV, ctx: EvalCtx, binds: Seq<(Seq<char>, ValueV)>) -> Result<
    ValueV,
    EvalErrV,
> {
    match t {
        TermV::Actor => Ok(ValueV::Entity(ctx.actor)),
        TermV::Input(id) => param_value_spec(id, ParameterMode::Input, ctx.params, ctx.inputs),
        TermV::Result(id) => param_value_spec(id, ParameterMode::Result, ctx.params, ctx.results),
        TermV::Local(id) => match local_value(binds, id) {
            Some(v) => Ok(v),
            None => Err(EvalErrV::UndeclaredLocal(id)),
        },
        TermV::Constant(v) => Ok(v),
    }
}

pub open spec fn entity_spec(t: TermV, ctx: EvalCtx, binds: Seq<(Seq<char>, ValueV)>) -> Result<
    u64,
    EvalErrV,
> {
    match resolve_spec(t, ctx, binds) {
        Err(e) => Err(e),
        Ok(ValueV::Entity(e)) => Ok(e),
        Ok(v) => Err(EvalErrV::ExpectedEntity(sort_of(v))),
    }
}

pub open spec fn optional_spec(
    actual: Option<u64>,
    o: OptionalEntityV,
    ctx: EvalCtx,
    binds: Seq<(Seq<char>, ValueV)>,
) -> Result<bool, EvalErrV> {
    match o {
        OptionalEntityV::Is(t) => match entity_spec(t, ctx, binds) {
            Err(e) => Err(e),
            Ok(e) => Ok(actual == Some(e)),
        },
        OptionalEntityV::IsUnset => Ok(actual is None),
        OptionalEntityV::IsNot(t) => match entity_spec(t, ctx, binds) {
            Err(e) => Err(e),
            Ok(e) => Ok(actual != Some(e)),
        },
    }
}

/// The index of the registered gauge `g`.
pub open spec fn gauge_index(st: StateV, g: Seq<char>) -> int {
    choose|i: int| 0 <= i < st.gauges.len() && st.gauges[i].0 == g
}

/// The first region of `rs` holding `level`.
pub open spec fn region_of(rs: Seq<RegionV>, level: u8) -> Option<int> {
    if exists|j: int| 0 <= j < rs.len() && region_holds(rs, j, level) {
        Some(
            choose|j: int|
                0 <= j < rs.len() && region_holds(rs, j, level) && forall|m: int|
                    0 <= m < j ==> !region_holds(rs, m, level),
        )
    } else {
        None
    }
}

/// The position of the region named `r` in `rs`.
pub open spec fn region_named(rs: Seq<RegionV>, r: Seq<char>) -> Option<int> {
    if exists|j: int| 0 <= j < rs.len() && rs[j].0 == r {
        Some(choose|j: int| 0 <= j < rs.len() && rs[j].0 == r)
    } else {
        None
    }
}

/// A gauge reading: the level and the ordinal of its region, if the entity has
/// a reading.
pub open spec fn read_gauge_spec(st: StateV, w: WorldV, g: Seq<char>, e: u64) -> Result<
    Option<(u8, int)>,
    EvalErrV,
> {
    if !st.has_gauge(g) {
        Err(EvalErrV::UnknownGauge(g))
    } else {
        match w.gauge_level(g, e) {
            None => Ok(None),
            Some(level) => match region_of(st.gauges[gauge_index(st, g)].1, level) {
                None => Err(EvalErrV::GaugeLevelOutsideRegions(g, level)),
                Some(j) => Ok(Some((level, j))),
            },
        }
    }
}

pub open spec fn threshold_spec(
    entity: TermV,
    g: Seq<char>,
    r: Seq<char>,
    at_least: bool,
    st: StateV,
    w: WorldV,
    ctx: EvalCtx,
    binds: Seq<(Seq<char>, ValueV)>,
) -> Result<bool, EvalErrV> {
    match entity_spec(entity, ctx, binds) {
        Err(e) => Err(e),
        Ok(e) => if !st.has_gauge(g) {
            Err(EvalErrV::UnknownGauge(g))
        } else {
            match region_named(st.gauges[gauge_index(st, g)].1, r) {
                None => Err(EvalErrV::UnknownGaugeRegion(g, r)),
                Some(target) => match read_gauge_spec(st, w, g, e) {
                    Err(x) => Err(x),
                    Ok(None) => Ok(false),
                    Ok(Some((_, ordinal))) => Ok(
                        if at_least {
                            ordinal >= target
                        } else {
                            ordinal <= target
                        },
                    ),
                },
            }
        },
    }
}

/// The truth of one condition, or the first error met while evaluating it.
#[verifier::opaque]
pub open spec fn condition_spec(
    c: ConditionV,
    st: StateV,
    w: WorldV,
    ctx: EvalCtx,
    binds: Seq<(Seq<char>, ValueV)>,
) -> Result<bool, EvalErrV> {
    match c {
        ConditionV::RelationTarget { source, relation, target } => match entity_spec(
            source,
            ctx,
            binds,
        ) {
            Err(e) => Err(e),
            Ok(s) => if !st.has_relation(relation) {
                Err(EvalErrV::UnknownRelation(relation))
            } else {
                optional_spec(w.relation_target(relation, s), target, ctx, binds)
            },
        },
        ConditionV::ComponentPresent { entity, component, present } => match entity_spec(
            entity,
            ctx,
            binds,
        ) {
            Err(e) => Err(e),
            Ok(e) => if !st.has_component(component) {
                Err(EvalErrV::UnknownComponent(component))
            } else {
                Ok(w.has_component(component, e) == present)
            },
        },
        ConditionV::LocusOf { entity, locus } => match entity_spec(entity, ctx, binds) {
            Err(e) => Err(e),
            Ok(e) => optional_spec(w.locus_of(e), locus, ctx, binds),
        },
        ConditionV::GaugeAtLeast { entity, gauge, region } => threshold_spec(
            entity,
            gauge,
            region,
            true,
            st,
            w,
            ctx,
            binds,
        ),
        ConditionV::GaugeAtMost { entity, gauge, region } => threshold_spec(
            entity,
            gauge,
            region,
            false,
            st,
            w,
            ctx,
            binds,
        ),
        ConditionV::Exists { entity, exists } => match entity_spec(entity, ctx, binds) {
            Err(e) => Err(e),
            Ok(e) => Ok(w.contains(e) == exists),
        },
        ConditionV::Distinct { left, right } => match resolve_spec(left, ctx, binds) {
            Err(e) => Err(e),
            Ok(l) => match resolve_spec(right, ctx, binds) {
                Err(e) => Err(e),
                Ok(r) => Ok(l != r),
            },
        },
    }
}

/// A presence test reads the world: for a registered component and an
/// entity the term resolves to, `ComponentPresent { present }` holds exactly
/// when the world's answer to whether that entity has that component is
/// `present`, so the tests for presence and for absence always disagree.
pub proof fn lemma_presence_reads_the_world(
    entity: TermV,
    component: Seq<char>,
    present: bool,
    st: StateV,
    w: WorldV,
    ctx: EvalCtx,
    binds: Seq<(Seq<char>, ValueV)>,
)
    requires
        st.has_component(component),
        entity_spec(entity, ctx, binds) is Ok,
    ensures
        condition_spec(ConditionV::ComponentPresent { entity, component, present }, st, w, ctx, binds) == Ok::<
            bool,
            EvalErrV,
        >(w.has_component(component, entity_spec(entity, ctx, binds)->Ok_0) == present),
        condition_spec(ConditionV::ComponentPresent { entity, component, present }, st, w, ctx, binds) != condition_spec(
            ConditionV::ComponentPresent { entity, component, present: !present },
            st,
            w,
            ctx,
            binds,
        ),
{
    reveal(condition_spec);
}

/// Conditions that ask opposite questions give opposite answers: `Exists`
/// with either flag, a relation's or a locus's target that `Is` and `IsNot`
/// the same term; whenever one of the pair evaluates, so does the other, to
/// the other truth value.
pub proof fn lemma_opposite_conditions(
    entity: TermV,
    t: TermV,
    relation: Seq<char>,
    st: StateV,
    w: WorldV,
    ctx: EvalCtx,
    binds: Seq<(Seq<char>, ValueV)>,
)
    ensures
        condition_spec(ConditionV::Exists { entity, exists: true }, st, w, ctx, binds) matches Ok(b) ==> condition_spec(
            ConditionV::Exists { entity, exists: false },
            st,
            w,
            ctx,
            binds,
        ) == Ok::<bool, EvalErrV>(!b),
        condition_spec(
            ConditionV::RelationTarget { source: entity, relation, target: OptionalEntityV::Is(t) },
            st,
            w,
            ctx,
            binds,
        ) matches Ok(b) ==> condition_spec(
            ConditionV::RelationTarget { source: entity, relation, target: OptionalEntityV::IsNot(t) },
            st,
            w,
            ctx,
            binds,
        ) == Ok::<bool, EvalErrV>(!b),
        condition_spec(ConditionV::LocusOf { entity, locus: OptionalEntityV::Is(t) }, st, w, ctx, binds) matches Ok(b)
            ==> condition_spec(ConditionV::LocusOf { entity, locus: OptionalEntityV::IsNot(t) }, st, w, ctx, binds)
            == Ok::<bool, EvalErrV>(!b),
{
    reveal(condition_spec);
}

/// `Distinct` asks whether two terms name different values: it does not
/// depend on their order when both resolve, and a term that resolves is
/// never distinct from itself.
pub proof fn lemma_distinct_symmetric(left: TermV, right: TermV, st: StateV, w: WorldV, ctx: EvalCtx, binds: Seq<(Seq<char>, ValueV)>)
    ensures
        condition_spec(ConditionV::Distinct { left, right }, st, w, ctx, binds) is Ok ==> condition_spec(
            ConditionV::Distinct { left: right, right: left },
            st,
            w,
            ctx,
            binds,
        ) == condition_spec(ConditionV::Distinct { left, right }, st, w, ctx, binds),
        resolve_spec(left, ctx, binds) is Ok ==> condition_spec(ConditionV::Distinct { left, right: left }, st, w, ctx, binds)
            == Ok::<bool, EvalErrV>(false),
{
    reveal(condition_spec);
}

/// The two gauge thresholds on one region split the gauge: where one
/// evaluates so does the other; an entity with a reading is at least or at
/// most that region, and one without a reading is neither.
pub proof fn lemma_thresholds_split(
    entity: TermV,
    gauge: Seq<char>,
    region: Seq<char>,
    st: StateV,
    w: WorldV,
    ctx: EvalCtx,
    binds: Seq<(Seq<char>, ValueV)>,
)
    ensures
        condition_spec(ConditionV::GaugeAtLeast { entity, gauge, region }, st, w, ctx, binds) is Ok ==> {
            &&& condition_spec(ConditionV::GaugeAtMost { entity, gauge, region }, st, w, ctx, binds) is Ok
            &&& w.gauge_level(gauge, entity_spec(entity, ctx, binds)->Ok_0) is Some ==> (condition_spec(
                ConditionV::GaugeAtLeast { entity, gauge, region },
                st,
                w,
                ctx,
                binds,
            ) == Ok::<bool, EvalErrV>(true) || condition_spec(
                ConditionV::GaugeAtMost { entity, gauge, region },
                st,
                w,
                ctx,
                binds,
            ) == Ok::<bool, EvalErrV>(true))
            &&& w.gauge_level(gauge, entity_spec(entity, ctx, binds)->Ok_0) is None ==> (condition_spec(
                ConditionV::GaugeAtLeast { entity, gauge, region },
                st,
                w,
                ctx,
                binds,
            ) == Ok::<bool, EvalErrV>(false) && condition_spec(
                ConditionV::GaugeAtMost { entity, gauge, region },
                st,
                w,
                ctx,
                binds,
            ) == Ok::<bool, EvalErrV>(false))
        },
{
    reveal(condition_spec);
}

/// Evaluated as a whole formula without locals, a lone presence test gives
/// the same answer: whether the world has the component on the entity is
/// what `present` says.
pub proof fn lemma_presence_formula(
    entity: TermV,
    component: Seq<char>,
    present: bool,
    st: StateV,
    w: WorldV,
    ctx: EvalCtx,
)
    requires
        st.has_component(component),
        entity_spec(entity, ctx, Seq::empty()) is Ok,
    ensures
        locals_spec(
            FormulaV { locals: Seq::empty(), conditions: seq![ConditionV::ComponentPresent { entity, component, present }] },
            0,
            st,
            w,
            ctx,
            Seq::empty(),
        ) == Ok::<bool, EvalErrV>(w.has_component(component, entity_spec(entity, ctx, Seq::empty())->Ok_0) == present),
{
    let binds = Seq::<(Seq<char>, ValueV)>::empty();
    let c = ConditionV::ComponentPresent { entity, component, present };
    let cs = seq![c];
    lemma_presence_reads_the_world(entity, component, present, st, w, ctx, binds);
    assert(conditions_spec(cs, 1, st, w, ctx, binds) == Ok::<bool, EvalErrV>(true));
    assert(cs[0] == c);
}

/// Conditions `k..` in order: false at the first false one, an error at the
/// first failing one, true when all hold.
pub open spec fn conditions_spec(
    cs: Seq<ConditionV>,
    k: nat,
    st: StateV,
    w: WorldV,
    ctx: EvalCtx,
    binds: Seq<(Seq<char>, ValueV)>,
) -> Result<bool, EvalErrV>
    decreases cs.len() - k,
{
    if k >= cs.len() {
        Ok(true)
    } else {
        match condition_spec(cs[k as int], st, w, ctx, binds) {
            Err(e) => Err(e),
            Ok(false) => Ok(false),
            Ok(true) => conditions_spec(cs, k + 1, st, w, ctx, binds),
        }
    }
}

/// The members of the registered symbol domain `d`.
pub open spec fn domain_members(st: StateV, d: Seq<char>) -> Seq<Seq<char>> {
    st.symbols[choose|i: int| 0 <= i < st.symbols.len() && st.symbols[i].0 == d].1
}

/// The candidate values a local of sort `sort` ranges over.
pub open spec fn candidates_spec(id: Seq<char>, sort: ValueSortV, st: StateV, w: WorldV) -> Result<
    Seq<ValueV>,
    EvalErrV,
> {
    match sort {
        ValueSortV::Entity => Ok(w.live.map_values(|e: u64| ValueV::Entity(e))),
        ValueSortV::Text => Err(EvalErrV::NonEnumerableLocal(id)),
        ValueSortV::Symbol(d) => if st.has_symbol_domain(d) {
            Ok(domain_members(st, d).map_values(|m: Seq<char>| ValueV::Symbol(d, m)))
        } else {
            Err(EvalErrV::UnknownSymbolDomain(d))
        },
    }
}

/// Existential evaluation of a formula from local `at` on: each local ranges
/// over its candidates in order, the first witnessing assignment makes it
/// true, and the first error met aborts it.
pub open spec fn locals_spec(
    f: FormulaV,
    at: nat,
    st: StateV,
    w: WorldV,
    ctx: EvalCtx,
    binds: Seq<(Seq<char>, ValueV)>,
) -> Result<bool, EvalErrV>
    decreases f.locals.len() - at, 1nat, 0nat,
{
    if at >= f.locals.len() {
        conditions_spec(f.conditions, 0, st, w, ctx, binds)
    } else {
        match candidates_spec(f.locals[at as int].0, f.locals[at as int].1, st, w) {
            Err(e) => Err(e),
            Ok(cands) => candidates_from(f, at, cands, 0, st, w, ctx, binds),
        }
    }
}

pub open spec fn candidates_from(
    f: FormulaV,
    at: nat,
    cands: Seq<ValueV>,
    k: nat,
    st: StateV,
    w: WorldV,
    ctx: EvalCtx,
    binds: Seq<(Seq<char>, ValueV)>,
) -> Result<bool, EvalErrV>
    decreases f.locals.len() - at, 0nat, cands.len() - k,
{
    if at >= f.locals.len() || k >= cands.len() {
        Ok(false)
    } else {
        match locals_spec(f, at + 1, st, w, ctx, binds.push((f.locals[at as int].0, cands[k as int]))) {
            Err(e) => Err(e),
            Ok(true) => Ok(true),
            Ok(false) => candidates_from(f, at, cands, k + 1, st, w, ctx, binds),
        }
    }
}

/// The evaluation context of one grounded action and optional outcome.
pub open spec fn ctx_of(schema: &AffordanceSchema, action: &GroundAction, outcome: Option<&ActionOutcome>) -> EvalCtx {
    EvalCtx {
        params: schema.params(),
        actor: action@.actor,
        inputs: action@.inputs,
        results: match outcome {
            Some(o) => o@,
            None => Seq::<ValueV>::empty(),
        },
    }
}


pub open spec fn binds_view(b: Seq<(LocalId, Value)>) -> Seq<(Seq<char>, ValueV)> {
    b.map_values(|x: (LocalId, Value)| (x.0@, x.1@))
}

fn parameter_value(id: &ParameterId, expected_mode: ParameterMode, schema: &AffordanceSchema, values: &[Value]) -> (r: Result<Value, EvaluationError>)
    ensures
        match param_value_spec(id@, expected_mode, schema.params(), values@.map_values(|v: Value| v@)) {
            Ok(v) => r matches Ok(x) && x@ == v,
            Err(e) => r matches Err(x) && x@ == e,
        },
{
    let ghost vs = values@.map_values(|v: Value| v@);
    let parameter = match schema.parameter(id) {
        Some(p) => p,
        None => {
            return Err(EvaluationError::UnknownParameter(id.clone()));
        },
    };
    if parameter.mode() != expected_mode {
        return Err(
            EvaluationError::WrongParameterMode {
                parameter: id.clone(),
                expected: expected_mode,
                actual: parameter.mode(),
            },
        );
    }
    let slot = parameter.slot() as usize;
    if slot >= values.len() {
        return Err(
            EvaluationError::MissingParameterValue {
                parameter: id.clone(),
                mode: expected_mode,
                slot: parameter.slot(),
            },
        );
    }
    assert(vs[slot as int] == values@[slot as int]@);
    let value = values[slot].clone();
    let sort = value.sort();
    if !sort.same(parameter.sort()) {
        return Err(
            EvaluationError::WrongValueSort {
                parameter: id.clone(),
                expected: parameter.sort().clone(),
                actual: sort,
            },
        );
    }
    Ok(value)
}

fn find_local(binds: &Vec<(LocalId, Value)>, id: &LocalId) -> (r: Option<Value>)
    ensures
        match local_value(binds_view(binds@), id@) {
            Some(v) => r matches Some(x) && x@ == v,
            None => r is None,
        },
{
    let ghost bv = binds_view(binds@);
    assert(bv.take(binds@.len() as int) =~= bv);
    let mut i: usize = binds.len();
    while i > 0
        invariant
            i <= binds@.len(),
            bv == binds_view(binds@),
            local_value(bv, id@) == local_value(bv.take(i as int), id@),
        decreases i,
    {
        let ghost pre = bv.take(i as int);
        assert(pre.drop_last() =~= bv.take(i - 1));
        assert(pre.last() == (binds@[i - 1].0@, binds@[i - 1].1@));
        if binds[i - 1].0.same(id) {
            return Some(binds[i - 1].1.clone());
        }
        i = i - 1;
    }
    assert(bv.take(0) =~= Seq::<(Seq<char>, ValueV)>::empty());
    None
}

impl StateRegistry {
    fn resolve(&self, term: &Term, schema: &AffordanceSchema, action: &GroundAction, outcome: Option<&ActionOutcome>, binds: &Vec<(LocalId, Value)>) -> (r: Result<Value, EvaluationError>)
        ensures
            match resolve_spec(term@, ctx_of(schema, action, outcome), binds_view(binds@)) {
                Ok(v) => r matches Ok(x) && x@ == v,
                Err(e) => r matches Err(x) && x@ == e,
            },
    {
        match term {
            Term::Actor => Ok(Value::Entity(action.actor())),
            Term::Input(id) => parameter_value(id, ParameterMode::Input, schema, action.inputs()),
            Term::Result(id) => {
                match outcome {
                    Some(o) => parameter_value(id, ParameterMode::Result, schema, o.results()),
                    None => {
                        let empty: Vec<Value> = Vec::new();
                        assert(empty@.map_values(|v: Value| v@) =~= Seq::<ValueV>::empty());
                        parameter_value(id, ParameterMode::Result, schema, empty.as_slice())
                    },
                }
            },
            Term::Local(id) => match find_local(binds, id) {
                Some(v) => Ok(v),
                None => Err(EvaluationError::UndeclaredLocal(id.clone())),
            },
            Term::Constant(value) => Ok(value.clone()),
        }
    }

    fn entity(&self, term: &Term, schema: &AffordanceSchema, action: &GroundAction, outcome: Option<&ActionOutcome>, binds: &Vec<(LocalId, Value)>) -> (r: Result<EntityId, EvaluationError>)
        ensures
            match entity_spec(term@, ctx_of(schema, action, outcome), binds_view(binds@)) {
                Ok(e) => r matches Ok(x) && x.0 == e,
                Err(e) => r matches Err(x) && x@ == e,
            },
    {
        let value = self.resolve(term, schema, action, outcome, binds)?;
        match value.as_entity() {
            Some(e) => Ok(e),
            None => Err(EvaluationError::ExpectedEntity(value.sort())),
        }
    }

    fn optional_entity(&self, actual: Option<EntityId>, constraint: &OptionalEntity, schema: &AffordanceSchema, action: &GroundAction, outcome: Option<&ActionOutcome>, binds: &Vec<(LocalId, Value)>) -> (r: Result<bool, EvaluationError>)
        ensures
            match optional_spec(match actual { Some(a) => Some(a.0), None => None }, constraint@, ctx_of(schema, action, outcome), binds_view(binds@)) {
                Ok(b) => r == Ok::<bool, EvaluationError>(b),
                Err(e) => r matches Err(x) && x@ == e,
            },
    {
        match constraint {
            OptionalEntity::Is(term) => {
                let e = self.entity(term, schema, action, outcome, binds)?;
                Ok(match actual { Some(a) => a.0 == e.0, None => false })
            },
            OptionalEntity::IsUnset => Ok(actual.is_none()),
            OptionalEntity::IsNot(term) => {
                let e = self.entity(term, schema, action, outcome, binds)?;
                Ok(match actual { Some(a) => a.0 != e.0, None => true })
            },
        }
    }

    /// Check that the world has registered the type of every relation and
    /// component reader; otherwise report each missing one, sorted.
    pub fn validate_world(&self, world: &WorldView) -> (r: Result<(), StateActivationError>)
        ensures
            r is Ok <==> missing_readers(self@, world@).len() == 0,
            r matches Err(e) ==> strings_sorted(e.missing_view())
                && e.missing_view().to_multiset() == missing_readers(self@, world@).to_multiset(),
    {
        let mut missing: Vec<String> = Vec::new();
        assert(missing@.map_values(|m: String| m@) =~= Seq::<Seq<char>>::empty());
        collect_unregistered(&self.relations, world, true, "relation ", &mut missing);
        collect_unregistered(&self.components, world, false, "component ", &mut missing);
        assert(missing@.map_values(|m: String| m@) =~= missing_readers(self@, world@));
        if missing.len() == 0 {
            return Ok(());
        }
        let sorted = sort_strings(missing);
        Err(StateActivationError { missing: sorted })
    }

    /// Read a gauge for `entity` and project it into its registered region.
    pub fn read_gauge(&self, gauge: &GaugeId, world: &WorldView, entity: EntityId) -> (r: Result<Option<GaugeReading>, EvaluationError>)
        ensures
            match read_gauge_spec(self@, world@, gauge@, entity.0) {
                Ok(None) => r matches Ok(None),
                Ok(Some((level, ordinal))) => r matches Ok(Some(g)) && g.level_view() == level && g.ordinal_view() == ordinal
                    && g.region_view() == self@.gauges[gauge_index(self@, gauge@)].1[ordinal].0,
                Err(e) => r matches Err(x) && x@ == e,
            },
    {
        proof {
            use_type_invariant(self);
        }
        let gi = match self.find_gauge(gauge) {
            Some(i) => i,
            None => {
                return Err(EvaluationError::UnknownGauge(gauge.clone()));
            },
        };
        proof {
            let k = gauge_index(self@, gauge@);
            assert(k == gi) by {
                if k != gi {
                    if k < gi {
                        assert(self@.gauges[k].0 != self@.gauges[gi as int].0);
                    } else {
                        assert(self@.gauges[gi as int].0 != self@.gauges[k].0);
                    }
                }
            }
        }
        let level = match world.gauge_level(gauge.as_str(), entity) {
            Some(l) => l,
            None => {
                return Ok(None);
            },
        };
        let regions = &self.gauges[gi].regions;
        let ghost rs = self@.gauges[gi as int].1;
        assert(rs == regions@.map_values(|g: GaugeRegion| g@));
        let mut j: usize = 0;
        while j < regions.len()
            invariant
                j <= regions@.len(),
                rs == regions@.map_values(|g: GaugeRegion| g@),
                rs == self@.gauges[gauge_index(self@, gauge@)].1,
                self@.has_gauge(gauge@),
                world@.gauge_level(gauge@, entity.0) == Some(level),
                forall|m: int| 0 <= m < j ==> !region_holds(rs, m, level),
            decreases regions.len() - j,
        {
            assert(rs[j as int] == regions@[j as int]@);
            if regions[j].target().contains(GaugeLevel::new(level)) {
                proof {
                    assert(region_holds(rs, j as int, level));
                    let k = region_of(rs, level)->0;
                    assert(k == j) by {
                        if k < j {
                        } else if k > j {
                            assert(region_holds(rs, j as int, level));
                        }
                    }
                }
                return Ok(Some(GaugeReading { level: GaugeLevel::new(level), region: regions[j].id().clone(), ordinal: j }));
            }
            j = j + 1;
        }
        Err(EvaluationError::GaugeLevelOutsideRegions { gauge: gauge.clone(), level: GaugeLevel::new(level) })
    }

    fn gauge_threshold(&self, entity: &Term, gauge: &GaugeId, region: &GaugeRegionId, at_least: bool, schema: &AffordanceSchema, action: &GroundAction, outcome: Option<&ActionOutcome>, world: &WorldView, binds: &Vec<(LocalId, Value)>) -> (r: Result<bool, EvaluationError>)
        ensures
            match threshold_spec(entity@, gauge@, region@, at_least, self@, world@, ctx_of(schema, action, outcome), binds_view(binds@)) {
                Ok(b) => r == Ok::<bool, EvaluationError>(b),
                Err(e) => r matches Err(x) && x@ == e,
            },
    {
        proof {
            use_type_invariant(self);
        }
        let e = self.entity(entity, schema, action, outcome, binds)?;
        let gi = match self.find_gauge(gauge) {
            Some(i) => i,
            None => {
                return Err(EvaluationError::UnknownGauge(gauge.clone()));
            },
        };
        proof {
            let k = gauge_index(self@, gauge@);
            assert(k == gi) by {
                if k != gi {
                    if k < gi {
                        assert(self@.gauges[k].0 != self@.gauges[gi as int].0);
                    } else {
                        assert(self@.gauges[gi as int].0 != self@.gauges[k].0);
                    }
                }
            }
        }
        let target = match self.region_ordinal(gi, region) {
            Some(t) => t,
            None => {
                return Err(EvaluationError::UnknownGaugeRegion { gauge: gauge.clone(), region: region.clone() });
            },
        };
        proof {
            let rs = self@.gauges[gi as int].1;
            let k = region_named(rs, region@)->0;
            assert(rs[target as int].0 == region@);
            assert(k == target) by {
                if k != target {
                    if k < target {
                        assert(rs[k].0 != rs[target as int].0);
                    } else {
                        assert(rs[target as int].0 != rs[k].0);
                    }
                }
            }
        }
        match self.read_gauge(gauge, world, e)? {
            None => Ok(false),
            Some(reading) => Ok(if at_least { reading.ordinal() >= target } else { reading.ordinal() <= target }),
        }
    }

    fn evaluate_condition(&self, condition: &Condition, schema: &AffordanceSchema, action: &GroundAction, outcome: Option<&ActionOutcome>, world: &WorldView, binds: &Vec<(LocalId, Value)>) -> (r: Result<bool, EvaluationError>)
        ensures
            match condition_spec(condition@, self@, world@, ctx_of(schema, action, outcome), binds_view(binds@)) {
                Ok(b) => r == Ok::<bool, EvaluationError>(b),
                Err(e) => r matches Err(x) && x@ == e,
            },
    {
        reveal(condition_spec);
        match condition {
            Condition::RelationTarget { source, relation, target } => {
                let s = self.entity(source, schema, action, outcome, binds)?;
                if !self.has_relation(relation) {
                    return Err(EvaluationError::UnknownRelation(relation.clone()));
                }
                let actual = world.relation_target(relation.as_str(), s);
                self.optional_entity(actual, target, schema, action, outcome, binds)
            },
            Condition::ComponentPresent { entity, component, present } => {
                let e = self.entity(entity, schema, action, outcome, binds)?;
                if !self.has_component(component) {
                    return Err(EvaluationError::UnknownComponent(component.clone()));
                }
                Ok(world.has_component(component.as_str(), e) == *present)
            },
            Condition::LocusOf { entity, locus } => {
                let e = self.entity(entity, schema, action, outcome, binds)?;
                let actual = world.locus_of(e);
                self.optional_entity(actual, locus, schema, action, outcome, binds)
            },
            Condition::GaugeAtLeast { entity, gauge, region } => self.gauge_threshold(entity, gauge, region, true, schema, action, outcome, world, binds),
            Condition::GaugeAtMost { entity, gauge, region } => self.gauge_threshold(entity, gauge, region, false, schema, action, outcome, world, binds),
            Condition::Exists { entity, exists } => {
                let e = self.entity(entity, schema, action, outcome, binds)?;
                Ok(world.contains(e) == *exists)
            },
            Condition::Distinct { left, right } => {
                let l = self.resolve(left, schema, action, outcome, binds)?;
                let r = self.resolve(right, schema, action, outcome, binds)?;
                Ok(!l.same(&r))
            },
        }
    }

    fn local_candidates(&self, id: &LocalId, sort: &ValueSort, world: &WorldView) -> (r: Result<Vec<Value>, EvaluationError>)
        ensures
            match candidates_spec(id@, sort@, self@, world@) {
                Ok(cs) => r matches Ok(x) && x@.map_values(|v: Value| v@) == cs,
                Err(e) => r matches Err(x) && x@ == e,
            },
    {
        proof {
            use_type_invariant(self);
        }
        match sort {
            ValueSort::Entity => {
                let live = world.entities();
                let ghost lv = world@.live;
                let mut out: Vec<Value> = Vec::new();
                let mut i: usize = 0;
                while i < live.len()
                    invariant
                        i <= live@.len(),
                        lv == live@.map_values(|e: EntityId| e.0),
                        out@.map_values(|v: Value| v@) == lv.take(i as int).map_values(|e: u64| ValueV::Entity(e)),
                    decreases live.len() - i,
                {
                    let ghost prev = out@.map_values(|v: Value| v@);
                    assert(lv[i as int] == live@[i as int].0);
                    assert(lv.take(i + 1) =~= lv.take(i as int).push(lv[i as int]));
                    out.push(Value::Entity(live[i]));
                    assert(out@.map_values(|v: Value| v@) =~= prev.push(ValueV::Entity(lv[i as int])));
                    assert(out@.map_values(|v: Value| v@) =~= lv.take(i + 1).map_values(|e: u64| ValueV::Entity(e)));
                    i = i + 1;
                }
                assert(lv.take(live@.len() as int) =~= lv);
                Ok(out)
            },
            ValueSort::Text => Err(EvaluationError::NonEnumerableLocal(id.clone())),
            ValueSort::Symbol(domain) => {
                let di = match self.find_domain(domain) {
                    Some(i) => i,
                    None => {
                        return Err(EvaluationError::UnknownSymbolDomain(domain.clone()));
                    },
                };
                proof {
                    let k = choose|i: int| 0 <= i < self@.symbols.len() && self@.symbols[i].0 == domain@;
                    assert(k == di) by {
                        if k != di {
                            if k < di {
                                assert(self@.symbols[k].0 != self@.symbols[di as int].0);
                            } else {
                                assert(self@.symbols[di as int].0 != self@.symbols[k].0);
                            }
                        }
                    }
                }
                let members = &self.symbols[di].1;
                let ghost mv = symbols_view(*members);
                assert(mv == domain_members(self@, domain@));
                let mut out: Vec<Value> = Vec::new();
                let mut i: usize = 0;
                while i < members.len()
                    invariant
                        i <= members@.len(),
                        mv == symbols_view(*members),
                        out@.map_values(|v: Value| v@) == mv.take(i as int).map_values(|m: Seq<char>| ValueV::Symbol(domain@, m)),
                    decreases members.len() - i,
                {
                    let ghost prev = out@.map_values(|v: Value| v@);
                    assert(mv[i as int] == members@[i as int]@);
                    assert(mv.take(i + 1) =~= mv.take(i as int).push(mv[i as int]));
                    out.push(Value::Symbol(SymbolValue::new(domain.clone(), members[i].clone())));
                    assert(out@.map_values(|v: Value| v@) =~= prev.push(ValueV::Symbol(domain@, mv[i as int])));
                    assert(out@.map_values(|v: Value| v@) =~= mv.take(i + 1).map_values(|m: Seq<char>| ValueV::Symbol(domain@, m)));
                    i = i + 1;
                }
                assert(mv.take(members@.len() as int) =~= mv);
                Ok(out)
            },
        }
    }

    fn evaluate_conditions(&self, formula: &Formula, schema: &AffordanceSchema, action: &GroundAction, outcome: Option<&ActionOutcome>, world: &WorldView, binds: &Vec<(LocalId, Value)>) -> (r: Result<bool, EvaluationError>)
        ensures
            match conditions_spec(formula@.conditions, 0, self@, world@, ctx_of(schema, action, outcome), binds_view(binds@)) {
                Ok(b) => r == Ok::<bool, EvaluationError>(b),
                Err(e) => r matches Err(x) && x@ == e,
            },
    {
        let conditions = formula.conditions();
        let ghost cs = formula@.conditions;
        let ghost ctx = ctx_of(schema, action, outcome);
        let mut k: usize = 0;
        while k < conditions.len()
            invariant
                k <= conditions@.len(),
                cs == formula@.conditions,
                cs == conditions@.map_values(|c: Condition| c@),
                ctx == ctx_of(schema, action, outcome),
                conditions_spec(cs, 0, self@, world@, ctx, binds_view(binds@)) == conditions_spec(cs, k as nat, self@, world@, ctx, binds_view(binds@)),
            decreases conditions.len() - k,
        {
            assert(cs[k as int] == conditions@[k as int]@);
            let b = self.evaluate_condition(&conditions[k], schema, action, outcome, world, binds);
            proof {
                assert(conditions_spec(cs, k as nat, self@, world@, ctx, binds_view(binds@)) == match condition_spec(cs[k as int], self@, world@, ctx, binds_view(binds@)) {
                    Err(e) => Err(e),
                    Ok(false) => Ok(false),
                    Ok(true) => conditions_spec(cs, (k + 1) as nat, self@, world@, ctx, binds_view(binds@)),
                });
            }
            match b {
                Err(e) => {
                    return Err(e);
                },
                Ok(false) => {
                    return Ok(false);
                },
                Ok(true) => {},
            }
            k = k + 1;
        }
        Ok(true)
    }

    fn evaluate_locals(&self, at: usize, formula: &Formula, schema: &AffordanceSchema, action: &GroundAction, outcome: Option<&ActionOutcome>, world: &WorldView, binds: &mut Vec<(LocalId, Value)>) -> (r: Result<bool, EvaluationError>)
        requires
            at <= formula@.locals.len(),
        ensures
            final(binds)@ == old(binds)@,
            match locals_spec(formula@, at as nat, self@, world@, ctx_of(schema, action, outcome), binds_view(old(binds)@)) {
                Ok(b) => r == Ok::<bool, EvaluationError>(b),
                Err(e) => r matches Err(x) && x@ == e,
            },
        decreases formula@.locals.len() - at,
    {
        let locals = formula.locals();
        if at >= locals.len() {
            return self.evaluate_conditions(formula, schema, action, outcome, world, binds);
        }
        let local = &locals[at];
        let next = at + 1;
        assert(formula@.locals[at as int] == local@);
        let candidates = self.local_candidates(local.id(), local.sort(), world)?;
        let ghost cv = candidates@.map_values(|v: Value| v@);
        let ghost ctx = ctx_of(schema, action, outcome);
        let ghost b0 = binds_view(binds@);
        let ghost orig = binds@;
        proof {
            assert(locals_spec(formula@, at as nat, self@, world@, ctx, b0) == candidates_from(formula@, at as nat, cv, 0, self@, world@, ctx, b0));
        }
        let mut k: usize = 0;
        while k < candidates.len()
            invariant
                k <= candidates@.len(),
                at < formula@.locals.len(),
                at < locals@.len(),
                next == at + 1,
                orig == old(binds)@,
                locals_spec(formula@, at as nat, self@, world@, ctx, b0) == candidates_from(formula@, at as nat, cv, 0, self@, world@, ctx, b0),
                cv == candidates@.map_values(|v: Value| v@),
                ctx == ctx_of(schema, action, outcome),
                binds@ == orig,
                b0 == binds_view(orig),
                formula@.locals[at as int] == local@,
                candidates_from(formula@, at as nat, cv, 0, self@, world@, ctx, b0) == candidates_from(formula@, at as nat, cv, k as nat, self@, world@, ctx, b0),
            decreases candidates.len() - k,
        {
            binds.push((local.id().clone(), candidates[k].clone()));
            proof {
                assert(binds_view(binds@) =~= b0.push((formula@.locals[at as int].0, cv[k as int])));
            }
            let found = self.evaluate_locals(next, formula, schema, action, outcome, world, binds);
            binds.pop();
            assert(binds@ =~= orig);
            proof {
                assert(candidates_from(formula@, at as nat, cv, k as nat, self@, world@, ctx, b0) == match locals_spec(formula@, (at + 1) as nat, self@, world@, ctx, b0.push((formula@.locals[at as int].0, cv[k as int]))) {
                    Err(e) => Err(e),
                    Ok(true) => Ok(true),
                    Ok(false) => candidates_from(formula@, at as nat, cv, (k + 1) as nat, self@, world@, ctx, b0),
                });
            }
            match found {
                Err(e) => {
                    return Err(e);
                },
                Ok(true) => {
                    return Ok(true);
                },
                Ok(false) => {},
            }
            k = k + 1;
        }
        Ok(false)
    }

    /// Evaluate a canonical formula against one grounded action and optional
    /// successful results. Formula locals are existentially enumerated from
    /// the live world or their registered finite symbol domain.
    pub fn evaluate(&self, formula: &Formula, schema: &AffordanceSchema, action: &GroundAction, outcome: Option<&ActionOutcome>, world: &WorldView) -> (r: Result<bool, EvaluationError>)
        ensures
            match locals_spec(formula@, 0, self@, world@, ctx_of(schema, action, outcome), Seq::empty()) {
                Ok(b) => r == Ok::<bool, EvaluationError>(b),
                Err(e) => r matches Err(x) && x@ == e,
            },
    {
        let mut binds: Vec<(LocalId, Value)> = Vec::new();
        assert(binds_view(binds@) =~= Seq::<(Seq<char>, ValueV)>::empty());
        self.evaluate_locals(0, formula, schema, action, outcome, world, &mut binds)
    }
}

} // verus!
