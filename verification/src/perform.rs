//! Immutable registration and the shared execution path for canonical
//! affordances.
//!
//! Every caller supplies the same grounded action and account-scoped verdict.
//! The performer validates grounding, checks authority and ordered guards, and
//! only then hands the action to the app's implementation. It never derives
//! authority from the actor entity.

use vstd::prelude::*;
use crate::audience::Outbound;
use crate::caps::Verdict;
use crate::gauge::GaugeId;
use crate::id::EntityId;
use crate::schema::{
    ActionOutcome, AffordanceId, AffordanceSchema, ComponentId, Effect, EffectV, GroundAction,
    GroundActionV, Guard, Parameter, ParameterMode, ParameterV, RelationId, Resolution, TermV,
    Value, ValueSort, ValueSortV, ValueV, params_with_mode, sort_of,
};
use crate::state::{
    EvalErrV, EvaluationError, StateActivationError, StateRegistry, StateV, ctx_of, locals_spec,
    missing_readers,
};
use crate::text::{
    lemma_seq_lt_irreflexive, lemma_seq_lt_total, lemma_seq_lt_transitive, seq_lt, str_lt,
    strings_sorted,
};
use crate::validation::{issue_stated, 
    SchemaError, lemma_dense_slots_bounded, schema_valid, slots_dense, slots_distinct,
    validate_schema,
};
use crate::world_view::{WorldV, WorldView};

verus! {

/// Model of an effect kind.
pub enum EffectKindV {
    Relation(Seq<char>),
    Component(Seq<char>),
    Locus,
    Gauge(Seq<char>),
    Existence,
}

/// A planner-facing state dimension changed by one or more registered effects.
#[derive(Debug, PartialEq, Eq, Hash)]
pub enum EffectKind {
    Relation(RelationId),
    Component(ComponentId),
    Locus,
    Gauge(GaugeId),
    Existence,
}

impl View for EffectKind {
    type V = EffectKindV;

    open spec fn view(&self) -> EffectKindV {
        match self {
            EffectKind::Relation(id) => EffectKindV::Relation(id@),
            EffectKind::Component(id) => EffectKindV::Component(id@),
            EffectKind::Locus => EffectKindV::Locus,
            EffectKind::Gauge(id) => EffectKindV::Gauge(id@),
            EffectKind::Existence => EffectKindV::Existence,
        }
    }
}

impl Clone for EffectKind {
    fn clone(&self) -> (r: Self)
        ensures
            r@ == self@,
    {
        match self {
            EffectKind::Relation(id) => EffectKind::Relation(id.clone()),
            EffectKind::Component(id) => EffectKind::Component(id.clone()),
            EffectKind::Locus => EffectKind::Locus,
            EffectKind::Gauge(id) => EffectKind::Gauge(id.clone()),
            EffectKind::Existence => EffectKind::Existence,
        }
    }
}

impl EffectKind {
    /// Whether two kinds name the same state dimension.
    pub fn same(&self, other: &EffectKind) -> (r: bool)
        ensures
            r == (self@ == other@),
    {
        match (self, other) {
            (EffectKind::Relation(a), EffectKind::Relation(b)) => a.same(b),
            (EffectKind::Component(a), EffectKind::Component(b)) => a.same(b),
            (EffectKind::Locus, EffectKind::Locus) => true,
            (EffectKind::Gauge(a), EffectKind::Gauge(b)) => a.same(b),
            (EffectKind::Existence, EffectKind::Existence) => true,
            _ => false,
        }
    }
}

/// The state dimension an effect changes.
pub open spec fn effect_kind(e: EffectV) -> EffectKindV {
    match e {
        EffectV::SetRelation { relation, .. } => EffectKindV::Relation(relation),
        EffectV::ClearRelation { relation, .. } => EffectKindV::Relation(relation),
        EffectV::SetComponent { component, .. } => EffectKindV::Component(component),
        EffectV::RemoveComponent { component, .. } => EffectKindV::Component(component),
        EffectV::SetLocus { .. } => EffectKindV::Locus,
        EffectV::ClearLocus { .. } => EffectKindV::Locus,
        EffectV::ShiftGauge { gauge, .. } => EffectKindV::Gauge(gauge),
        EffectV::Create { .. } => EffectKindV::Existence,
        EffectV::Destroy { .. } => EffectKindV::Existence,
    }
}

/// Whether an effect mentions a result parameter (a creation always does).
pub open spec fn effect_contains_result(e: EffectV) -> bool {
    match e {
        EffectV::SetRelation { source, target, .. } => source is Result || target is Result,
        EffectV::ClearRelation { source, .. } => source is Result,
        EffectV::SetComponent { entity, .. } => entity is Result,
        EffectV::RemoveComponent { entity, .. } => entity is Result,
        EffectV::SetLocus { entity, locus } => entity is Result || locus is Result,
        EffectV::ClearLocus { entity } => entity is Result,
        EffectV::ShiftGauge { entity, .. } => entity is Result,
        EffectV::Create { .. } => true,
        EffectV::Destroy { entity } => entity is Result,
    }
}

/// A non-opaque schema promises, without naming a result, an effect of kind `k`.
pub open spec fn affects(s: AffordanceSchema, k: EffectKindV) -> bool {
    s.resolution_view() != Resolution::Opaque && exists|j: int|
        0 <= j < s.effect_items().len() && !effect_contains_result(
            #[trigger] s.effect_items()[j],
        ) && effect_kind(s.effect_items()[j]) == k
}

/// The ids, in order, of the schemas of `ss` affecting kind `k`.
pub open spec fn affecting(ss: Seq<AffordanceSchema>, k: EffectKindV) -> Seq<Seq<char>> {
    ss.filter(|s: AffordanceSchema| affects(s, k)).map_values(|s: AffordanceSchema| s.id_view())
}

/// Model of an effect index.
pub open spec fn index_view(v: Seq<(EffectKind, Vec<AffordanceId>)>) -> Seq<(EffectKindV, Seq<Seq<char>>)> {
    v.map_values(|e: (EffectKind, Vec<AffordanceId>)| (e.0@, e.1@.map_values(|id: AffordanceId| id@)))
}

/// An effect index of `ss`: one entry per affected kind, listing exactly the
/// affecting schema ids in order.
pub open spec fn index_ok(v: Seq<(EffectKindV, Seq<Seq<char>>)>, ss: Seq<AffordanceSchema>) -> bool {
    &&& forall|i: int, j: int| 0 <= i < j < v.len() ==> #[trigger] v[i].0 != #[trigger] v[j].0
    &&& forall|i: int| 0 <= i < v.len() ==> (#[trigger] v[i]).1 == affecting(ss, v[i].0) && v[i].1.len() > 0
    &&& forall|k: EffectKindV, j: int|
        0 <= j < ss.len() && #[trigger] affects(ss[j], k) ==> exists|i: int|
            0 <= i < v.len() && #[trigger] v[i].0 == k
}

fn term_is_result(t: &crate::schema::Term) -> (r: bool)
    ensures
        r == (t@ is Result),
{
    match t {
        crate::schema::Term::Result(_) => true,
        _ => false,
    }
}

/// Whether an effect mentions a result parameter.
pub fn contains_result(e: &Effect) -> (r: bool)
    ensures
        r == effect_contains_result(e@),
{
    match e {
        Effect::SetRelation { source, target, .. } => term_is_result(source) || term_is_result(target),
        Effect::ClearRelation { source, .. } => term_is_result(source),
        Effect::SetComponent { entity, .. } => term_is_result(entity),
        Effect::RemoveComponent { entity, .. } => term_is_result(entity),
        Effect::SetLocus { entity, locus } => term_is_result(entity) || term_is_result(locus),
        Effect::ClearLocus { entity } => term_is_result(entity),
        Effect::ShiftGauge { entity, .. } => term_is_result(entity),
        Effect::Create { .. } => true,
        Effect::Destroy { entity } => term_is_result(entity),
    }
}

/// The state dimension an effect changes.
pub fn kind_of(e: &Effect) -> (r: EffectKind)
    ensures
        r@ == effect_kind(e@),
{
    match e {
        Effect::SetRelation { relation, .. } => EffectKind::Relation(relation.clone()),
        Effect::ClearRelation { relation, .. } => EffectKind::Relation(relation.clone()),
        Effect::SetComponent { component, .. } => EffectKind::Component(component.clone()),
        Effect::RemoveComponent { component, .. } => EffectKind::Component(component.clone()),
        Effect::SetLocus { .. } => EffectKind::Locus,
        Effect::ClearLocus { .. } => EffectKind::Locus,
        Effect::ShiftGauge { gauge, .. } => EffectKind::Gauge(gauge.clone()),
        Effect::Create { .. } => EffectKind::Existence,
        Effect::Destroy { .. } => EffectKind::Existence,
    }
}

/// Whether `schema` affects `kind`.
fn schema_affects(schema: &AffordanceSchema, kind: &EffectKind) -> (r: bool)
    ensures
        r == affects(*schema, kind@),
{
    if schema.resolution() == Resolution::Opaque {
        return false;
    }
    let effects = schema.effects();
    let ghost es = schema.effect_items();
    let mut j: usize = 0;
    while j < effects.len()
        invariant
            j <= effects@.len(),
            es == effects@.map_values(|e: Effect| e@),
            es == schema.effect_items(),
            schema.resolution_view() != Resolution::Opaque,
            forall|m: int| 0 <= m < j ==> !(!effect_contains_result(#[trigger] es[m]) && effect_kind(es[m]) == kind@),
        decreases effects.len() - j,
    {
        assert(es[j as int] == effects@[j as int]@);
        if !contains_result(&effects[j]) && kind_of(&effects[j]).same(kind) {
            assert(!effect_contains_result(es[j as int]) && effect_kind(es[j as int]) == kind@);
            return true;
        }
        j = j + 1;
    }
    false
}

/// Model of a list of kinds.
pub open spec fn kinds_view(v: Seq<EffectKind>) -> Seq<EffectKindV> {
    v.map_values(|k: EffectKind| k@)
}

fn find_kind(kinds: &Vec<EffectKind>, kind: &EffectKind) -> (r: bool)
    ensures
        r == kinds_view(kinds@).contains(kind@),
{
    let ghost kv = kinds_view(kinds@);
    let mut i: usize = 0;
    while i < kinds.len()
        invariant
            i <= kinds@.len(),
            kv == kinds_view(kinds@),
            forall|m: int| 0 <= m < i ==> kv[m] != kind@,
        decreases kinds.len() - i,
    {
        if kinds[i].same(kind) {
            assert(kv[i as int] == kind@);
            return true;
        }
        i = i + 1;
    }
    false
}

/// The kinds some schema of `schemas` affects, each once.
fn affected_kinds(schemas: &[AffordanceSchema]) -> (r: Vec<EffectKind>)
    ensures
        kinds_view(r@).no_duplicates(),
        forall|k: EffectKindV|
            #[trigger] kinds_view(r@).contains(k) <==> exists|j: int|
                0 <= j < schemas@.len() && #[trigger] affects(schemas@[j], k),
{
    let ghost ss = schemas@;
    let mut kinds: Vec<EffectKind> = Vec::new();
    let mut i: usize = 0;
    while i < schemas.len()
        invariant
            i <= ss.len(),
            ss == schemas@,
            kinds_view(kinds@).no_duplicates(),
            forall|k: EffectKindV|
                #[trigger] kinds_view(kinds@).contains(k) <==> exists|j: int|
                    0 <= j < i && #[trigger] affects(ss[j], k),
        decreases schemas.len() - i,
    {
        let schema = &schemas[i];
        let ghost before = kinds_view(kinds@);
        if schema.resolution() != Resolution::Opaque {
            let effects = schema.effects();
            let ghost es = schema.effect_items();
            let mut j: usize = 0;
            while j < effects.len()
                invariant
                    j <= effects@.len(),
                    es == effects@.map_values(|e: Effect| e@),
                    es == schema.effect_items(),
                    i < ss.len(),
                    *schema == ss[i as int],
                    schema.resolution_view() != Resolution::Opaque,
                    kinds_view(kinds@).no_duplicates(),
                    forall|k: EffectKindV|
                        #[trigger] kinds_view(kinds@).contains(k) <==> (before.contains(k)
                            || exists|m: int|
                            0 <= m < j && !effect_contains_result(#[trigger] es[m]) && effect_kind(es[m]) == k),
                decreases effects.len() - j,
            {
                assert(es[j as int] == effects@[j as int]@);
                let ghost prev = kinds_view(kinds@);
                let ghost mut pushed = false;
                if !contains_result(&effects[j]) {
                    let kind = kind_of(&effects[j]);
                    if !find_kind(&kinds, &kind) {
                        kinds.push(kind);
                        proof {
                            pushed = true;
                        }
                        assert(kinds_view(kinds@) =~= prev.push(effect_kind(es[j as int])));
                    }
                }
                proof {
                    let now = kinds_view(kinds@);
                    if !pushed {
                        assert(now =~= prev);
                    }
                    assert forall|k: EffectKindV| #[trigger] now.contains(k) <==> (before.contains(k)
                        || exists|m: int| 0 <= m < j + 1 && !effect_contains_result(#[trigger] es[m]) && effect_kind(es[m]) == k) by {
                        if now.contains(k) {
                            let a = choose|a: int| 0 <= a < now.len() && now[a] == k;
                            if a < prev.len() {
                                assert(now[a] == prev[a]);
                                assert(prev.contains(k));
                            } else {
                                assert(!effect_contains_result(es[j as int]) && effect_kind(es[j as int]) == k);
                            }
                        }
                        if before.contains(k) || exists|m: int| 0 <= m < j + 1 && !effect_contains_result(#[trigger] es[m]) && effect_kind(es[m]) == k {
                            if prev.contains(k) {
                                let a = choose|a: int| 0 <= a < prev.len() && prev[a] == k;
                                assert(now[a] == k);
                            } else {
                                let m = choose|m: int| 0 <= m < j + 1 && !effect_contains_result(#[trigger] es[m]) && effect_kind(es[m]) == k;
                                assert(m == j);
                                assert(pushed);
                                assert(now[now.len() - 1] == k);
                            }
                        }
                    }
                }
                j = j + 1;
            }
        }
        proof {
            let now = kinds_view(kinds@);
            assert forall|k: EffectKindV| #[trigger] now.contains(k) <==> exists|j: int|
                0 <= j < i + 1 && #[trigger] affects(ss[j], k) by {
                if now.contains(k) && !before.contains(k) {
                    assert(affects(ss[i as int], k));
                }
                if exists|j: int| 0 <= j < i + 1 && #[trigger] affects(ss[j], k) {
                    let j = choose|j: int| 0 <= j < i + 1 && #[trigger] affects(ss[j], k);
                    if j == i {
                        let es = ss[i as int].effect_items();
                        let m = choose|m: int|
                            0 <= m < es.len() && !effect_contains_result(#[trigger] es[m]) && effect_kind(es[m]) == k;
                        assert(!effect_contains_result(es[m]) && effect_kind(es[m]) == k);
                    }
                }
            }
        }
        i = i + 1;
    }
    kinds
}

/// The ids, in order, of the schemas affecting `kind`.
fn affecting_ids(schemas: &[AffordanceSchema], kind: &EffectKind) -> (r: Vec<AffordanceId>)
    ensures
        r@.map_values(|id: AffordanceId| id@) == affecting(schemas@, kind@),
{
    let ghost ss = schemas@;
    let ghost pred = |s: AffordanceSchema| affects(s, kind@);
    let ghost f = |s: AffordanceSchema| s.id_view();
    let mut ids: Vec<AffordanceId> = Vec::new();
    assert(ss.take(0).filter(pred) =~= Seq::<AffordanceSchema>::empty());
    assert(ids@.map_values(|id: AffordanceId| id@) =~= ss.take(0).filter(pred).map_values(f));
    let mut i: usize = 0;
    while i < schemas.len()
        invariant
            i <= ss.len(),
            ss == schemas@,
            pred == (|s: AffordanceSchema| affects(s, kind@)),
            f == (|s: AffordanceSchema| s.id_view()),
            ids@.map_values(|id: AffordanceId| id@) == ss.take(i as int).filter(pred).map_values(f),
        decreases schemas.len() - i,
    {
        let ghost prev = ids@.map_values(|id: AffordanceId| id@);
        if schema_affects(&schemas[i], kind) {
            ids.push(schemas[i].id().clone());
            assert(ids@.map_values(|id: AffordanceId| id@) =~= prev.push(f(ss[i as int])));
        }
        proof {
            assert(ss.take(i + 1) =~= ss.take(i as int).push(ss[i as int]));
            ss.take(i as int).lemma_filter_push(ss[i as int], pred);
            let fl = ss.take(i as int).filter(pred);
            if pred(ss[i as int]) {
                assert(fl.push(ss[i as int]).map_values(f) =~= fl.map_values(f).push(f(ss[i as int])));
            }
        }
        i = i + 1;
    }
    assert(ss.take(ss.len() as int) =~= ss);
    ids
}

/// Group the schemas' non-result effects by the state dimension they change:
/// for each affected kind, the ids of the non-opaque schemas affecting it, in
/// schema order.
pub fn effect_index(schemas: &[AffordanceSchema]) -> (r: Vec<(EffectKind, Vec<AffordanceId>)>)
    ensures
        index_ok(index_view(r@), schemas@),
{
    let kinds = affected_kinds(schemas);
    let ghost kv = kinds_view(kinds@);
    let mut index: Vec<(EffectKind, Vec<AffordanceId>)> = Vec::new();
    let mut i: usize = 0;
    while i < kinds.len()
        invariant
            i <= kinds@.len(),
            kv == kinds_view(kinds@),
            kv.no_duplicates(),
            forall|k: EffectKindV|
                #[trigger] kv.contains(k) <==> exists|j: int|
                    0 <= j < schemas@.len() && #[trigger] affects(schemas@[j], k),
            index@.len() == i,
            forall|m: int| 0 <= m < i ==> (#[trigger] index_view(index@)[m]).0 == kv[m],
            forall|m: int| 0 <= m < i ==> (#[trigger] index_view(index@)[m]).1 == affecting(schemas@, kv[m]),
        decreases kinds.len() - i,
    {
        let ids = affecting_ids(schemas, &kinds[i]);
        let ghost prev = index_view(index@);
        index.push((kinds[i].clone(), ids));
        assert(index_view(index@) =~= prev.push((kv[i as int], affecting(schemas@, kv[i as int]))));
        i = i + 1;
    }
    proof {
        let v = index_view(index@);
        let ss = schemas@;
        assert forall|a: int| 0 <= a < v.len() implies (#[trigger] v[a]).1 == affecting(ss, v[a].0) && v[a].1.len() > 0 by {
            assert(kv.contains(kv[a]));
            let j = choose|j: int| 0 <= j < ss.len() && #[trigger] affects(ss[j], kv[a]);
            let pred = |s: AffordanceSchema| affects(s, kv[a]);
            ss.lemma_filter_contains(pred, j);
        }
        assert forall|k: EffectKindV, j: int| 0 <= j < ss.len() && #[trigger] affects(ss[j], k) implies exists|a: int|
            0 <= a < v.len() && #[trigger] v[a].0 == k by {
            assert(kv.contains(k));
            let a = choose|a: int| 0 <= a < kv.len() && kv[a] == k;
            assert(v[a].0 == k);
        }
    }
    index
}

/// Model of a refusal.
pub enum RefusalV {
    Gate,
    Guard(int, Seq<char>),
    Resolution(Seq<char>),
}

/// A normal non-commit from the shared checks or a non-deterministic handler.
#[derive(Debug, PartialEq, Eq)]
pub enum Refusal {
    Gate,
    Guard { index: usize, reason: String },
    Resolution { reason: String },
}

impl View for Refusal {
    type V = RefusalV;

    open spec fn view(&self) -> RefusalV {
        match self {
            Refusal::Gate => RefusalV::Gate,
            Refusal::Guard { index, reason } => RefusalV::Guard(*index as int, reason@),
            Refusal::Resolution { reason } => RefusalV::Resolution(reason@),
        }
    }
}

/// Model of a completed attempt.
pub enum PerformOutcomeV {
    Committed(Seq<ValueV>),
    Refused(RefusalV),
}

/// A completed canonical attempt.
#[derive(Debug, PartialEq, Eq)]
pub enum PerformOutcome {
    Committed(ActionOutcome),
    Refused(Refusal),
}

impl View for PerformOutcome {
    type V = PerformOutcomeV;

    open spec fn view(&self) -> PerformOutcomeV {
        match self {
            PerformOutcome::Committed(o) => PerformOutcomeV::Committed(o@),
            PerformOutcome::Refused(r) => PerformOutcomeV::Refused(r@),
        }
    }
}

/// Model of what an implementation returned.
pub enum HandlerOutcomeV {
    Committed(Seq<ValueV>),
    Refused(Seq<char>),
}

/// The result returned by an app implementation after all shared checks pass.
#[derive(Debug, PartialEq, Eq)]
pub enum HandlerOutcome {
    Committed(ActionOutcome),
    Refused(String),
}

impl View for HandlerOutcome {
    type V = HandlerOutcomeV;

    open spec fn view(&self) -> HandlerOutcomeV {
        match self {
            HandlerOutcome::Committed(o) => HandlerOutcomeV::Committed(o@),
            HandlerOutcome::Refused(r) => HandlerOutcomeV::Refused(r@),
        }
    }
}

impl HandlerOutcome {
    pub fn committed(outcome: ActionOutcome) -> (r: Self)
        ensures
            r@ == HandlerOutcomeV::Committed(outcome@),
    {
        HandlerOutcome::Committed(outcome)
    }

    pub fn refused(reason: &str) -> (r: Self)
        ensures
            r@ == HandlerOutcomeV::Refused(reason@),
    {
        HandlerOutcome::Refused(reason.to_owned())
    }
}

/// Model of a perform failure.
pub enum PerformErrorV {
    UnknownAffordance(Seq<char>),
    ActorMismatch(u64, u64),
    DeadActor(u64),
    InputCount(int, int),
    WrongInputSort(int, ValueSortV, ValueSortV),
    DeadInput(int, u64),
    UnknownSymbol(int),
    Evaluation(EvalErrV),
    ResultCount(int, int),
    WrongResultSort(int, ValueSortV, ValueSortV),
    UnknownResultSymbol(int),
    DeterministicRefusal(Seq<char>, Seq<char>),
}

/// Malformed or stale grounding, evaluation failure, or handler contract drift.
#[derive(Debug)]
pub enum PerformError {
    UnknownAffordance(AffordanceId),
    ActorMismatch { caller: EntityId, action: EntityId },
    DeadActor(EntityId),
    InputCount { expected: usize, actual: usize },
    WrongInputSort { slot: usize, expected: ValueSort, actual: ValueSort },
    DeadInput { slot: usize, entity: EntityId },
    UnknownSymbol { slot: usize },
    Evaluation(EvaluationError),
    ResultCount { expected: usize, actual: usize },
    WrongResultSort { slot: usize, expected: ValueSort, actual: ValueSort },
    UnknownResultSymbol { slot: usize },
    DeterministicRefusal { affordance: AffordanceId, reason: String },
}

impl View for PerformError {
    type V = PerformErrorV;

    open spec fn view(&self) -> PerformErrorV {
        match self {
            PerformError::UnknownAffordance(id) => PerformErrorV::UnknownAffordance(id@),
            PerformError::ActorMismatch { caller, action } => PerformErrorV::ActorMismatch(caller.0, action.0),
            PerformError::DeadActor(a) => PerformErrorV::DeadActor(a.0),
            PerformError::InputCount { expected, actual } => PerformErrorV::InputCount(*expected as int, *actual as int),
            PerformError::WrongInputSort { slot, expected, actual } => PerformErrorV::WrongInputSort(*slot as int, expected@, actual@),
            PerformError::DeadInput { slot, entity } => PerformErrorV::DeadInput(*slot as int, entity.0),
            PerformError::UnknownSymbol { slot } => PerformErrorV::UnknownSymbol(*slot as int),
            PerformError::Evaluation(e) => PerformErrorV::Evaluation(e@),
            PerformError::ResultCount { expected, actual } => PerformErrorV::ResultCount(*expected as int, *actual as int),
            PerformError::WrongResultSort { slot, expected, actual } => PerformErrorV::WrongResultSort(*slot as int, expected@, actual@),
            PerformError::UnknownResultSymbol { slot } => PerformErrorV::UnknownResultSymbol(*slot as int),
            PerformError::DeterministicRefusal { affordance, reason } => PerformErrorV::DeterministicRefusal(affordance@, reason@),
        }
    }
}

/// Failure while registering or activating the canonical affordance set.
#[derive(Debug)]
pub enum RegistryError {
    DuplicateAffordance(AffordanceId),
    InvalidSchema(SchemaError),
    StateActivation(StateActivationError),
}

/// One supplied input against its declaration: its sort must match, an entity
/// must be live, a symbol must belong to its registered domain.
pub open spec fn input_check(p: ParameterV, v: ValueV, st: StateV, w: WorldV) -> Result<(), PerformErrorV> {
    if sort_of(v) != p.sort {
        Err(PerformErrorV::WrongInputSort(p.slot as int, p.sort, sort_of(v)))
    } else {
        match v {
            ValueV::Entity(e) => if w.contains(e) {
                Ok(())
            } else {
                Err(PerformErrorV::DeadInput(p.slot as int, e))
            },
            ValueV::Symbol(d, m) => if st.has_symbol(d, m) {
                Ok(())
            } else {
                Err(PerformErrorV::UnknownSymbol(p.slot as int))
            },
            ValueV::Text(_) => Ok(()),
        }
    }
}

/// The input declarations `k..` checked in order; the first failure wins.
pub open spec fn inputs_check(
    ins: Seq<ParameterV>,
    k: nat,
    st: StateV,
    w: WorldV,
    vals: Seq<ValueV>,
) -> Result<(), PerformErrorV>
    decreases ins.len() - k,
{
    if k >= ins.len() {
        Ok(())
    } else {
        match input_check(ins[k as int], vals[ins[k as int].slot as int], st, w) {
            Err(e) => Err(e),
            Ok(_) => inputs_check(ins, k + 1, st, w, vals),
        }
    }
}

/// A grounding is current: the actor is live, there is one input per input
/// declaration, and each input passes its declaration.
pub open spec fn grounding_spec(ps: Seq<ParameterV>, st: StateV, w: WorldV, a: GroundActionV) -> Result<
    (),
    PerformErrorV,
> {
    let ins = params_with_mode(ps, ParameterMode::Input);
    if !w.contains(a.actor) {
        Err(PerformErrorV::DeadActor(a.actor))
    } else if a.inputs.len() != ins.len() {
        Err(PerformErrorV::InputCount(ins.len() as int, a.inputs.len() as int))
    } else {
        inputs_check(ins, 0, st, w, a.inputs)
    }
}

/// One produced result against its declaration.
pub open spec fn result_check(p: ParameterV, v: ValueV, st: StateV) -> Result<(), PerformErrorV> {
    if sort_of(v) != p.sort {
        Err(PerformErrorV::WrongResultSort(p.slot as int, p.sort, sort_of(v)))
    } else {
        match v {
            ValueV::Symbol(d, m) => if st.has_symbol(d, m) {
                Ok(())
            } else {
                Err(PerformErrorV::UnknownResultSymbol(p.slot as int))
            },
            _ => Ok(()),
        }
    }
}

pub open spec fn results_check(outs: Seq<ParameterV>, k: nat, st: StateV, vals: Seq<ValueV>) -> Result<
    (),
    PerformErrorV,
>
    decreases outs.len() - k,
{
    if k >= outs.len() {
        Ok(())
    } else {
        match result_check(outs[k as int], vals[outs[k as int].slot as int], st) {
            Err(e) => Err(e),
            Ok(_) => results_check(outs, k + 1, st, vals),
        }
    }
}

/// Committed results bind every result declaration with a value of its sort.
pub open spec fn results_spec(ps: Seq<ParameterV>, st: StateV, vals: Seq<ValueV>) -> Result<(), PerformErrorV> {
    let outs = params_with_mode(ps, ParameterMode::Result);
    if vals.len() != outs.len() {
        Err(PerformErrorV::ResultCount(outs.len() as int, vals.len() as int))
    } else {
        results_check(outs, 0, st, vals)
    }
}

/// Guards `k..` in order: the first failing evaluation is an error, the first
/// false guard refuses with its index and reason.
pub open spec fn guards_spec(
    gs: Seq<Guard>,
    k: nat,
    st: StateV,
    w: WorldV,
    s: AffordanceSchema,
    a: GroundAction,
) -> Result<Option<RefusalV>, PerformErrorV>
    decreases gs.len() - k,
{
    if k >= gs.len() {
        Ok(None)
    } else {
        match locals_spec(gs[k as int].formula_item()@, 0, st, w, ctx_of(&s, &a, None), Seq::empty()) {
            Err(e) => Err(PerformErrorV::Evaluation(e)),
            Ok(false) => Ok(Some(RefusalV::Guard(k as int, gs[k as int].reason_view()))),
            Ok(true) => guards_spec(gs, k + 1, st, w, s, a),
        }
    }
}

/// What the shared checks decide before any implementation runs: an error,
/// a refusal, or `None` to proceed.
pub open spec fn screen_spec(s: AffordanceSchema, st: StateV, w: WorldV, verdict: Verdict, a: GroundAction) -> Result<
    Option<RefusalV>,
    PerformErrorV,
> {
    match grounding_spec(s.params(), st, w, a@) {
        Err(e) => Err(e),
        Ok(_) => if !s.gate_view().admits(&verdict) {
            Ok(Some(RefusalV::Gate))
        } else {
            guards_spec(s.guard_items(), 0, st, w, s, a)
        },
    }
}

/// Whether guard `k` of `gs` evaluates to `b` for the attempt `a`.
pub open spec fn guard_reads(gs: Seq<Guard>, k: int, st: StateV, w: WorldV, s: AffordanceSchema, a: GroundAction, b: bool) -> bool {
    locals_spec(gs[k].formula_item()@, 0, st, w, ctx_of(&s, &a, None), Seq::empty()) == Ok::<bool, EvalErrV>(b)
}

proof fn lemma_guards_from(gs: Seq<Guard>, k: nat, st: StateV, w: WorldV, s: AffordanceSchema, a: GroundAction)
    requires
        k <= gs.len(),
    ensures
        guards_spec(gs, k, st, w, s, a) == Ok::<Option<RefusalV>, PerformErrorV>(None) ==> forall|j: int|
            k <= j < gs.len() ==> #[trigger] guard_reads(gs, j, st, w, s, a, true),
        forall|j: int|
            k <= j < gs.len() && (forall|m: int| k <= m < j ==> #[trigger] guard_reads(gs, m, st, w, s, a, true))
                && #[trigger] guard_reads(gs, j, st, w, s, a, false) ==> guards_spec(gs, k, st, w, s, a) == Ok::<
                Option<RefusalV>,
                PerformErrorV,
            >(Some(RefusalV::Guard(j, gs[j].reason_view()))),
    decreases gs.len() - k,
{
    if k < gs.len() {
        lemma_guards_from(gs, k + 1, st, w, s, a);
        assert forall|j: int|
            k <= j < gs.len() && (forall|m: int| k <= m < j ==> #[trigger] guard_reads(gs, m, st, w, s, a, true))
                && #[trigger] guard_reads(gs, j, st, w, s, a, false) implies guards_spec(gs, k, st, w, s, a) == Ok::<
                Option<RefusalV>,
                PerformErrorV,
            >(Some(RefusalV::Guard(j, gs[j].reason_view()))) by {
            if j > k {
                assert(guard_reads(gs, k as int, st, w, s, a, true));
            }
        }
    }
}

/// The guard decision of an attempt that clears its grounding and its gate:
/// it proceeds only if every guard of the schema evaluates true, and when
/// guards `0..k` hold and guard `k` evaluates false it is refused with
/// guard `k`'s index and reason.
pub proof fn lemma_screen_guards(s: AffordanceSchema, st: StateV, w: WorldV, verdict: Verdict, a: GroundAction)
    requires
        grounding_spec(s.params(), st, w, a@) is Ok,
        s.gate_view().admits(&verdict),
    ensures
        screen_spec(s, st, w, verdict, a) == Ok::<Option<RefusalV>, PerformErrorV>(None) ==> forall|k: int|
            0 <= k < s.guard_items().len() ==> #[trigger] guard_reads(s.guard_items(), k, st, w, s, a, true),
        forall|k: int|
            0 <= k < s.guard_items().len() && (forall|m: int|
                0 <= m < k ==> #[trigger] guard_reads(s.guard_items(), m, st, w, s, a, true)) && #[trigger] guard_reads(
                s.guard_items(),
                k,
                st,
                w,
                s,
                a,
                false,
            ) ==> screen_spec(s, st, w, verdict, a) == Ok::<Option<RefusalV>, PerformErrorV>(
                Some(RefusalV::Guard(k, s.guard_items()[k].reason_view())),
            ),
{
    lemma_guards_from(s.guard_items(), 0, st, w, s, a);
}

/// What an attempt yields once the implementation has answered.
pub open spec fn conclude_spec(s: AffordanceSchema, st: StateV, a: GroundActionV, h: HandlerOutcomeV) -> Result<
    PerformOutcomeV,
    PerformErrorV,
> {
    match h {
        HandlerOutcomeV::Committed(rs) => match results_spec(s.params(), st, rs) {
            Err(e) => Err(e),
            Ok(_) => Ok(PerformOutcomeV::Committed(rs)),
        },
        HandlerOutcomeV::Refused(reason) => if s.resolution_view() == Resolution::Deterministic {
            Err(PerformErrorV::DeterministicRefusal(a.affordance, reason))
        } else {
            Ok(PerformOutcomeV::Refused(RefusalV::Resolution(reason)))
        },
    }
}

/// Schema ids strictly increase, so each id occurs once.
pub open spec fn ids_sorted(ss: Seq<AffordanceSchema>) -> bool {
    forall|i: int, j: int| 0 <= i < j < ss.len() ==> seq_lt(#[trigger] ss[i].id_view(), #[trigger] ss[j].id_view())
}

/// The position of the schema with id `id`.
pub open spec fn schema_at(ss: Seq<AffordanceSchema>, id: Seq<char>) -> Option<int> {
    if exists|i: int| 0 <= i < ss.len() && #[trigger] ss[i].id_view() == id {
        Some(choose|i: int| 0 <= i < ss.len() && #[trigger] ss[i].id_view() == id)
    } else {
        None
    }
}

/// Every schema is valid against `st`.
pub open spec fn all_valid(ss: Seq<AffordanceSchema>, st: StateV) -> bool {
    forall|i: int| 0 <= i < ss.len() ==> schema_valid(&#[trigger] ss[i], st)
}

/// Mutable boot-time assembler. `build` consumes it so the live registry cannot
/// drift after planners, commands, and offers begin sharing it. The app keeps
/// the implementation of each registered affordance beside it.
pub struct AffordanceRegistryBuilder {
    state: StateRegistry,
    entries: Vec<AffordanceSchema>,
}

impl AffordanceRegistryBuilder {
    #[verifier::type_invariant]
    spec fn inv(self) -> bool {
        ids_sorted(self.entries@) && all_valid(self.entries@, self.state@)
    }

    pub closed spec fn schema_items(&self) -> Seq<AffordanceSchema> {
        self.entries@
    }

    pub closed spec fn state_view(&self) -> StateV {
        self.state@
    }

    pub fn new(state: StateRegistry) -> (r: Self)
        ensures
            r.schema_items().len() == 0,
            r.state_view() == state@,
    {
        AffordanceRegistryBuilder { state, entries: Vec::new() }
    }

    /// The registered schemas, in id order.
    pub fn schemas(&self) -> (r: &[AffordanceSchema])
        ensures
            r@ == self.schema_items(),
            ids_sorted(r@),
    {
        proof {
            use_type_invariant(self);
        }
        self.entries.as_slice()
    }

    /// Validate and register one schema: its id must be new and the schema
    /// valid against the state vocabulary.
    pub fn register(&mut self, schema: AffordanceSchema) -> (r: Result<(), RegistryError>)
        ensures
            final(self).state_view() == old(self).state_view(),
            schema_at(old(self).schema_items(), schema.id_view()) is Some ==> (r matches Err(
                RegistryError::DuplicateAffordance(id),
            ) && id@ == schema.id_view()),
            schema_at(old(self).schema_items(), schema.id_view()) is None && !schema_valid(
                &schema,
                old(self).state_view(),
            ) ==> (r matches Err(RegistryError::InvalidSchema(e)) && e.affordance_view()
                == schema.id_view()),
            r matches Err(RegistryError::InvalidSchema(e)) ==> issue_stated(&schema, old(self).state_view(), e.issue_view()),
            r is Ok <==> schema_at(old(self).schema_items(), schema.id_view()) is None && schema_valid(
                &schema,
                old(self).state_view(),
            ),
            r is Err ==> final(self).schema_items() == old(self).schema_items(),
            r is Ok ==> final(self).schema_items().to_multiset() == old(self).schema_items().to_multiset().insert(schema),
            ids_sorted(final(self).schema_items()),
    {
        proof {
            use_type_invariant(&*self);
        }
        let ghost ss = self.entries@;
        let ghost x = schema.id_view();
        let mut p: usize = 0;
        while p < self.entries.len()
            invariant
                p <= ss.len(),
                ss == self.entries@,
                x == schema.id_view(),
                forall|j: int| 0 <= j < p ==> seq_lt(#[trigger] ss[j].id_view(), x),
            ensures
                p <= ss.len(),
                forall|j: int| 0 <= j < p ==> seq_lt(#[trigger] ss[j].id_view(), x),
                p < ss.len() ==> !seq_lt(ss[p as int].id_view(), x),
            decreases ss.len() - p,
        {
            if !str_lt(self.entries[p].id().as_str(), schema.id().as_str()) {
                break;
            }
            p = p + 1;
        }
        if p < self.entries.len() && self.entries[p].id().same(schema.id()) {
            assert(ss[p as int].id_view() == x);
            return Err(RegistryError::DuplicateAffordance(schema.id().clone()));
        }
        proof {
            assert forall|j: int| p <= j < ss.len() implies seq_lt(x, #[trigger] ss[j].id_view()) by {
                lemma_seq_lt_total(x, ss[p as int].id_view());
                if j > p {
                    lemma_seq_lt_transitive(x, ss[p as int].id_view(), ss[j].id_view());
                }
            }
            assert forall|j: int| 0 <= j < ss.len() implies #[trigger] ss[j].id_view() != x by {
                lemma_seq_lt_irreflexive(x);
            }
            assert(schema_at(ss, x) is None);
        }
        match validate_schema(&schema, &self.state) {
            Err(e) => {
                return Err(RegistryError::InvalidSchema(e));
            },
            Ok(()) => {},
        }
        let mut entries = Vec::new();
        std::mem::swap(&mut entries, &mut self.entries);
        entries.insert(p, schema);
        proof {
            let ns = entries@;
            assert(ns =~= ss.insert(p as int, schema));
            assert forall|i: int, j: int| 0 <= i < j < ns.len() implies seq_lt(#[trigger] ns[i].id_view(), #[trigger] ns[j].id_view()) by {
                if i == p {
                    assert(ns[j] == ss[j - 1]);
                } else if j == p {
                    assert(ns[i] == ss[i]);
                } else if i < p && j > p {
                    lemma_seq_lt_transitive(ss[i].id_view(), x, ss[j - 1].id_view());
                }
            }
            assert forall|i: int| 0 <= i < ns.len() implies schema_valid(&#[trigger] ns[i], self.state@) by {
                if i < p {
                    assert(ns[i] == ss[i]);
                } else if i > p {
                    assert(ns[i] == ss[i - 1]);
                }
            }
            vstd::seq_lib::to_multiset_insert(ss, p as int, schema);
        }
        self.entries = entries;
        Ok(())
    }

    /// Check that the world has registered every state reader's type, index
    /// the effects, and freeze the registry.
    pub fn build(self, world: &WorldView) -> (r: Result<AffordanceRegistry, RegistryError>)
        ensures
            r is Ok <==> missing_readers(self.state_view(), world@).len() == 0,
            r matches Ok(reg) ==> reg.schema_items() == self.schema_items() && reg.state_view()
                == self.state_view(),
            r matches Err(e) ==> (e matches RegistryError::StateActivation(a) && strings_sorted(a.missing_view())
                && a.missing_view().to_multiset() == missing_readers(self.state_view(), world@).to_multiset()),
    {
        proof {
            use_type_invariant(&self);
        }
        match self.state.validate_world(world) {
            Err(e) => {
                return Err(RegistryError::StateActivation(e));
            },
            Ok(()) => {},
        }
        let AffordanceRegistryBuilder { state, entries } = self;
        let effects = effect_index(entries.as_slice());
        Ok(AffordanceRegistry { state, entries, effects })
    }
}

/// The app's immutable canonical affordance vocabulary and execution path.
pub struct AffordanceRegistry {
    state: StateRegistry,
    entries: Vec<AffordanceSchema>,
    effects: Vec<(EffectKind, Vec<AffordanceId>)>,
}

impl AffordanceRegistry {
    #[verifier::type_invariant]
    spec fn inv(self) -> bool {
        &&& ids_sorted(self.entries@)
        &&& all_valid(self.entries@, self.state@)
        &&& index_ok(index_view(self.effects@), self.entries@)
    }

    pub closed spec fn schema_items(&self) -> Seq<AffordanceSchema> {
        self.entries@
    }

    pub closed spec fn state_view(&self) -> StateV {
        self.state@
    }

    /// The schemas are in strictly increasing id order and each is valid
    /// against the state vocabulary.
    pub fn check_wf(&self)
        ensures
            ids_sorted(self.schema_items()),
            all_valid(self.schema_items(), self.state_view()),
    {
        proof {
            use_type_invariant(self);
        }
    }

    /// The registered schema with id `id`.
    pub fn schema(&self, id: &AffordanceId) -> (r: Option<&AffordanceSchema>)
        ensures
            match schema_at(self.schema_items(), id@) {
                Some(i) => r matches Some(s) && *s == self.schema_items()[i],
                None => r is None,
            },
    {
        proof {
            use_type_invariant(self);
        }
        match self.position(id) {
            Some(i) => Some(&self.entries[i]),
            None => None,
        }
    }

    /// The position of the schema with id `id`.
    pub fn position_of(&self, id: &AffordanceId) -> (r: Option<usize>)
        ensures
            match schema_at(self.schema_items(), id@) {
                Some(i) => r matches Some(j) && j == i,
                None => r is None,
            },
    {
        proof {
            use_type_invariant(self);
        }
        self.position(id)
    }

    fn position(&self, id: &AffordanceId) -> (r: Option<usize>)
        requires
            ids_sorted(self.entries@),
        ensures
            match schema_at(self.schema_items(), id@) {
                Some(i) => r matches Some(j) && j == i,
                None => r is None,
            },
    {
        let ghost ss = self.entries@;
        let mut i: usize = 0;
        while i < self.entries.len()
            invariant
                i <= ss.len(),
                ss == self.entries@,
                ids_sorted(ss),
                forall|j: int| 0 <= j < i ==> #[trigger] ss[j].id_view() != id@,
            decreases ss.len() - i,
        {
            if self.entries[i].id().same(id) {
                proof {
                    let k = schema_at(ss, id@)->0;
                    assert(ss[i as int].id_view() == id@);
                    if k != i {
                        if k < i {
                            assert(ss[k].id_view() != id@);
                        } else {
                            assert(seq_lt(ss[i as int].id_view(), ss[k].id_view()));
                            lemma_seq_lt_irreflexive(id@);
                        }
                    }
                    assert(k == i);
                }
                return Some(i);
            }
            i = i + 1;
        }
        None
    }

    /// Registered schemas in stable symbolic-id order.
    pub fn schemas(&self) -> (r: &[AffordanceSchema])
        ensures
            r@ == self.schema_items(),
    {
        self.entries.as_slice()
    }

    pub fn len(&self) -> (r: usize)
        ensures
            r == self.schema_items().len(),
    {
        self.entries.len()
    }

    pub fn is_empty(&self) -> (r: bool)
        ensures
            r == (self.schema_items().len() == 0),
    {
        self.entries.len() == 0
    }

    pub fn state(&self) -> (r: &StateRegistry)
        ensures
            r@ == self.state_view(),
    {
        &self.state
    }

    /// The ids, in id order, of the non-opaque schemas that change `kind`
    /// through an effect naming no result.
    pub fn affordances_affecting(&self, kind: &EffectKind) -> (r: &[AffordanceId])
        ensures
            r@.map_values(|id: AffordanceId| id@) == affecting(self.schema_items(), kind@),
    {
        proof {
            use_type_invariant(self);
        }
        let ghost v = index_view(self.effects@);
        let mut i: usize = 0;
        while i < self.effects.len()
            invariant
                i <= self.effects@.len(),
                v == index_view(self.effects@),
                index_ok(v, self.entries@),
                forall|j: int| 0 <= j < i ==> #[trigger] v[j].0 != kind@,
            decreases self.effects.len() - i,
        {
            if self.effects[i].0.same(kind) {
                assert(v[i as int].0 == kind@);
                return self.effects[i].1.as_slice();
            }
            i = i + 1;
        }
        proof {
            let ss = self.entries@;
            let pred = |s: AffordanceSchema| affects(s, kind@);
            assert forall|j: int| 0 <= j < ss.len() implies !pred(#[trigger] ss[j]) by {
                if affects(ss[j], kind@) {
                    let a = choose|a: int| 0 <= a < v.len() && #[trigger] v[a].0 == kind@;
                }
            }
            #[allow(deprecated)]
            ss.filter_lemma(pred);
            if ss.filter(pred).len() > 0 {
                assert(pred(ss.filter(pred)[0]));
                assert(ss.filter(pred).contains(ss.filter(pred)[0]));
                ss.lemma_filter_contains_rev(pred, ss.filter(pred)[0]);
            }
            assert(affecting(ss, kind@) =~= Seq::<Seq<char>>::empty());
        }
        let empty: &[AffordanceId] = &[];
        assert(empty@.map_values(|id: AffordanceId| id@) =~= Seq::<Seq<char>>::empty());
        empty
    }
}

/// Check that a grounding is current for `schema`.
fn validate_grounding(schema: &AffordanceSchema, state: &StateRegistry, world: &WorldView, action: &GroundAction) -> (r: Result<(), PerformError>)
    requires
        schema_valid(schema, state@),
    ensures
        match grounding_spec(schema.params(), state@, world@, action@) {
            Ok(_) => r is Ok,
            Err(e) => r matches Err(x) && x@ == e,
        },
{
    if !world.contains(action.actor()) {
        return Err(PerformError::DeadActor(action.actor()));
    }
    let inputs = schema.inputs();
    let ghost ins = params_with_mode(schema.params(), ParameterMode::Input);
    let expected = inputs.len();
    let values = action.inputs();
    let ghost vals = action@.inputs;
    if values.len() != expected {
        return Err(PerformError::InputCount { expected, actual: values.len() });
    }
    let mut k: usize = 0;
    while k < inputs.len()
        invariant
            k <= inputs@.len(),
            ins == params_with_mode(schema.params(), ParameterMode::Input),
            inputs@.map_values(|p: &Parameter| p@) == ins,
            vals == values@.map_values(|v: Value| v@),
            vals.len() == ins.len(),
            slots_distinct(schema.params()),
            slots_dense(schema.params(), ParameterMode::Input),
            grounding_spec(schema.params(), state@, world@, action@) == inputs_check(ins, k as nat, state@, world@, vals),
        decreases inputs.len() - k,
    {
        let parameter = inputs[k];
        assert(parameter@ == ins[k as int]);
        proof {
            crate::validation::lemma_mode_param_slot_bounded(schema.params(), ParameterMode::Input, k as int);
        }
        let slot = parameter.slot() as usize;
        let value = &values[slot];
        assert(value@ == vals[slot as int]);
        let sort = value.sort();
        if !sort.same(parameter.sort()) {
            return Err(PerformError::WrongInputSort { slot, expected: parameter.sort().clone(), actual: sort });
        }
        match value {
            Value::Entity(entity) => {
                if !world.contains(*entity) {
                    return Err(PerformError::DeadInput { slot, entity: *entity });
                }
            },
            Value::Symbol(symbol) => {
                if !state.has_symbol(symbol) {
                    return Err(PerformError::UnknownSymbol { slot });
                }
            },
            Value::Text(_) => {},
        }
        k = k + 1;
    }
    Ok(())
}

/// Check that committed results bind every result declaration.
fn validate_results(schema: &AffordanceSchema, state: &StateRegistry, outcome: &ActionOutcome) -> (r: Result<(), PerformError>)
    requires
        schema_valid(schema, state@),
    ensures
        match results_spec(schema.params(), state@, outcome@) {
            Ok(_) => r is Ok,
            Err(e) => r matches Err(x) && x@ == e,
        },
{
    let results = schema.results();
    let ghost outs = params_with_mode(schema.params(), ParameterMode::Result);
    let expected = results.len();
    let values = outcome.results();
    let ghost vals = outcome@;
    if values.len() != expected {
        return Err(PerformError::ResultCount { expected, actual: values.len() });
    }
    let mut k: usize = 0;
    while k < results.len()
        invariant
            k <= results@.len(),
            outs == params_with_mode(schema.params(), ParameterMode::Result),
            results@.map_values(|p: &Parameter| p@) == outs,
            vals == values@.map_values(|v: Value| v@),
            vals.len() == outs.len(),
            slots_distinct(schema.params()),
            slots_dense(schema.params(), ParameterMode::Result),
            results_spec(schema.params(), state@, outcome@) == results_check(outs, k as nat, state@, vals),
        decreases results.len() - k,
    {
        let parameter = results[k];
        assert(parameter@ == outs[k as int]);
        proof {
            crate::validation::lemma_mode_param_slot_bounded(schema.params(), ParameterMode::Result, k as int);
        }
        let slot = parameter.slot() as usize;
        let value = &values[slot];
        assert(value@ == vals[slot as int]);
        let sort = value.sort();
        if !sort.same(parameter.sort()) {
            return Err(PerformError::WrongResultSort { slot, expected: parameter.sort().clone(), actual: sort });
        }
        match value {
            Value::Symbol(symbol) => {
                if !state.has_symbol(symbol) {
                    return Err(PerformError::UnknownResultSymbol { slot });
                }
            },
            _ => {},
        }
        k = k + 1;
    }
    Ok(())
}

impl AffordanceRegistry {
    /// The common screening, in order: the affordance must be registered, the
    /// grounding current, its capability admitted by `verdict`, and every
    /// guard true. `Ok(None)` means the action may run.
    pub fn screen(&self, world: &WorldView, verdict: &Verdict, action: &GroundAction) -> (r: Result<Option<Refusal>, PerformError>)
        ensures
            match schema_at(self.schema_items(), action@.affordance) {
                None => r matches Err(x) && x@ == PerformErrorV::UnknownAffordance(action@.affordance),
                Some(i) => match screen_spec(self.schema_items()[i], self.state_view(), world@, *verdict, *action) {
                    Ok(None) => r matches Ok(None),
                    Ok(Some(rf)) => r matches Ok(Some(x)) && x@ == rf,
                    Err(e) => r matches Err(x) && x@ == e,
                },
            },
    {
        proof {
            use_type_invariant(self);
        }
        let i = match self.position(action.affordance()) {
            Some(i) => i,
            None => {
                return Err(PerformError::UnknownAffordance(action.affordance().clone()));
            },
        };
        let schema = &self.entries[i];
        assert(schema_valid(schema, self.state@));
        match validate_grounding(schema, &self.state, world, action) {
            Err(e) => {
                return Err(e);
            },
            Ok(()) => {},
        }
        if !schema.gate().permits(verdict) {
            return Ok(Some(Refusal::Gate));
        }
        let guards = schema.guards();
        let ghost gs = schema.guard_items();
        let mut k: usize = 0;
        while k < guards.len()
            invariant
                k <= guards@.len(),
                gs == guards@,
                gs == schema.guard_items(),
                i < self.entries@.len(),
                *schema == self.entries@[i as int],
                schema_at(self.entries@, action@.affordance) matches Some(j) && j == i,
                screen_spec(*schema, self.state@, world@, *verdict, *action) == guards_spec(gs, k as nat, self.state@, world@, *schema, *action),
            decreases guards.len() - k,
        {
            let guard = &guards[k];
            match self.state.evaluate(guard.formula(), schema, action, None, world) {
                Err(e) => {
                    return Err(PerformError::Evaluation(e));
                },
                Ok(false) => {
                    return Ok(Some(Refusal::Guard { index: k, reason: guard.reason().to_owned() }));
                },
                Ok(true) => {},
            }
            k = k + 1;
        }
        Ok(None)
    }

    /// What an attempt yields once the implementation answered `outcome`:
    /// committed results must bind every result declaration, and only a
    /// non-deterministic affordance may refuse after its guards passed.
    pub fn conclude(&self, action: &GroundAction, outcome: HandlerOutcome) -> (r: Result<PerformOutcome, PerformError>)
        ensures
            match schema_at(self.schema_items(), action@.affordance) {
                None => r matches Err(x) && x@ == PerformErrorV::UnknownAffordance(action@.affordance),
                Some(i) => match conclude_spec(self.schema_items()[i], self.state_view(), action@, outcome@) {
                    Ok(o) => r matches Ok(x) && x@ == o,
                    Err(e) => r matches Err(x) && x@ == e,
                },
            },
    {
        proof {
            use_type_invariant(self);
        }
        let i = match self.position(action.affordance()) {
            Some(i) => i,
            None => {
                return Err(PerformError::UnknownAffordance(action.affordance().clone()));
            },
        };
        let schema = &self.entries[i];
        assert(schema_valid(schema, self.state@));
        match outcome {
            HandlerOutcome::Committed(results) => {
                match validate_results(schema, &self.state, &results) {
                    Err(e) => Err(e),
                    Ok(()) => Ok(PerformOutcome::Committed(results)),
                }
            },
            HandlerOutcome::Refused(reason) => {
                if schema.resolution() == Resolution::Deterministic {
                    Err(PerformError::DeterministicRefusal { affordance: action.affordance().clone(), reason })
                } else {
                    Ok(PerformOutcome::Refused(Refusal::Resolution { reason }))
                }
            },
        }
    }

    /// Execute through the one gate/grounding/guard/implementation contract:
    /// `implementation` runs only once every shared check has passed, and its
    /// answer is then held to the schema.
    pub fn perform<F>(&self, world: &WorldView, verdict: &Verdict, action: &GroundAction, implementation: F) -> (r: Result<PerformOutcome, PerformError>)
        where
            F: FnOnce(&GroundAction) -> HandlerOutcome,
        requires
            implementation.requires((action,)),
        ensures
            match schema_at(self.schema_items(), action@.affordance) {
                None => r matches Err(x) && x@ == PerformErrorV::UnknownAffordance(action@.affordance),
                Some(i) => match screen_spec(self.schema_items()[i], self.state_view(), world@, *verdict, *action) {
                    Err(e) => r matches Err(x) && x@ == e,
                    Ok(Some(rf)) => r matches Ok(x) && x@ == PerformOutcomeV::Refused(rf),
                    Ok(None) => exists|h: HandlerOutcome|
                        #[trigger] implementation.ensures((action,), h) && match conclude_spec(
                            self.schema_items()[i],
                            self.state_view(),
                            action@,
                            h@,
                        ) {
                            Ok(o) => r matches Ok(x) && x@ == o,
                            Err(e) => r matches Err(x) && x@ == e,
                        },
                },
            },
    {
        match self.screen(world, verdict, action) {
            Err(e) => Err(e),
            Ok(Some(refusal)) => Ok(PerformOutcome::Refused(refusal)),
            Ok(None) => {
                let answer = implementation(action);
                let ghost h = answer;
                let r = self.conclude(action, answer);
                assert(implementation.ensures((action,), h));
                r
            },
        }
    }

    /// Perform, with the implementation staging its output beside its
    /// outcome: the staged output is appended to `out` only when the action
    /// commits; a refusal or an error leaves `out` as it was.
    pub fn perform_emitting<F>(
        &self,
        world: &WorldView,
        out: &mut Vec<Outbound>,
        verdict: &Verdict,
        action: &GroundAction,
        implementation: F,
    ) -> (r: Result<PerformOutcome, PerformError>)
        where
            F: FnOnce(&GroundAction) -> (HandlerOutcome, Vec<Outbound>),
        requires
            implementation.requires((action,)),
        ensures
            match schema_at(self.schema_items(), action@.affordance) {
                None => r matches Err(x) && x@ == PerformErrorV::UnknownAffordance(action@.affordance),
                Some(i) => match screen_spec(self.schema_items()[i], self.state_view(), world@, *verdict, *action) {
                    Err(e) => r matches Err(x) && x@ == e,
                    Ok(Some(rf)) => r matches Ok(x) && x@ == PerformOutcomeV::Refused(rf),
                    Ok(None) => exists|h: (HandlerOutcome, Vec<Outbound>)|
                        #[trigger] implementation.ensures((action,), h) && match conclude_spec(
                            self.schema_items()[i],
                            self.state_view(),
                            action@,
                            h.0@,
                        ) {
                            Ok(o) => r matches Ok(x) && x@ == o && (o is Committed ==> final(out)@ == old(out)@ + h.1@),
                            Err(e) => r matches Err(x) && x@ == e,
                        },
                },
            },
            !(r matches Ok(PerformOutcome::Committed(_))) ==> final(out)@ == old(out)@,
    {
        match self.screen(world, verdict, action) {
            Err(e) => Err(e),
            Ok(Some(refusal)) => Ok(PerformOutcome::Refused(refusal)),
            Ok(None) => {
                let (answer, mut staged) = implementation(action);
                let ghost h = (answer, staged);
                let ghost staged0 = staged@;
                let r = self.conclude(action, answer);
                assert(implementation.ensures((action,), h));
                match &r {
                    Ok(PerformOutcome::Committed(_)) => {
                        out.append(&mut staged);
                        assert(out@ == old(out)@ + staged0);
                    },
                    _ => {},
                }
                r
            },
        }
    }

    /// Perform on behalf of the caller controlling `caller`: the action may
    /// not substitute a different actor.
    pub fn perform_as<F>(&self, caller: EntityId, world: &WorldView, verdict: &Verdict, action: &GroundAction, implementation: F) -> (r: Result<PerformOutcome, PerformError>)
        where
            F: FnOnce(&GroundAction) -> HandlerOutcome,
        requires
            implementation.requires((action,)),
        ensures
            caller.0 != action@.actor ==> (r matches Err(x) && x@ == PerformErrorV::ActorMismatch(caller.0, action@.actor)),
            caller.0 == action@.actor ==> match schema_at(self.schema_items(), action@.affordance) {
                None => r matches Err(x) && x@ == PerformErrorV::UnknownAffordance(action@.affordance),
                Some(i) => match screen_spec(self.schema_items()[i], self.state_view(), world@, *verdict, *action) {
                    Err(e) => r matches Err(x) && x@ == e,
                    Ok(Some(rf)) => r matches Ok(x) && x@ == PerformOutcomeV::Refused(rf),
                    Ok(None) => exists|h: HandlerOutcome|
                        #[trigger] implementation.ensures((action,), h) && match conclude_spec(
                            self.schema_items()[i],
                            self.state_view(),
                            action@,
                            h@,
                        ) {
                            Ok(o) => r matches Ok(x) && x@ == o,
                            Err(e) => r matches Err(x) && x@ == e,
                        },
                },
            },
    {
        if action.actor().0 != caller.0 {
            return Err(PerformError::ActorMismatch { caller, action: action.actor() });
        }
        self.perform(world, verdict, action, implementation)
    }
}

} // verus!
