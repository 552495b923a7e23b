//! Partial grounding and offer classification for non-text front ends.
//!
//! The engine validates canonical ids, modes, sorts, liveness, gates, and every
//! guard whose inputs are ground. The app supplies only exposure policy: which
//! partial groundings to propose and which candidate values to present.

use vstd::prelude::*;
use crate::caps::Verdict;
use crate::id::EntityId;
use crate::perform::{AffordanceRegistry, all_valid, schema_at};
use crate::schema::{
    AffordanceId, AffordanceSchema, Condition, ConditionV, Formula, FormulaV, GroundAction, Guard,
    OptionalEntity, OptionalEntityV, Parameter, ParameterBinding, ParameterId, ParameterMode,
    ParameterV, PartialGrounding, Term, TermV, Value, ValueSort, ValueSortV, ValueV, param_index,
    params_with_mode, sort_of,
};
use crate::state::{
    EvalCtx, EvalErrV, EvaluationError, StateRegistry, StateV, domain_members, locals_spec,
};
use crate::validation::{schema_valid, slot_filled, slots_dense, slots_distinct, sort_ok};
use crate::world_view::{WorldV, WorldView};

verus! {

/// App-supplied presentation candidates for one unbound input. These are
/// hints, not authority: a perform request is validated again on its own.
#[derive(Debug, PartialEq, Eq)]
pub struct InputCandidates {
    parameter: ParameterId,
    values: Vec<Value>,
}

impl InputCandidates {
    pub closed spec fn parameter_view(&self) -> Seq<char> {
        self.parameter@
    }

    pub closed spec fn values_view(&self) -> Seq<ValueV> {
        self.values@.map_values(|v: Value| v@)
    }

    pub fn new(parameter: ParameterId, values: Vec<Value>) -> (r: Self)
        ensures
            r.parameter_view() == parameter@,
            r.values_view() == values@.map_values(|v: Value| v@),
    {
        InputCandidates { parameter, values }
    }

    pub fn parameter(&self) -> (r: &ParameterId)
        ensures
            r@ == self.parameter_view(),
    {
        &self.parameter
    }

    pub fn values(&self) -> (r: &[Value])
        ensures
            r@.map_values(|v: Value| v@) == self.values_view(),
    {
        self.values.as_slice()
    }
}

/// One app-selected affordance exposure: a canonical partial grounding plus
/// optional candidate values for its missing inputs.
#[derive(Debug, PartialEq, Eq)]
pub struct OfferProposal {
    grounding: PartialGrounding,
    candidates: Vec<InputCandidates>,
}

impl OfferProposal {
    pub closed spec fn grounding_item(&self) -> PartialGrounding {
        self.grounding
    }

    pub closed spec fn candidate_items(&self) -> Seq<InputCandidates> {
        self.candidates@
    }

    pub fn new(grounding: PartialGrounding, candidates: Vec<InputCandidates>) -> (r: Self)
        ensures
            r.grounding_item() == grounding,
            r.candidate_items() == candidates@,
    {
        OfferProposal { grounding, candidates }
    }

    pub fn grounding(&self) -> (r: &PartialGrounding)
        ensures
            *r == self.grounding_item(),
    {
        &self.grounding
    }

    pub fn candidates(&self) -> (r: &[InputCandidates])
        ensures
            r@ == self.candidate_items(),
    {
        self.candidates.as_slice()
    }
}

/// Model of an offer classification.
pub enum OfferStatusV {
    Available,
    Needs(Seq<Seq<char>>),
    Vetoed(Seq<char>),
}

/// Engine classification of an app proposal under the caller's live
/// authority and world state.
#[derive(Debug, PartialEq, Eq)]
pub enum OfferStatus {
    Available,
    Needs { parameters: Vec<ParameterId> },
    Vetoed { reason: String },
}

impl View for OfferStatus {
    type V = OfferStatusV;

    open spec fn view(&self) -> OfferStatusV {
        match self {
            OfferStatus::Available => OfferStatusV::Available,
            OfferStatus::Needs { parameters } => OfferStatusV::Needs(
                parameters@.map_values(|p: ParameterId| p@),
            ),
            OfferStatus::Vetoed { reason } => OfferStatusV::Vetoed(reason@),
        }
    }
}

/// A validated proposal and its current classification.
#[derive(Debug, PartialEq, Eq)]
pub struct ClassifiedOffer {
    proposal: OfferProposal,
    status: OfferStatus,
}

impl ClassifiedOffer {
    pub closed spec fn proposal_item(&self) -> OfferProposal {
        self.proposal
    }

    pub closed spec fn status_view(&self) -> OfferStatusV {
        self.status@
    }

    pub fn proposal(&self) -> (r: &OfferProposal)
        ensures
            *r == self.proposal_item(),
    {
        &self.proposal
    }

    pub fn status(&self) -> (r: &OfferStatus)
        ensures
            r@ == self.status_view(),
    {
        &self.status
    }
}

/// Model of a grounding failure.
pub enum GroundingErrorV {
    UnknownAffordance(Seq<char>),
    DeadActor(u64),
    UnknownParameter(Seq<char>),
    NotInput(Seq<char>),
    DuplicateBinding(Seq<char>),
    WrongSort(Seq<char>, ValueSortV, ValueSortV),
    DeadEntity(Seq<char>, u64),
    UnknownSymbol(Seq<char>),
    MissingInputs(Seq<Seq<char>>),
    DuplicateCandidates(Seq<char>),
    CandidatesForBoundInput(Seq<char>),
    Evaluation(EvalErrV),
}

/// Invalid app proposal or client grounding: structural input drift, not an
/// ordinary guard refusal.
#[derive(Debug, PartialEq, Eq)]
pub enum GroundingError {
    UnknownAffordance(AffordanceId),
    DeadActor(EntityId),
    UnknownParameter(ParameterId),
    NotInput(ParameterId),
    DuplicateBinding(ParameterId),
    WrongSort { parameter: ParameterId, expected: ValueSort, actual: ValueSort },
    DeadEntity { parameter: ParameterId, entity: EntityId },
    UnknownSymbol(ParameterId),
    MissingInputs(Vec<ParameterId>),
    DuplicateCandidates(ParameterId),
    CandidatesForBoundInput(ParameterId),
    Evaluation(EvaluationError),
}

impl View for GroundingError {
    type V = GroundingErrorV;

    open spec fn view(&self) -> GroundingErrorV {
        match self {
            GroundingError::UnknownAffordance(id) => GroundingErrorV::UnknownAffordance(id@),
            GroundingError::DeadActor(a) => GroundingErrorV::DeadActor(a.0),
            GroundingError::UnknownParameter(id) => GroundingErrorV::UnknownParameter(id@),
            GroundingError::NotInput(id) => GroundingErrorV::NotInput(id@),
            GroundingError::DuplicateBinding(id) => GroundingErrorV::DuplicateBinding(id@),
            GroundingError::WrongSort { parameter, expected, actual } => GroundingErrorV::WrongSort(
                parameter@,
                expected@,
                actual@,
            ),
            GroundingError::DeadEntity { parameter, entity } => GroundingErrorV::DeadEntity(parameter@, entity.0),
            GroundingError::UnknownSymbol(id) => GroundingErrorV::UnknownSymbol(id@),
            GroundingError::MissingInputs(ids) => GroundingErrorV::MissingInputs(
                ids@.map_values(|p: ParameterId| p@),
            ),
            GroundingError::DuplicateCandidates(id) => GroundingErrorV::DuplicateCandidates(id@),
            GroundingError::CandidatesForBoundInput(id) => GroundingErrorV::CandidatesForBoundInput(id@),
            GroundingError::Evaluation(e) => GroundingErrorV::Evaluation(e@),
        }
    }
}

/// Model of a list of bindings.
pub open spec fn bindings_of(bs: Seq<ParameterBinding>) -> Seq<(Seq<char>, ValueV)> {
    bs.map_values(|b: ParameterBinding| (b.parameter_view(), b.value_view()))
}

/// One supplied value for input `id` declared of sort `expected`.
#[verifier::opaque]
pub open spec fn value_check(id: Seq<char>, expected: ValueSortV, v: ValueV, st: StateV, w: WorldV) -> Result<
    (),
    GroundingErrorV,
> {
    if sort_of(v) != expected {
        Err(GroundingErrorV::WrongSort(id, expected, sort_of(v)))
    } else {
        match v {
            ValueV::Entity(e) => if w.contains(e) {
                Ok(())
            } else {
                Err(GroundingErrorV::DeadEntity(id, e))
            },
            ValueV::Symbol(d, m) => if st.has_symbol(d, m) {
                Ok(())
            } else {
                Err(GroundingErrorV::UnknownSymbol(id))
            },
            ValueV::Text(_) => Ok(()),
        }
    }
}

/// Whether some binding of `bs` names `id`.
pub open spec fn binds(bs: Seq<(Seq<char>, ValueV)>, id: Seq<char>) -> bool {
    exists|j: int| 0 <= j < bs.len() && #[trigger] bs[j].0 == id
}

/// Bindings `k..` in order: each must name a declared input, once, with a
/// valid value.
#[verifier::opaque]
pub open spec fn bindings_check(ps: Seq<ParameterV>, bs: Seq<(Seq<char>, ValueV)>, k: nat, st: StateV, w: WorldV) -> Result<
    (),
    GroundingErrorV,
>
    decreases bs.len() - k,
{
    if k >= bs.len() {
        Ok(())
    } else {
        let id = bs[k as int].0;
        match param_index(ps, id) {
            None => Err(GroundingErrorV::UnknownParameter(id)),
            Some(i) => if ps[i].mode != ParameterMode::Input {
                Err(GroundingErrorV::NotInput(id))
            } else if binds(bs.take(k as int), id) {
                Err(GroundingErrorV::DuplicateBinding(id))
            } else {
                match value_check(id, ps[i].sort, bs[k as int].1, st, w) {
                    Err(e) => Err(e),
                    Ok(_) => bindings_check(ps, bs, k + 1, st, w),
                }
            },
        }
    }
}

/// Candidate sets `k..` in order: each must name a declared, still unbound
/// input, once, with valid values.
#[verifier::opaque]
pub open spec fn candidates_check(
    ps: Seq<ParameterV>,
    bs: Seq<(Seq<char>, ValueV)>,
    cs: Seq<InputCandidates>,
    k: nat,
    st: StateV,
    w: WorldV,
) -> Result<(), GroundingErrorV>
    decreases cs.len() - k, 0nat,
{
    if k >= cs.len() {
        Ok(())
    } else {
        let id = cs[k as int].parameter_view();
        match param_index(ps, id) {
            None => Err(GroundingErrorV::UnknownParameter(id)),
            Some(i) => if ps[i].mode != ParameterMode::Input {
                Err(GroundingErrorV::NotInput(id))
            } else if exists|j: int| 0 <= j < k && #[trigger] cs[j].parameter_view() == id {
                Err(GroundingErrorV::DuplicateCandidates(id))
            } else if binds(bs, id) {
                Err(GroundingErrorV::CandidatesForBoundInput(id))
            } else {
                match values_check(id, ps[i].sort, cs[k as int].values_view(), 0, st, w) {
                    Err(e) => Err(e),
                    Ok(_) => candidates_check(ps, bs, cs, k + 1, st, w),
                }
            },
        }
    }
}

/// Values `k..` of one candidate set.
pub open spec fn values_check(id: Seq<char>, expected: ValueSortV, vs: Seq<ValueV>, k: nat, st: StateV, w: WorldV) -> Result<
    (),
    GroundingErrorV,
>
    decreases vs.len() - k,
{
    if k >= vs.len() {
        Ok(())
    } else {
        match value_check(id, expected, vs[k as int], st, w) {
            Err(e) => Err(e),
            Ok(_) => values_check(id, expected, vs, k + 1, st, w),
        }
    }
}

/// The ids of the inputs no binding names, in declaration order.
pub open spec fn missing_inputs(ins: Seq<ParameterV>, bs: Seq<(Seq<char>, ValueV)>) -> Seq<Seq<char>> {
    ins.filter(|p: ParameterV| !binds(bs, p.id)).map_values(|p: ParameterV| p.id)
}

/// A stand-in value of `sort` for an unbound input no ground guard reads.
pub open spec fn placeholder_spec(sort: ValueSortV, actor: u64, st: StateV) -> ValueV {
    match sort {
        ValueSortV::Entity => ValueV::Entity(actor),
        ValueSortV::Text => ValueV::Text(Seq::empty()),
        ValueSortV::Symbol(d) => ValueV::Symbol(d, domain_members(st, d)[0]),
    }
}

/// The value of the first binding of input `id`, if any.
pub open spec fn bound_value(bs: Seq<(Seq<char>, ValueV)>, id: Seq<char>) -> Option<ValueV> {
    if binds(bs, id) {
        Some(
            bs[choose|j: int|
                0 <= j < bs.len() && #[trigger] bs[j].0 == id && forall|m: int|
                    0 <= m < j ==> bs[m].0 != id].1,
        )
    } else {
        None
    }
}

/// The input declared at slot `s`.
pub open spec fn input_at(ins: Seq<ParameterV>, s: int) -> ParameterV {
    ins[choose|k: int| 0 <= k < ins.len() && #[trigger] ins[k].slot == s]
}

/// The dense input values: the bound value of each slot's input, or its
/// stand-in.
pub open spec fn slot_values(ins: Seq<ParameterV>, bs: Seq<(Seq<char>, ValueV)>, actor: u64, st: StateV) -> Seq<ValueV> {
    Seq::new(
        ins.len(),
        |s: int|
            match bound_value(bs, input_at(ins, s).id) {
                Some(v) => v,
                None => placeholder_spec(input_at(ins, s).sort, actor, st),
            },
    )
}

/// The terms a condition reads.
pub open spec fn condition_terms_spec(c: ConditionV) -> Seq<TermV> {
    match c {
        ConditionV::RelationTarget { source, target, .. } => seq![source] + optional_terms(target),
        ConditionV::ComponentPresent { entity, .. } => seq![entity],
        ConditionV::LocusOf { entity, locus } => seq![entity] + optional_terms(locus),
        ConditionV::GaugeAtLeast { entity, .. } => seq![entity],
        ConditionV::GaugeAtMost { entity, .. } => seq![entity],
        ConditionV::Exists { entity, .. } => seq![entity],
        ConditionV::Distinct { left, right } => seq![left, right],
    }
}

pub open spec fn optional_terms(o: OptionalEntityV) -> Seq<TermV> {
    match o {
        OptionalEntityV::Is(t) => seq![t],
        OptionalEntityV::IsNot(t) => seq![t],
        OptionalEntityV::IsUnset => Seq::empty(),
    }
}

/// Every input a formula's conditions read is bound.
pub open spec fn formula_ground(f: FormulaV, bs: Seq<(Seq<char>, ValueV)>) -> bool {
    forall|i: int, j: int|
        0 <= i < f.conditions.len() && 0 <= j < condition_terms_spec(f.conditions[i]).len() ==> match #[trigger] condition_terms_spec(f.conditions[i])[j] {
            TermV::Input(id) => binds(bs, id),
            _ => true,
        }
}

/// Guards `k..` of an offer: a guard reading an unbound input is skipped; a
/// ground guard that evaluates false vetoes with its reason.
pub open spec fn offer_guards(gs: Seq<Guard>, k: nat, st: StateV, w: WorldV, ctx: EvalCtx, bs: Seq<(Seq<char>, ValueV)>) -> Result<
    Option<Seq<char>>,
    EvalErrV,
>
    decreases gs.len() - k,
{
    if k >= gs.len() {
        Ok(None)
    } else if !formula_ground(gs[k as int].formula_item()@, bs) {
        offer_guards(gs, k + 1, st, w, ctx, bs)
    } else {
        match locals_spec(gs[k as int].formula_item()@, 0, st, w, ctx, Seq::empty()) {
            Err(e) => Err(e),
            Ok(false) => Ok(Some(gs[k as int].reason_view())),
            Ok(true) => offer_guards(gs, k + 1, st, w, ctx, bs),
        }
    }
}

/// The message of a gate veto.
pub open spec fn gate_veto() -> Seq<char> {
    "You aren't allowed to do that."@
}

/// The evaluation context of an offer's guards: unbound inputs read their
/// stand-in values.
pub open spec fn offer_ctx(s: AffordanceSchema, st: StateV, actor: u64, bs: Seq<(Seq<char>, ValueV)>) -> EvalCtx {
    EvalCtx {
        params: s.params(),
        actor,
        inputs: slot_values(params_with_mode(s.params(), ParameterMode::Input), bs, actor, st),
        results: Seq::empty(),
    }
}

/// Guard `k` of `gs` reads an unbound input, or evaluates true.
pub open spec fn offer_guard_holds(
    gs: Seq<Guard>,
    k: int,
    st: StateV,
    w: WorldV,
    ctx: EvalCtx,
    bs: Seq<(Seq<char>, ValueV)>,
) -> bool {
    formula_ground(gs[k].formula_item()@, bs) ==> locals_spec(gs[k].formula_item()@, 0, st, w, ctx, Seq::empty())
        == Ok::<bool, EvalErrV>(true)
}

/// Every input guard `k` of `gs` reads is bound, and it evaluates false.
pub open spec fn offer_guard_fails(
    gs: Seq<Guard>,
    k: int,
    st: StateV,
    w: WorldV,
    ctx: EvalCtx,
    bs: Seq<(Seq<char>, ValueV)>,
) -> bool {
    formula_ground(gs[k].formula_item()@, bs) && locals_spec(gs[k].formula_item()@, 0, st, w, ctx, Seq::empty())
        == Ok::<bool, EvalErrV>(false)
}

proof fn lemma_offer_guards_from(gs: Seq<Guard>, k: nat, st: StateV, w: WorldV, ctx: EvalCtx, bs: Seq<(Seq<char>, ValueV)>)
    requires
        k <= gs.len(),
    ensures
        offer_guards(gs, k, st, w, ctx, bs) == Ok::<Option<Seq<char>>, EvalErrV>(None) ==> forall|j: int|
            k <= j < gs.len() ==> #[trigger] offer_guard_holds(gs, j, st, w, ctx, bs),
        forall|j: int|
            k <= j < gs.len() && (forall|m: int| k <= m < j ==> #[trigger] offer_guard_holds(gs, m, st, w, ctx, bs))
                && #[trigger] offer_guard_fails(gs, j, st, w, ctx, bs) ==> offer_guards(gs, k, st, w, ctx, bs) == Ok::<
                Option<Seq<char>>,
                EvalErrV,
            >(Some(gs[j].reason_view())),
    decreases gs.len() - k,
{
    if k < gs.len() {
        lemma_offer_guards_from(gs, k + 1, st, w, ctx, bs);
        assert forall|j: int|
            k <= j < gs.len() && (forall|m: int| k <= m < j ==> #[trigger] offer_guard_holds(gs, m, st, w, ctx, bs))
                && #[trigger] offer_guard_fails(gs, j, st, w, ctx, bs) implies offer_guards(gs, k, st, w, ctx, bs) == Ok::<
                Option<Seq<char>>,
                EvalErrV,
            >(Some(gs[j].reason_view())) by {
            if j > k {
                assert(offer_guard_holds(gs, k as int, st, w, ctx, bs));
            }
        }
    }
}

/// The guard decision of an offer whose gate admits the caller: an offer that
/// is not vetoed has every guard that reads only bound inputs evaluate true,
/// and when the ground guards before `k` hold and ground guard `k` evaluates
/// false the offer is vetoed with guard `k`'s reason.
pub proof fn lemma_offer_guards_veto(
    s: AffordanceSchema,
    st: StateV,
    w: WorldV,
    verdict: Verdict,
    actor: u64,
    bs: Seq<(Seq<char>, ValueV)>,
)
    requires
        s.gate_view().admits(&verdict),
    ensures
        (status_spec(s, st, w, verdict, actor, bs) matches Ok(x) && !(x is Vetoed)) ==> forall|k: int|
            0 <= k < s.guard_items().len() ==> #[trigger] offer_guard_holds(
                s.guard_items(),
                k,
                st,
                w,
                offer_ctx(s, st, actor, bs),
                bs,
            ),
        forall|k: int|
            0 <= k < s.guard_items().len() && (forall|m: int|
                0 <= m < k ==> #[trigger] offer_guard_holds(s.guard_items(), m, st, w, offer_ctx(s, st, actor, bs), bs))
                && #[trigger] offer_guard_fails(s.guard_items(), k, st, w, offer_ctx(s, st, actor, bs), bs)
                ==> status_spec(s, st, w, verdict, actor, bs) == Ok::<OfferStatusV, EvalErrV>(
                OfferStatusV::Vetoed(s.guard_items()[k].reason_view()),
            ),
{
    lemma_offer_guards_from(s.guard_items(), 0, st, w, offer_ctx(s, st, actor, bs), bs);
}

/// The classification of a valid proposal.
pub open spec fn status_spec(
    s: AffordanceSchema,
    st: StateV,
    w: WorldV,
    verdict: Verdict,
    actor: u64,
    bs: Seq<(Seq<char>, ValueV)>,
) -> Result<OfferStatusV, EvalErrV> {
    let ins = params_with_mode(s.params(), ParameterMode::Input);
    if !s.gate_view().admits(&verdict) {
        Ok(OfferStatusV::Vetoed(gate_veto()))
    } else {
        match offer_guards(s.guard_items(), 0, st, w, offer_ctx(s, st, actor, bs), bs) {
            Err(e) => Err(e),
            Ok(Some(reason)) => Ok(OfferStatusV::Vetoed(reason)),
            Ok(None) => Ok(
                if missing_inputs(ins, bs).len() == 0 {
                    OfferStatusV::Available
                } else {
                    OfferStatusV::Needs(missing_inputs(ins, bs))
                },
            ),
        }
    }
}

/// Check one supplied value for input `id` declared of sort `expected`.
fn validate_value(
    state: &StateRegistry,
    world: &WorldView,
    id: &ParameterId,
    expected: &ValueSort,
    value: &Value,
) -> (r: Result<(), GroundingError>)
    ensures
        match value_check(id@, expected@, value@, state@, world@) {
            Ok(_) => r is Ok,
            Err(e) => r matches Err(x) && x@ == e,
        },
{
    reveal(value_check);
    let actual = value.sort();
    if !actual.same(expected) {
        return Err(GroundingError::WrongSort { parameter: id.clone(), expected: expected.clone(), actual });
    }
    match value {
        Value::Entity(entity) => {
            if !world.contains(*entity) {
                return Err(GroundingError::DeadEntity { parameter: id.clone(), entity: *entity });
            }
        },
        Value::Symbol(symbol) => {
            if !state.has_symbol(symbol) {
                return Err(GroundingError::UnknownSymbol(id.clone()));
            }
        },
        Value::Text(_) => {},
    }
    Ok(())
}

/// The first binding of `id`, if any.
fn find_binding(bindings: &[ParameterBinding], id: &ParameterId) -> (r: Option<Value>)
    ensures
        match bound_value(bindings_of(bindings@), id@) {
            Some(v) => r matches Some(x) && x@ == v,
            None => r is None,
        },
{
    let ghost bs = bindings_of(bindings@);
    let mut i: usize = 0;
    while i < bindings.len()
        invariant
            i <= bindings@.len(),
            bs == bindings_of(bindings@),
            forall|m: int| 0 <= m < i ==> bs[m].0 != id@,
        decreases bindings.len() - i,
    {
        assert(bs[i as int] == (bindings@[i as int].parameter_view(), bindings@[i as int].value_view()));
        if bindings[i].parameter().same(id) {
            proof {
                assert(bs[i as int].0 == id@);
                let k = choose|j: int|
                    0 <= j < bs.len() && #[trigger] bs[j].0 == id@ && forall|m: int| 0 <= m < j ==> bs[m].0 != id@;
                assert(k == i) by {
                    if k < i {
                    } else if k > i {
                        assert(bs[i as int].0 == id@);
                    }
                }
            }
            return Some(bindings[i].value().clone());
        }
        i = i + 1;
    }
    None
}

fn binding_named(bindings: &[ParameterBinding], id: &ParameterId, upto: usize) -> (r: bool)
    requires
        upto <= bindings@.len(),
    ensures
        r == binds(bindings_of(bindings@).take(upto as int), id@),
{
    let ghost bs = bindings_of(bindings@).take(upto as int);
    let mut i: usize = 0;
    while i < upto
        invariant
            i <= upto,
            upto <= bindings@.len(),
            bs == bindings_of(bindings@).take(upto as int),
            forall|m: int| 0 <= m < i ==> bs[m].0 != id@,
        decreases upto - i,
    {
        assert(bs[i as int] == (bindings@[i as int].parameter_view(), bindings@[i as int].value_view()));
        if bindings[i].parameter().same(id) {
            assert(bs[i as int].0 == id@);
            return true;
        }
        i = i + 1;
    }
    false
}

proof fn lemma_bindings_check_step(ps: Seq<ParameterV>, bs: Seq<(Seq<char>, ValueV)>, k: nat, st: StateV, w: WorldV)
    ensures
        bindings_check(ps, bs, k, st, w) == if k >= bs.len() {
            Ok(())
        } else {
            let id = bs[k as int].0;
            match param_index(ps, id) {
                None => Err(GroundingErrorV::UnknownParameter(id)),
                Some(i) => if ps[i].mode != ParameterMode::Input {
                    Err(GroundingErrorV::NotInput(id))
                } else if binds(bs.take(k as int), id) {
                    Err(GroundingErrorV::DuplicateBinding(id))
                } else {
                    match value_check(id, ps[i].sort, bs[k as int].1, st, w) {
                        Err(e) => Err(e),
                        Ok(_) => bindings_check(ps, bs, k + 1, st, w),
                    }
                },
            }
        },
{
    reveal(bindings_check);
}

/// Check the bindings of a partial grounding against a schema's signature.
fn check_bindings(
    schema: &AffordanceSchema,
    state: &StateRegistry,
    world: &WorldView,
    bindings: &[ParameterBinding],
) -> (r: Result<(), GroundingError>)
    ensures
        match bindings_check(schema.params(), bindings_of(bindings@), 0, state@, world@) {
            Ok(_) => r is Ok,
            Err(e) => r matches Err(x) && x@ == e,
        },
{
    let ghost bs = bindings_of(bindings@);
    let mut k: usize = 0;
    while k < bindings.len()
        invariant
            k <= bindings@.len(),
            bs == bindings_of(bindings@),
            bindings_check(schema.params(), bs, 0, state@, world@) == bindings_check(schema.params(), bs, k as nat, state@, world@),
        decreases bindings.len() - k,
    {
        let binding = &bindings[k];
        let id = binding.parameter();
        assert(bs[k as int] == (binding.parameter_view(), binding.value_view()));
        proof {
            lemma_bindings_check_step(schema.params(), bs, k as nat, state@, world@);
        }
        let parameter = match schema.parameter(id) {
            Some(p) => p,
            None => {
                return Err(GroundingError::UnknownParameter(id.clone()));
            },
        };
        if parameter.mode() != ParameterMode::Input {
            return Err(GroundingError::NotInput(id.clone()));
        }
        if binding_named(bindings, id, k) {
            return Err(GroundingError::DuplicateBinding(id.clone()));
        }
        match validate_value(state, world, id, parameter.sort(), binding.value()) {
            Err(e) => {
                return Err(e);
            },
            Ok(()) => {},
        }
        k = k + 1;
    }
    proof {
        lemma_bindings_check_step(schema.params(), bs, k as nat, state@, world@);
    }
    Ok(())
}

/// A stand-in value of `sort`.
fn placeholder(sort: &ValueSort, actor: EntityId, state: &StateRegistry) -> (r: Value)
    requires
        sort_ok(sort@, state@),
    ensures
        r@ == placeholder_spec(sort@, actor.0, state@),
{
    state.check_wf();
    match sort {
        ValueSort::Entity => Value::Entity(actor),
        ValueSort::Text => {
            let v = Value::text("");
            proof {
                reveal_strlit("");
                assert(""@ =~= Seq::<char>::empty());
            }
            v
        },
        ValueSort::Symbol(domain) => {
            match state.first_symbol(domain) {
                Some(symbol) => {
                    proof {
                        let st = state@;
                        let i = choose|i: int| 0 <= i < st.symbols.len() && st.symbols[i].0 == domain@ && symbol@.1 == st.symbols[i].1[0];
                        let k = choose|k: int| 0 <= k < st.symbols.len() && st.symbols[k].0 == domain@;
                        if i != k {
                            if i < k {
                                assert(st.symbols[i].0 != st.symbols[k].0);
                            } else {
                                assert(st.symbols[k].0 != st.symbols[i].0);
                            }
                        }
                    }
                    Value::Symbol(symbol)
                },
                None => Value::Entity(actor),
            }
        },
    }
}

/// The position among `inputs` of the input at slot `s`.
fn find_slot(inputs: &Vec<&Parameter>, s: usize) -> (r: usize)
    requires
        exists|k: int| 0 <= k < inputs@.len() && #[trigger] inputs@[k]@.slot == s,
    ensures
        r < inputs@.len(),
        inputs@[r as int]@.slot == s,
{
    let mut k: usize = 0;
    while k < inputs.len()
        invariant
            k <= inputs@.len(),
            exists|j: int| 0 <= j < inputs@.len() && #[trigger] inputs@[j]@.slot == s,
            forall|j: int| 0 <= j < k ==> inputs@[j]@.slot != s,
        decreases inputs.len() - k,
    {
        if inputs[k].slot() as usize == s {
            return k;
        }
        k = k + 1;
    }
    proof {
        let j = choose|j: int| 0 <= j < inputs@.len() && #[trigger] inputs@[j]@.slot == s;
        assert(inputs@[j]@.slot != s);
    }
    0
}

proof fn lemma_candidates_check_step(
    ps: Seq<ParameterV>,
    bs: Seq<(Seq<char>, ValueV)>,
    cs: Seq<InputCandidates>,
    k: nat,
    st: StateV,
    w: WorldV,
)
    ensures
        candidates_check(ps, bs, cs, k, st, w) == if k >= cs.len() {
            Ok(())
        } else {
            let id = cs[k as int].parameter_view();
            match param_index(ps, id) {
                None => Err(GroundingErrorV::UnknownParameter(id)),
                Some(i) => if ps[i].mode != ParameterMode::Input {
                    Err(GroundingErrorV::NotInput(id))
                } else if exists|j: int| 0 <= j < k && #[trigger] cs[j].parameter_view() == id {
                    Err(GroundingErrorV::DuplicateCandidates(id))
                } else if binds(bs, id) {
                    Err(GroundingErrorV::CandidatesForBoundInput(id))
                } else {
                    match values_check(id, ps[i].sort, cs[k as int].values_view(), 0, st, w) {
                        Err(e) => Err(e),
                        Ok(_) => candidates_check(ps, bs, cs, k + 1, st, w),
                    }
                },
            }
        },
{
    reveal(candidates_check);
}

fn check_values(
    state: &StateRegistry,
    world: &WorldView,
    id: &ParameterId,
    expected: &ValueSort,
    values: &[Value],
) -> (r: Result<(), GroundingError>)
    ensures
        match values_check(id@, expected@, values@.map_values(|v: Value| v@), 0, state@, world@) {
            Ok(_) => r is Ok,
            Err(e) => r matches Err(x) && x@ == e,
        },
{
    let ghost vs = values@.map_values(|v: Value| v@);
    let mut k: usize = 0;
    while k < values.len()
        invariant
            k <= values@.len(),
            vs == values@.map_values(|v: Value| v@),
            values_check(id@, expected@, vs, 0, state@, world@) == values_check(id@, expected@, vs, k as nat, state@, world@),
        decreases values.len() - k,
    {
        assert(vs[k as int] == values@[k as int]@);
        match validate_value(state, world, id, expected, &values[k]) {
            Err(e) => {
                return Err(e);
            },
            Ok(()) => {},
        }
        k = k + 1;
    }
    Ok(())
}

fn candidates_named(sets: &[InputCandidates], id: &ParameterId, upto: usize) -> (r: bool)
    requires
        upto <= sets@.len(),
    ensures
        r == exists|j: int| 0 <= j < upto && #[trigger] sets@[j].parameter_view() == id@,
{
    let mut i: usize = 0;
    while i < upto
        invariant
            i <= upto,
            upto <= sets@.len(),
            forall|m: int| 0 <= m < i ==> sets@[m].parameter_view() != id@,
        decreases upto - i,
    {
        if sets[i].parameter().same(id) {
            return true;
        }
        i = i + 1;
    }
    false
}

/// Check the app's candidate sets against the schema and the bindings.
fn validate_candidates(
    schema: &AffordanceSchema,
    state: &StateRegistry,
    world: &WorldView,
    bindings: &[ParameterBinding],
    candidates: &[InputCandidates],
) -> (r: Result<(), GroundingError>)
    ensures
        match candidates_check(schema.params(), bindings_of(bindings@), candidates@, 0, state@, world@) {
            Ok(_) => r is Ok,
            Err(e) => r matches Err(x) && x@ == e,
        },
{
    let ghost bs = bindings_of(bindings@);
    let mut k: usize = 0;
    while k < candidates.len()
        invariant
            k <= candidates@.len(),
            bs == bindings_of(bindings@),
            candidates_check(schema.params(), bs, candidates@, 0, state@, world@) == candidates_check(schema.params(), bs, candidates@, k as nat, state@, world@),
        decreases candidates.len() - k,
    {
        proof {
            lemma_candidates_check_step(schema.params(), bs, candidates@, k as nat, state@, world@);
            assert(bs.take(bindings@.len() as int) =~= bs);
        }
        let set = &candidates[k];
        let id = set.parameter();
        let parameter = match schema.parameter(id) {
            Some(p) => p,
            None => {
                return Err(GroundingError::UnknownParameter(id.clone()));
            },
        };
        if parameter.mode() != ParameterMode::Input {
            return Err(GroundingError::NotInput(id.clone()));
        }
        if candidates_named(candidates, id, k) {
            return Err(GroundingError::DuplicateCandidates(id.clone()));
        }
        if binding_named(bindings, id, bindings.len()) {
            return Err(GroundingError::CandidatesForBoundInput(id.clone()));
        }
        match check_values(state, world, id, parameter.sort(), set.values()) {
            Err(e) => {
                return Err(e);
            },
            Ok(()) => {},
        }
        k = k + 1;
    }
    proof {
        lemma_candidates_check_step(schema.params(), bs, candidates@, k as nat, state@, world@);
    }
    Ok(())
}

/// Model of a list of parameter references.
pub open spec fn inputs_view(v: Seq<&Parameter>) -> Seq<ParameterV> {
    v.map_values(|p: &Parameter| p@)
}

/// The ids of the inputs no binding names, in declaration order.
fn missing_of(inputs: &Vec<&Parameter>, bindings: &[ParameterBinding]) -> (r: Vec<ParameterId>)
    ensures
        r@.map_values(|p: ParameterId| p@) == missing_inputs(inputs_view(inputs@), bindings_of(bindings@)),
{
    let ghost ins = inputs_view(inputs@);
    let ghost bs = bindings_of(bindings@);
    let ghost pred = |p: ParameterV| !binds(bs, p.id);
    let ghost f = |p: ParameterV| p.id;
    let mut out: Vec<ParameterId> = Vec::new();
    assert(ins.take(0).filter(pred) =~= Seq::<ParameterV>::empty());
    assert(out@.map_values(|p: ParameterId| p@) =~= ins.take(0).filter(pred).map_values(f));
    let mut k: usize = 0;
    while k < inputs.len()
        invariant
            k <= inputs@.len(),
            ins == inputs_view(inputs@),
            bs == bindings_of(bindings@),
            pred == (|p: ParameterV| !binds(bs, p.id)),
            f == (|p: ParameterV| p.id),
            out@.map_values(|p: ParameterId| p@) == ins.take(k as int).filter(pred).map_values(f),
        decreases inputs.len() - k,
    {
        let ghost prev = out@.map_values(|p: ParameterId| p@);
        assert(ins[k as int] == inputs@[k as int]@);
        proof {
            assert(bs.take(bindings@.len() as int) =~= bs);
        }
        if !binding_named(bindings, inputs[k].id(), bindings.len()) {
            out.push(inputs[k].id().clone());
            assert(out@.map_values(|p: ParameterId| p@) =~= prev.push(f(ins[k as int])));
        }
        proof {
            assert(ins.take(k + 1) =~= ins.take(k as int).push(ins[k as int]));
            ins.take(k as int).lemma_filter_push(ins[k as int], pred);
            let fl = ins.take(k as int).filter(pred);
            if pred(ins[k as int]) {
                assert(fl.push(ins[k as int]).map_values(f) =~= fl.map_values(f).push(f(ins[k as int])));
            }
        }
        k = k + 1;
    }
    assert(ins.take(inputs@.len() as int) =~= ins);
    out
}

/// The dense input values of a grounding: each slot's bound value, or a
/// stand-in of its sort.
fn slots_of(
    schema: &AffordanceSchema,
    state: &StateRegistry,
    inputs: &Vec<&Parameter>,
    bindings: &[ParameterBinding],
    actor: EntityId,
) -> (r: Vec<Value>)
    requires
        schema_valid(schema, state@),
        inputs_view(inputs@) == params_with_mode(schema.params(), ParameterMode::Input),
    ensures
        r@.map_values(|v: Value| v@) == slot_values(
            params_with_mode(schema.params(), ParameterMode::Input),
            bindings_of(bindings@),
            actor.0,
            state@,
        ),
{
    let ghost ps = schema.params();
    let ghost ins = params_with_mode(ps, ParameterMode::Input);
    let ghost bs = bindings_of(bindings@);
    let ghost target = slot_values(ins, bs, actor.0, state@);
    proof {
        crate::validation::lemma_mode_slots_unique(ps, ParameterMode::Input);
    }
    let n = inputs.len();
    let mut out: Vec<Value> = Vec::new();
    let mut s: usize = 0;
    while s < n
        invariant
            s <= n,
            n == ins.len(),
            ps == schema.params(),
            ins == params_with_mode(ps, ParameterMode::Input),
            inputs_view(inputs@) == ins,
            bs == bindings_of(bindings@),
            target == slot_values(ins, bs, actor.0, state@),
            schema_valid(schema, state@),
            crate::validation::mode_slots(ps, ParameterMode::Input).no_duplicates(),
            out@.map_values(|v: Value| v@) == target.take(s as int),
        decreases n - s,
    {
        proof {
            reveal(slots_dense);
            assert(slot_filled(ps, ParameterMode::Input, s as int));
            let i = choose|i: int| 0 <= i < ps.len() && ps[i].mode == ParameterMode::Input && #[trigger] ps[i].slot == s as int;
            let pred = |p: ParameterV| p.mode == ParameterMode::Input;
            ps.lemma_filter_contains(pred, i);
            let k = choose|k: int| 0 <= k < ins.len() && ins[k] == ps[i];
            assert(inputs@[k]@.slot == s);
        }
        let k = find_slot(inputs, s);
        let parameter = inputs[k];
        proof {
            let ms = crate::validation::mode_slots(ps, ParameterMode::Input);
            let c = choose|c: int| 0 <= c < ins.len() && #[trigger] ins[c].slot == s as int;
            assert(ins[k as int] == parameter@);
            if c != k {
                assert(ms[c] == ins[c].slot as int);
                assert(ms[k as int] == ins[k as int].slot as int);
            }
            assert(input_at(ins, s as int) == parameter@);
            assert(sort_ok(ins[k as int].sort, state@)) by {
                let pred = |p: ParameterV| p.mode == ParameterMode::Input;
                #[allow(deprecated)]
                ps.filter_lemma(pred);
                assert(ins.contains(ins[k as int]));
                ps.lemma_filter_contains_rev(pred, ins[k as int]);
                let j = choose|j: int| 0 <= j < ps.len() && ps[j] == ins[k as int];
                assert(sort_ok(ps[j].sort, state@));
            }
        }
        let value = match find_binding(bindings, parameter.id()) {
            Some(v) => v,
            None => placeholder(parameter.sort(), actor, state),
        };
        let ghost prev = out@.map_values(|v: Value| v@);
        out.push(value);
        proof {
            assert(out@.map_values(|v: Value| v@) =~= prev.push(target[s as int]));
            assert(target.take(s + 1) =~= target.take(s as int).push(target[s as int]));
        }
        s = s + 1;
    }
    assert(target.take(n as int) =~= target);
    out
}

/// The terms a condition reads, in order.
pub fn condition_terms(condition: &Condition) -> (r: Vec<&Term>)
    ensures
        r@.map_values(|t: &Term| t@) == condition_terms_spec(condition@),
{
    let mut terms: Vec<&Term> = Vec::new();
    match condition {
        Condition::RelationTarget { source, target, .. } => {
            terms.push(source);
            match target {
                OptionalEntity::Is(t) => terms.push(t),
                OptionalEntity::IsNot(t) => terms.push(t),
                OptionalEntity::IsUnset => {},
            }
        },
        Condition::ComponentPresent { entity, .. } => terms.push(entity),
        Condition::LocusOf { entity, locus } => {
            terms.push(entity);
            match locus {
                OptionalEntity::Is(t) => terms.push(t),
                OptionalEntity::IsNot(t) => terms.push(t),
                OptionalEntity::IsUnset => {},
            }
        },
        Condition::GaugeAtLeast { entity, .. } => terms.push(entity),
        Condition::GaugeAtMost { entity, .. } => terms.push(entity),
        Condition::Exists { entity, .. } => terms.push(entity),
        Condition::Distinct { left, right } => {
            terms.push(left);
            terms.push(right);
        },
    }
    assert(terms@.map_values(|t: &Term| t@) =~= condition_terms_spec(condition@));
    terms
}

/// Whether every input the formula's conditions read is bound.
fn formula_is_ground(formula: &Formula, bindings: &[ParameterBinding]) -> (r: bool)
    ensures
        r == formula_ground(formula@, bindings_of(bindings@)),
{
    let ghost f = formula@;
    let ghost bs = bindings_of(bindings@);
    let conditions = formula.conditions();
    let mut i: usize = 0;
    while i < conditions.len()
        invariant
            i <= conditions@.len(),
            f == formula@,
            bs == bindings_of(bindings@),
            conditions@.map_values(|c: Condition| c@) == f.conditions,
            forall|a: int, b: int|
                0 <= a < i && 0 <= b < condition_terms_spec(f.conditions[a]).len() ==> match #[trigger] condition_terms_spec(f.conditions[a])[b] {
                    TermV::Input(id) => binds(bs, id),
                    _ => true,
                },
        decreases conditions.len() - i,
    {
        let terms = condition_terms(&conditions[i]);
        assert(f.conditions[i as int] == conditions@[i as int]@);
        let mut j: usize = 0;
        while j < terms.len()
            invariant
                j <= terms@.len(),
                i < f.conditions.len(),
                f == formula@,
                bs == bindings_of(bindings@),
                terms@.map_values(|t: &Term| t@) == condition_terms_spec(f.conditions[i as int]),
                forall|b: int| 0 <= b < j ==> match #[trigger] condition_terms_spec(f.conditions[i as int])[b] {
                    TermV::Input(id) => binds(bs, id),
                    _ => true,
                },
            decreases terms.len() - j,
        {
            assert(condition_terms_spec(f.conditions[i as int])[j as int] == terms@[j as int]@);
            match terms[j] {
                Term::Input(id) => {
                    proof {
                        assert(bs.take(bindings@.len() as int) =~= bs);
                    }
                    if !binding_named(bindings, id, bindings.len()) {
                        assert(condition_terms_spec(f.conditions[i as int])[j as int] == TermV::Input(id@));
                        assert(!binds(bs, id@));
                        return false;
                    }
                },
                _ => {},
            }
            j = j + 1;
        }
        i = i + 1;
    }
    true
}

/// The classification once no ground guard vetoed.
fn classify_after_guards(missing: Vec<ParameterId>) -> (r: OfferStatus)
    ensures
        r@ == if missing@.len() == 0 {
            OfferStatusV::Available
        } else {
            OfferStatusV::Needs(missing@.map_values(|p: ParameterId| p@))
        },
{
    if missing.len() == 0 {
        OfferStatus::Available
    } else {
        OfferStatus::Needs { parameters: missing }
    }
}

/// What classifying a proposal yields: a grounding error, or the status.
pub open spec fn classify_spec(
    reg: Seq<AffordanceSchema>,
    st: StateV,
    w: WorldV,
    verdict: Verdict,
    actor: u64,
    proposal: OfferProposal,
) -> Result<OfferStatusV, GroundingErrorV> {
    let g = proposal.grounding_item();
    let bs = bindings_of(g.binding_items());
    if !w.contains(actor) {
        Err(GroundingErrorV::DeadActor(actor))
    } else {
        match schema_at(reg, g.affordance_view()) {
            None => Err(GroundingErrorV::UnknownAffordance(g.affordance_view())),
            Some(i) => match bindings_check(reg[i].params(), bs, 0, st, w) {
                Err(e) => Err(e),
                Ok(_) => match candidates_check(reg[i].params(), bs, proposal.candidate_items(), 0, st, w) {
                    Err(e) => Err(e),
                    Ok(_) => match status_spec(reg[i], st, w, verdict, actor, bs) {
                        Err(e) => Err(GroundingErrorV::Evaluation(e)),
                        Ok(status) => Ok(status),
                    },
                },
            },
        }
    }
}

/// What grounding a complete binding set yields: an error, or the dense
/// input values of the action.
pub open spec fn ground_spec(reg: Seq<AffordanceSchema>, st: StateV, w: WorldV, actor: u64, g: PartialGrounding) -> Result<
    Seq<ValueV>,
    GroundingErrorV,
> {
    let bs = bindings_of(g.binding_items());
    if !w.contains(actor) {
        Err(GroundingErrorV::DeadActor(actor))
    } else {
        match schema_at(reg, g.affordance_view()) {
            None => Err(GroundingErrorV::UnknownAffordance(g.affordance_view())),
            Some(i) => match bindings_check(reg[i].params(), bs, 0, st, w) {
                Err(e) => Err(e),
                Ok(_) => {
                    let ins = params_with_mode(reg[i].params(), ParameterMode::Input);
                    if missing_inputs(ins, bs).len() > 0 {
                        Err(GroundingErrorV::MissingInputs(missing_inputs(ins, bs)))
                    } else {
                        Ok(slot_values(ins, bs, actor, st))
                    }
                },
            },
        }
    }
}

impl AffordanceRegistry {
    /// Validate the bindings of a grounding: the registered schema's
    /// position, the dense slot values (stand-ins for unbound inputs), and
    /// the unbound inputs.
    fn validate_bindings(&self, world: &WorldView, actor: EntityId, grounding: &PartialGrounding) -> (r: Result<
        (usize, Vec<Value>, Vec<ParameterId>),
        GroundingError,
    >)
        ensures
            !world@.contains(actor.0) ==> (r matches Err(x) && x@ == GroundingErrorV::DeadActor(actor.0)),
            world@.contains(actor.0) ==> match schema_at(self.schema_items(), grounding.affordance_view()) {
                None => r matches Err(x) && x@ == GroundingErrorV::UnknownAffordance(grounding.affordance_view()),
                Some(i) => match bindings_check(
                    self.schema_items()[i].params(),
                    bindings_of(grounding.binding_items()),
                    0,
                    self.state_view(),
                    world@,
                ) {
                    Err(e) => r matches Err(x) && x@ == e,
                    Ok(_) => r matches Ok((j, slots, missing)) && j == i
                        && slots@.map_values(|v: Value| v@) == slot_values(
                            params_with_mode(self.schema_items()[i].params(), ParameterMode::Input),
                            bindings_of(grounding.binding_items()),
                            actor.0,
                            self.state_view(),
                        ) && missing@.map_values(|p: ParameterId| p@) == missing_inputs(
                            params_with_mode(self.schema_items()[i].params(), ParameterMode::Input),
                            bindings_of(grounding.binding_items()),
                        ),
                },
            },
    {
        if !world.contains(actor) {
            return Err(GroundingError::DeadActor(actor));
        }
        self.check_wf();
        let schemas = self.schemas();
        let i = match self.position_of(grounding.affordance()) {
            Some(i) => i,
            None => {
                return Err(GroundingError::UnknownAffordance(grounding.affordance().clone()));
            },
        };
        let schema = &schemas[i];
        assert(schema_valid(schema, self.state_view()));
        let bindings = grounding.bindings();
        match check_bindings(schema, self.state(), world, bindings) {
            Err(e) => {
                return Err(e);
            },
            Ok(()) => {},
        }
        let inputs = schema.inputs();
        let missing = missing_of(&inputs, bindings);
        let slots = slots_of(schema, self.state(), &inputs, bindings, actor);
        Ok((i, slots, missing))
    }

    /// Validate and classify a partial grounding chosen by the caller: first
    /// the required capability, then each guard all of whose inputs are
    /// bound, and finally which inputs are still missing.
    pub fn classify_offer(&self, world: &WorldView, verdict: &Verdict, actor: EntityId, proposal: OfferProposal) -> (r: Result<
        ClassifiedOffer,
        GroundingError,
    >)
        ensures
            match classify_spec(self.schema_items(), self.state_view(), world@, *verdict, actor.0, proposal) {
                Ok(status) => r matches Ok(c) && c.status_view() == status && c.proposal_item() == proposal,
                Err(e) => r matches Err(x) && x@ == e,
            },
    {
        let (i, slots, missing) = match self.validate_bindings(world, actor, proposal.grounding()) {
            Ok(v) => v,
            Err(e) => {
                return Err(e);
            },
        };
        self.check_wf();
        let schemas = self.schemas();
        let schema = &schemas[i];
        match validate_candidates(schema, self.state(), world, proposal.grounding().bindings(), proposal.candidates()) {
            Err(e) => {
                return Err(e);
            },
            Ok(()) => {},
        }
        let ghost bs = bindings_of(proposal.grounding_item().binding_items());
        let status = if !schema.gate().permits(verdict) {
            OfferStatus::Vetoed { reason: "You aren't allowed to do that.".to_owned() }
        } else {
            let guards = schema.guards();
            let ghost gs = schema.guard_items();
            let ghost ctx = EvalCtx {
                params: schema.params(),
                actor: actor.0,
                inputs: slots@.map_values(|v: Value| v@),
                results: Seq::empty(),
            };
            let mut veto: Option<String> = None;
            let mut k: usize = 0;
            while k < guards.len()
                invariant_except_break
                    veto is None,
                    offer_guards(gs, 0, self.state_view(), world@, ctx, bs) == offer_guards(gs, k as nat, self.state_view(), world@, ctx, bs),
                invariant
                    k <= guards@.len(),
                    gs == guards@,
                    gs == schema.guard_items(),
                    bs == bindings_of(proposal.grounding_item().binding_items()),
                    ctx == (EvalCtx {
                        params: schema.params(),
                        actor: actor.0,
                        inputs: slots@.map_values(|v: Value| v@),
                        results: Seq::empty(),
                    }),
                    world@.contains(actor.0),
                    schemas@ == self.schema_items(),
                    i < schemas@.len(),
                    *schema == schemas@[i as int],
                    schema_at(self.schema_items(), proposal.grounding_item().affordance_view()) matches Some(j) && j == i,
                    bindings_check(schema.params(), bs, 0, self.state_view(), world@) is Ok,
                    candidates_check(schema.params(), bs, proposal.candidate_items(), 0, self.state_view(), world@) is Ok,
                    schema.gate_view().admits(verdict),
                    slots@.map_values(|v: Value| v@) == slot_values(
                        params_with_mode(schema.params(), ParameterMode::Input),
                        bs,
                        actor.0,
                        self.state_view(),
                    ),
                ensures
                    match offer_guards(gs, 0, self.state_view(), world@, ctx, bs) {
                        Ok(Some(reason)) => veto matches Some(v) && v@ == reason,
                        Ok(None) => veto is None,
                        Err(_) => false,
                    },
                decreases guards.len() - k,
            {
                let formula = guards[k].formula();
                if formula_is_ground(formula, proposal.grounding().bindings()) {
                    let action = GroundAction::new(schema.id().clone(), actor, copy_values(&slots));
                    match self.state().evaluate(formula, schema, &action, None, world) {
                        Err(e) => {
                            return Err(GroundingError::Evaluation(e));
                        },
                        Ok(false) => {
                            veto = Some(guards[k].reason().to_owned());
                            break;
                        },
                        Ok(true) => {},
                    }
                }
                k = k + 1;
            }
            match veto {
                Some(reason) => OfferStatus::Vetoed { reason },
                None => classify_after_guards(missing),
            }
        };
        Ok(ClassifiedOffer { proposal, status })
    }

    /// Turn a complete named binding set into the canonical dense-slot action.
    /// Performer validation still runs afterward, immediately before mutation.
    pub fn ground_action(&self, world: &WorldView, actor: EntityId, grounding: &PartialGrounding) -> (r: Result<
        GroundAction,
        GroundingError,
    >)
        ensures
            match ground_spec(self.schema_items(), self.state_view(), world@, actor.0, *grounding) {
                Ok(inputs) => r matches Ok(a) && a@.actor == actor.0 && a@.inputs == inputs
                    && a@.affordance == grounding.affordance_view(),
                Err(e) => r matches Err(x) && x@ == e,
            },
    {
        let (i, slots, missing) = match self.validate_bindings(world, actor, grounding) {
            Ok(v) => v,
            Err(e) => {
                return Err(e);
            },
        };
        if missing.len() > 0 {
            return Err(GroundingError::MissingInputs(missing));
        }
        let schemas = self.schemas();
        proof {
            let k = schema_at(self.schema_items(), grounding.affordance_view())->0;
            assert(schemas@[i as int].id_view() == grounding.affordance_view());
        }
        Ok(GroundAction::new(schemas[i].id().clone(), actor, slots))
    }
}

fn copy_values(v: &Vec<Value>) -> (r: Vec<Value>)
    ensures
        r@.map_values(|x: Value| x@) == v@.map_values(|x: Value| x@),
{
    let mut out: Vec<Value> = Vec::new();
    let mut i: usize = 0;
    while i < v.len()
        invariant
            i <= v@.len(),
            out@.map_values(|x: Value| x@) == v@.map_values(|x: Value| x@).take(i as int),
        decreases v.len() - i,
    {
        let ghost prev = out@.map_values(|x: Value| x@);
        out.push(v[i].clone());
        assert(out@.map_values(|x: Value| x@) =~= prev.push(v@[i as int]@));
        assert(v@.map_values(|x: Value| x@).take(i + 1) =~= v@.map_values(|x: Value| x@).take(i as int).push(v@[i as int]@));
        i = i + 1;
    }
    assert(v@.map_values(|x: Value| x@).take(v@.len() as int) =~= v@.map_values(|x: Value| x@));
    out
}

} // verus!
