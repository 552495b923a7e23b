//! The operator-facing text of the library's errors.

use vstd::prelude::*;
use crate::id::EntityId;
use crate::authority::{AccountError, AccountId, AuthError};
use crate::control::FocusError;
use crate::store::StoreError;
use crate::indexes::{IndexBuildError, IndexLookupError};
use crate::offers::{GroundingError, GroundingErrorV};
use crate::perform::{PerformError, PerformErrorV, RegistryError};
use crate::relation::{entity_text, relation_error_text, LoadError};
use crate::schema::{NameError, ParameterId, ParameterMode, ValueSort, ValueSortV};
use crate::session::{decimal, push_decimal};
use crate::state::{EvalErrV, EvaluationError, StateActivationError, StateRegistrationError};
use crate::validation::SchemaError;

verus! {

/// What std's `Debug` writes for a string: the string quoted, with quotes,
/// backslashes and unprintable characters escaped.
pub uninterp spec fn debug_str(s: Seq<char>) -> Seq<char>;

/// std's `Debug` rendering of `s`.
#[verifier::external_body]
pub(crate) fn str_debug(s: &str) -> (r: String)
    ensures
        r@ == debug_str(s@),
{
    format!("{:?}", s)
}

/// How a parameter mode reads.
pub open spec fn mode_text(m: ParameterMode) -> Seq<char> {
    match m {
        ParameterMode::Input => "Input"@,
        ParameterMode::Result => "Result"@,
    }
}

/// How a value sort reads.
pub open spec fn sort_text(s: ValueSortV) -> Seq<char> {
    match s {
        ValueSortV::Entity => "Entity"@,
        ValueSortV::Text => "Text"@,
        ValueSortV::Symbol(d) => "Symbol(SymbolDomainId("@ + debug_str(d) + "))"@,
    }
}

/// The message of an evaluation error.
pub open spec fn evaluation_text(e: EvalErrV) -> Seq<char> {
    match e {
        EvalErrV::UnknownRelation(id) => "unknown relation id "@ + id,
        EvalErrV::UnknownComponent(id) => "unknown component id "@ + id,
        EvalErrV::UnknownGauge(id) => "unknown gauge id "@ + id,
        EvalErrV::UnknownGaugeRegion(gauge, region) => "unknown region "@ + region + " for gauge "@ + gauge,
        EvalErrV::UnknownSymbolDomain(id) => "unknown symbol domain "@ + id,
        EvalErrV::UnknownParameter(id) => "unknown parameter id "@ + id,
        EvalErrV::WrongParameterMode(p, expected, actual) => "parameter "@ + p + " has mode "@ + mode_text(actual)
            + ", expected "@ + mode_text(expected),
        EvalErrV::MissingParameterValue(p, mode, slot) => "missing "@ + mode_text(mode) + " value for parameter "@ + p
            + " at slot "@ + decimal(slot as nat),
        EvalErrV::WrongValueSort(p, expected, actual) => "parameter "@ + p + " has value sort "@ + sort_text(actual)
            + ", expected "@ + sort_text(expected),
        EvalErrV::UndeclaredLocal(id) => "undeclared local "@ + id,
        EvalErrV::NonEnumerableLocal(id) => "local "@ + id + " has a non-enumerable Text domain"@,
        EvalErrV::ExpectedEntity(actual) => "state position requires Entity, got "@ + sort_text(actual),
        EvalErrV::GaugeLevelOutsideRegions(gauge, level) => "gauge "@ + gauge + " returned level "@ + decimal(
            level as nat,
        ) + " outside its registered regions"@,
    }
}

/// The message of a perform error.
pub open spec fn perform_text(e: PerformErrorV) -> Seq<char> {
    match e {
        PerformErrorV::UnknownAffordance(id) => "unknown affordance "@ + id,
        PerformErrorV::ActorMismatch(caller, action) => "caller actor "@ + entity_text(EntityId(caller))
            + " cannot perform as "@ + entity_text(EntityId(action)),
        PerformErrorV::DeadActor(actor) => "action actor "@ + entity_text(EntityId(actor)) + " is not live"@,
        PerformErrorV::InputCount(expected, actual) => "grounding has "@ + decimal(actual as nat) + " inputs, expected "@
            + decimal(expected as nat),
        PerformErrorV::WrongInputSort(slot, expected, actual) => "input slot "@ + decimal(slot as nat) + " has sort "@
            + sort_text(actual) + ", expected "@ + sort_text(expected),
        PerformErrorV::DeadInput(slot, entity) => "entity input at slot "@ + decimal(slot as nat)
            + " names dead entity "@ + entity_text(EntityId(entity)),
        PerformErrorV::UnknownSymbol(slot) => "symbol input at slot "@ + decimal(slot as nat)
            + " is not in its registered domain"@,
        PerformErrorV::Evaluation(e) => evaluation_text(e),
        PerformErrorV::ResultCount(expected, actual) => "handler returned "@ + decimal(actual as nat)
            + " results, expected "@ + decimal(expected as nat),
        PerformErrorV::WrongResultSort(slot, expected, actual) => "result slot "@ + decimal(slot as nat)
            + " has sort "@ + sort_text(actual) + ", expected "@ + sort_text(expected),
        PerformErrorV::UnknownResultSymbol(slot) => "symbol result at slot "@ + decimal(slot as nat)
            + " is not in its registered domain"@,
        PerformErrorV::DeterministicRefusal(affordance, reason) => "deterministic affordance "@ + affordance
            + " refused after its guards passed: "@ + reason,
    }
}

/// Parameter ids joined with a comma and a space.
pub open spec fn joined(ids: Seq<Seq<char>>) -> Seq<char>
    decreases ids.len(),
{
    if ids.len() == 0 {
        Seq::empty()
    } else if ids.len() == 1 {
        ids[0]
    } else {
        joined(ids.drop_last()) + ", "@ + ids.last()
    }
}

/// The message of a grounding error.
pub open spec fn grounding_text(e: GroundingErrorV) -> Seq<char> {
    match e {
        GroundingErrorV::UnknownAffordance(id) => "unknown affordance "@ + id,
        GroundingErrorV::DeadActor(actor) => "offer actor "@ + entity_text(EntityId(actor)) + " is not live"@,
        GroundingErrorV::UnknownParameter(id) => "unknown parameter "@ + id,
        GroundingErrorV::NotInput(id) => "parameter "@ + id + " is not an input"@,
        GroundingErrorV::DuplicateBinding(id) => "input "@ + id + " is bound more than once"@,
        GroundingErrorV::WrongSort(p, expected, actual) => "input "@ + p + " has sort "@ + sort_text(actual)
            + ", expected "@ + sort_text(expected),
        GroundingErrorV::DeadEntity(p, entity) => "input "@ + p + " names dead entity "@ + entity_text(
            EntityId(entity),
        ),
        GroundingErrorV::UnknownSymbol(id) => "input "@ + id + " names an unknown symbol"@,
        GroundingErrorV::MissingInputs(ids) => "grounding is missing inputs "@ + joined(ids),
        GroundingErrorV::DuplicateCandidates(id) => "input "@ + id + " has more than one candidate set"@,
        GroundingErrorV::CandidatesForBoundInput(id) => "bound input "@ + id + " also supplies candidates"@,
        GroundingErrorV::Evaluation(e) => evaluation_text(e),
    }
}

fn push_mode(s: &mut String, m: ParameterMode)
    ensures
        final(s)@ == old(s)@ + mode_text(m),
{
    match m {
        ParameterMode::Input => s.append("Input"),
        ParameterMode::Result => s.append("Result"),
    }
}

pub(crate) fn push_sort(s: &mut String, v: &ValueSort)
    ensures
        final(s)@ == old(s)@ + sort_text(v@),
{
    match v {
        ValueSort::Entity => s.append("Entity"),
        ValueSort::Text => s.append("Text"),
        ValueSort::Symbol(d) => {
            s.append("Symbol(SymbolDomainId(");
            let q = str_debug(d.as_str());
            s.append(q.as_str());
            s.append("))");
            proof {
                assert(final(s)@ =~= old(s)@ + sort_text(v@));
            }
        },
    }
}

fn push_entity(s: &mut String, e: EntityId)
    ensures
        final(s)@ == old(s)@ + entity_text(e),
{
    s.append("EntityId(");
    push_decimal(s, e.0);
    s.append(")");
    proof {
        assert(final(s)@ =~= old(s)@ + entity_text(e));
    }
}

impl EvaluationError {
    /// The error's message.
    pub fn to_text(&self) -> (r: String)
        ensures
            r@ == evaluation_text(self@),
    {
        let mut s = String::new();
        match self {
            EvaluationError::UnknownRelation(id) => {
                s.append("unknown relation id ");
                s.append(id.as_str());
            },
            EvaluationError::UnknownComponent(id) => {
                s.append("unknown component id ");
                s.append(id.as_str());
            },
            EvaluationError::UnknownGauge(id) => {
                s.append("unknown gauge id ");
                s.append(id.as_str());
            },
            EvaluationError::UnknownGaugeRegion { gauge, region } => {
                s.append("unknown region ");
                s.append(region.as_str());
                s.append(" for gauge ");
                s.append(gauge.as_str());
            },
            EvaluationError::UnknownSymbolDomain(id) => {
                s.append("unknown symbol domain ");
                s.append(id.as_str());
            },
            EvaluationError::UnknownParameter(id) => {
                s.append("unknown parameter id ");
                s.append(id.as_str());
            },
            EvaluationError::WrongParameterMode { parameter, expected, actual } => {
                s.append("parameter ");
                s.append(parameter.as_str());
                s.append(" has mode ");
                push_mode(&mut s, *actual);
                s.append(", expected ");
                push_mode(&mut s, *expected);
            },
            EvaluationError::MissingParameterValue { parameter, mode, slot } => {
                s.append("missing ");
                push_mode(&mut s, *mode);
                s.append(" value for parameter ");
                s.append(parameter.as_str());
                s.append(" at slot ");
                push_decimal(&mut s, *slot as u64);
            },
            EvaluationError::WrongValueSort { parameter, expected, actual } => {
                s.append("parameter ");
                s.append(parameter.as_str());
                s.append(" has value sort ");
                push_sort(&mut s, actual);
                s.append(", expected ");
                push_sort(&mut s, expected);
            },
            EvaluationError::UndeclaredLocal(id) => {
                s.append("undeclared local ");
                s.append(id.as_str());
            },
            EvaluationError::NonEnumerableLocal(id) => {
                s.append("local ");
                s.append(id.as_str());
                s.append(" has a non-enumerable Text domain");
            },
            EvaluationError::ExpectedEntity(actual) => {
                s.append("state position requires Entity, got ");
                push_sort(&mut s, actual);
            },
            EvaluationError::GaugeLevelOutsideRegions { gauge, level } => {
                s.append("gauge ");
                s.append(gauge.as_str());
                s.append(" returned level ");
                push_decimal(&mut s, level.get() as u64);
                s.append(" outside its registered regions");
            },
        }
        proof {
            assert(s@ =~= evaluation_text(self@));
        }
        s
    }
}

impl PerformError {
    /// The error's message.
    pub fn to_text(&self) -> (r: String)
        ensures
            r@ == perform_text(self@),
    {
        let mut s = String::new();
        match self {
            PerformError::UnknownAffordance(id) => {
                s.append("unknown affordance ");
                s.append(id.as_str());
            },
            PerformError::ActorMismatch { caller, action } => {
                s.append("caller actor ");
                push_entity(&mut s, *caller);
                s.append(" cannot perform as ");
                push_entity(&mut s, *action);
            },
            PerformError::DeadActor(actor) => {
                s.append("action actor ");
                push_entity(&mut s, *actor);
                s.append(" is not live");
            },
            PerformError::InputCount { expected, actual } => {
                s.append("grounding has ");
                push_decimal(&mut s, *actual as u64);
                s.append(" inputs, expected ");
                push_decimal(&mut s, *expected as u64);
            },
            PerformError::WrongInputSort { slot, expected, actual } => {
                s.append("input slot ");
                push_decimal(&mut s, *slot as u64);
                s.append(" has sort ");
                push_sort(&mut s, actual);
                s.append(", expected ");
                push_sort(&mut s, expected);
            },
            PerformError::DeadInput { slot, entity } => {
                s.append("entity input at slot ");
                push_decimal(&mut s, *slot as u64);
                s.append(" names dead entity ");
                push_entity(&mut s, *entity);
            },
            PerformError::UnknownSymbol { slot } => {
                s.append("symbol input at slot ");
                push_decimal(&mut s, *slot as u64);
                s.append(" is not in its registered domain");
            },
            PerformError::Evaluation(e) => {
                s = e.to_text();
            },
            PerformError::ResultCount { expected, actual } => {
                s.append("handler returned ");
                push_decimal(&mut s, *actual as u64);
                s.append(" results, expected ");
                push_decimal(&mut s, *expected as u64);
            },
            PerformError::WrongResultSort { slot, expected, actual } => {
                s.append("result slot ");
                push_decimal(&mut s, *slot as u64);
                s.append(" has sort ");
                push_sort(&mut s, actual);
                s.append(", expected ");
                push_sort(&mut s, expected);
            },
            PerformError::UnknownResultSymbol { slot } => {
                s.append("symbol result at slot ");
                push_decimal(&mut s, *slot as u64);
                s.append(" is not in its registered domain");
            },
            PerformError::DeterministicRefusal { affordance, reason } => {
                s.append("deterministic affordance ");
                s.append(affordance.as_str());
                s.append(" refused after its guards passed: ");
                s.append(reason.as_str());
            },
        }
        proof {
            assert(s@ =~= perform_text(self@));
        }
        s
    }
}

fn push_joined(s: &mut String, ids: &Vec<ParameterId>)
    ensures
        final(s)@ == old(s)@ + joined(ids@.map_values(|p: ParameterId| p@)),
{
    let ghost all = ids@.map_values(|p: ParameterId| p@);
    let mut i: usize = 0;
    while i < ids.len()
        invariant
            all == ids@.map_values(|p: ParameterId| p@),
            i <= ids@.len(),
            s@ == old(s)@ + joined(all.take(i as int)),
        decreases ids.len() - i,
    {
        if i > 0 {
            s.append(", ");
        }
        s.append(ids[i].as_str());
        proof {
            let t = all.take(i + 1);
            assert(t.drop_last() =~= all.take(i as int));
            assert(t.last() == ids@[i as int]@);
            if i == 0 {
                assert(joined(all.take(0)) =~= Seq::<char>::empty());
            }
        }
        i = i + 1;
    }
    proof {
        assert(all.take(ids@.len() as int) =~= all);
    }
}

impl GroundingError {
    /// The error's message.
    pub fn to_text(&self) -> (r: String)
        ensures
            r@ == grounding_text(self@),
    {
        let mut s = String::new();
        match self {
            GroundingError::UnknownAffordance(id) => {
                s.append("unknown affordance ");
                s.append(id.as_str());
            },
            GroundingError::DeadActor(actor) => {
                s.append("offer actor ");
                push_entity(&mut s, *actor);
                s.append(" is not live");
            },
            GroundingError::UnknownParameter(id) => {
                s.append("unknown parameter ");
                s.append(id.as_str());
            },
            GroundingError::NotInput(id) => {
                s.append("parameter ");
                s.append(id.as_str());
                s.append(" is not an input");
            },
            GroundingError::DuplicateBinding(id) => {
                s.append("input ");
                s.append(id.as_str());
                s.append(" is bound more than once");
            },
            GroundingError::WrongSort { parameter, expected, actual } => {
                s.append("input ");
                s.append(parameter.as_str());
                s.append(" has sort ");
                push_sort(&mut s, actual);
                s.append(", expected ");
                push_sort(&mut s, expected);
            },
            GroundingError::DeadEntity { parameter, entity } => {
                s.append("input ");
                s.append(parameter.as_str());
                s.append(" names dead entity ");
                push_entity(&mut s, *entity);
            },
            GroundingError::UnknownSymbol(id) => {
                s.append("input ");
                s.append(id.as_str());
                s.append(" names an unknown symbol");
            },
            GroundingError::MissingInputs(ids) => {
                s.append("grounding is missing inputs ");
                push_joined(&mut s, ids);
            },
            GroundingError::DuplicateCandidates(id) => {
                s.append("input ");
                s.append(id.as_str());
                s.append(" has more than one candidate set");
            },
            GroundingError::CandidatesForBoundInput(id) => {
                s.append("bound input ");
                s.append(id.as_str());
                s.append(" also supplies candidates");
            },
            GroundingError::Evaluation(e) => {
                s = e.to_text();
            },
        }
        proof {
            assert(s@ =~= grounding_text(self@));
        }
        s
    }
}

/// How a list of entity ids reads.
pub open spec fn entities_text(v: Seq<EntityId>) -> Seq<char> {
    "["@ + entities_joined(v) + "]"@
}

/// Entity ids joined with a comma and a space.
pub open spec fn entities_joined(v: Seq<EntityId>) -> Seq<char>
    decreases v.len(),
{
    if v.len() == 0 {
        Seq::empty()
    } else if v.len() == 1 {
        entity_text(v[0])
    } else {
        entities_joined(v.drop_last()) + ", "@ + entity_text(v.last())
    }
}

/// The message of a name error.
pub open spec fn name_error_text(e: NameError) -> Seq<char> {
    "invalid "@ + e.kind_view() + " "@ + debug_str(e.value_view()) + ": "@ + e.rule_view()
}

/// The message of a schema error.
pub open spec fn schema_error_text(e: SchemaError) -> Seq<char> {
    "invalid affordance "@ + e.affordance_view() + ": "@ + e.issue_view()
}

/// The message of a state activation error.
pub open spec fn activation_text(e: StateActivationError) -> Seq<char> {
    "affordance state vocabulary requires unregistered world types: "@ + joined(e.missing_view())
}

fn push_all(s: &mut String, items: &[String])
    ensures
        final(s)@ == old(s)@ + joined(items@.map_values(|m: String| m@)),
{
    let ghost all = items@.map_values(|m: String| m@);
    let mut i: usize = 0;
    while i < items.len()
        invariant
            all == items@.map_values(|m: String| m@),
            i <= items@.len(),
            s@ == old(s)@ + joined(all.take(i as int)),
        decreases items.len() - i,
    {
        if i > 0 {
            s.append(", ");
        }
        s.append(items[i].as_str());
        proof {
            let t = all.take(i + 1);
            assert(t.drop_last() =~= all.take(i as int));
            assert(t.last() == items@[i as int]@);
            if i == 0 {
                assert(joined(all.take(0)) =~= Seq::<char>::empty());
            }
        }
        i = i + 1;
    }
    proof {
        assert(all.take(items@.len() as int) =~= all);
    }
}

fn push_entities(s: &mut String, v: &Vec<EntityId>)
    ensures
        final(s)@ == old(s)@ + entities_text(v@),
{
    s.append("[");
    let ghost start = s@;
    let mut i: usize = 0;
    while i < v.len()
        invariant
            i <= v@.len(),
            s@ == start + entities_joined(v@.take(i as int)),
        decreases v.len() - i,
    {
        if i > 0 {
            s.append(", ");
        }
        push_entity(s, v[i]);
        proof {
            let t = v@.take(i + 1);
            assert(t.drop_last() =~= v@.take(i as int));
            assert(t.last() == v@[i as int]);
            if i == 0 {
                assert(entities_joined(v@.take(0)) =~= Seq::<char>::empty());
            }
        }
        i = i + 1;
    }
    proof {
        assert(v@.take(v@.len() as int) =~= v@);
    }
    s.append("]");
    proof {
        assert(final(s)@ =~= old(s)@ + entities_text(v@));
    }
}

impl NameError {
    /// The error's message.
    pub fn to_text(&self) -> (r: String)
        ensures
            r@ == name_error_text(*self),
    {
        let mut s = String::new();
        s.append("invalid ");
        s.append(self.kind());
        s.append(" ");
        let q = str_debug(self.value());
        s.append(q.as_str());
        s.append(": ");
        s.append(self.rule());
        proof {
            assert(s@ =~= name_error_text(*self));
        }
        s
    }
}

impl SchemaError {
    /// The error's message.
    pub fn to_text(&self) -> (r: String)
        ensures
            r@ == schema_error_text(*self),
    {
        let mut s = String::new();
        s.append("invalid affordance ");
        s.append(self.affordance().as_str());
        s.append(": ");
        s.append(self.issue());
        proof {
            assert(s@ =~= schema_error_text(*self));
        }
        s
    }
}

impl StateActivationError {
    /// The error's message.
    pub fn to_text(&self) -> (r: String)
        ensures
            r@ == activation_text(*self),
    {
        let mut s = String::new();
        s.append("affordance state vocabulary requires unregistered world types: ");
        push_all(&mut s, self.missing());
        proof {
            assert(s@ =~= activation_text(*self));
        }
        s
    }
}

/// The message of a registry error.
pub open spec fn registry_error_text(e: RegistryError) -> Seq<char> {
    match e {
        RegistryError::DuplicateAffordance(id) => "affordance "@ + id@ + " is already registered"@,
        RegistryError::InvalidSchema(error) => schema_error_text(error),
        RegistryError::StateActivation(error) => activation_text(error),
    }
}

impl RegistryError {
    /// The error's message.
    pub fn to_text(&self) -> (r: String)
        ensures
            r@ == registry_error_text(*self),
    {
        match self {
            RegistryError::DuplicateAffordance(id) => {
                let mut s = String::new();
                s.append("affordance ");
                s.append(id.as_str());
                s.append(" is already registered");
                proof {
                    assert(s@ =~= registry_error_text(*self));
                }
                s
            },
            RegistryError::InvalidSchema(error) => error.to_text(),
            RegistryError::StateActivation(error) => error.to_text(),
        }
    }
}

/// The message of a state registration error.
pub open spec fn registration_text(e: StateRegistrationError) -> Seq<char> {
    match e {
        StateRegistrationError::Name(error) => name_error_text(error),
        StateRegistrationError::IdCollision { kind, id, existing, attempted } => kind@ + " id "@ + debug_str(id@)
            + " is already bound to "@ + existing@ + ", not "@ + attempted@,
        StateRegistrationError::DuplicateGauge(id) => "gauge id "@ + debug_str(id@) + " is already registered"@,
        StateRegistrationError::InvalidGauge { gauge, reason } => "invalid gauge "@ + debug_str(gauge@) + ": "@
            + reason@,
        StateRegistrationError::DuplicateSymbolDomain(id) => "symbol domain "@ + debug_str(id@)
            + " is already registered"@,
        StateRegistrationError::InvalidSymbolDomain { domain, reason } => "invalid symbol domain "@ + debug_str(
            domain@,
        ) + ": "@ + reason@,
    }
}

impl StateRegistrationError {
    /// The error's message.
    pub fn to_text(&self) -> (r: String)
        ensures
            r@ == registration_text(*self),
    {
        let mut s = String::new();
        match self {
            StateRegistrationError::Name(error) => {
                s = error.to_text();
            },
            StateRegistrationError::IdCollision { kind, id, existing, attempted } => {
                s.append(kind.as_str());
                s.append(" id ");
                let q = str_debug(id.as_str());
                s.append(q.as_str());
                s.append(" is already bound to ");
                s.append(existing.as_str());
                s.append(", not ");
                s.append(attempted.as_str());
            },
            StateRegistrationError::DuplicateGauge(id) => {
                s.append("gauge id ");
                let q = str_debug(id.as_str());
                s.append(q.as_str());
                s.append(" is already registered");
            },
            StateRegistrationError::InvalidGauge { gauge, reason } => {
                s.append("invalid gauge ");
                let q = str_debug(gauge.as_str());
                s.append(q.as_str());
                s.append(": ");
                s.append(reason.as_str());
            },
            StateRegistrationError::DuplicateSymbolDomain(id) => {
                s.append("symbol domain ");
                let q = str_debug(id.as_str());
                s.append(q.as_str());
                s.append(" is already registered");
            },
            StateRegistrationError::InvalidSymbolDomain { domain, reason } => {
                s.append("invalid symbol domain ");
                let q = str_debug(domain.as_str());
                s.append(q.as_str());
                s.append(": ");
                s.append(reason.as_str());
            },
        }
        proof {
            assert(s@ =~= registration_text(*self));
        }
        s
    }
}

/// The message of a relation load error.
pub open spec fn load_error_text(e: LoadError) -> Seq<char> {
    match e {
        LoadError::WorldNotFresh => "World::load requires a fresh world with no prior entity-derived state"@,
        LoadError::DuplicateEntity(id) => "snapshot contains duplicate entity id "@ + entity_text(id),
        LoadError::NonObjectBlob { blob_id } => "blob "@ + entity_text(blob_id) + " component data is not an object"@,
        LoadError::IdMismatch { blob_id, component_id } => "blob id "@ + entity_text(blob_id)
            + " disagrees with Id component "@ + match component_id {
            Some(c) => "Some("@ + entity_text(c) + ")"@,
            None => "None"@,
        },
        LoadError::IdSpaceExhausted { highest_id } => "loaded entity id "@ + entity_text(highest_id)
            + " leaves no successor for identity allocation"@,
        LoadError::DanglingRelation { kind, source, target } => "relation "@ + kind@ + " from "@ + entity_text(source)
            + " points to missing target "@ + entity_text(target),
        LoadError::RelationCycle { kind, cycle } => "relation "@ + kind@ + " contains cycle "@ + entities_text(cycle@),
    }
}

impl LoadError {
    /// The error's message.
    pub fn to_text(&self) -> (r: String)
        ensures
            r@ == load_error_text(*self),
    {
        let mut s = String::new();
        match self {
            LoadError::WorldNotFresh => {
                s.append("World::load requires a fresh world with no prior entity-derived state");
            },
            LoadError::DuplicateEntity(id) => {
                s.append("snapshot contains duplicate entity id ");
                push_entity(&mut s, *id);
            },
            LoadError::NonObjectBlob { blob_id } => {
                s.append("blob ");
                push_entity(&mut s, *blob_id);
                s.append(" component data is not an object");
            },
            LoadError::IdMismatch { blob_id, component_id } => {
                s.append("blob id ");
                push_entity(&mut s, *blob_id);
                s.append(" disagrees with Id component ");
                match component_id {
                    Some(c) => {
                        s.append("Some(");
                        push_entity(&mut s, *c);
                        s.append(")");
                    },
                    None => s.append("None"),
                }
            },
            LoadError::IdSpaceExhausted { highest_id } => {
                s.append("loaded entity id ");
                push_entity(&mut s, *highest_id);
                s.append(" leaves no successor for identity allocation");
            },
            LoadError::DanglingRelation { kind, source, target } => {
                s.append("relation ");
                s.append(kind.as_str());
                s.append(" from ");
                push_entity(&mut s, *source);
                s.append(" points to missing target ");
                push_entity(&mut s, *target);
            },
            LoadError::RelationCycle { kind, cycle } => {
                s.append("relation ");
                s.append(kind.as_str());
                s.append(" contains cycle ");
                push_entities(&mut s, cycle);
            },
        }
        proof {
            assert(s@ =~= load_error_text(*self));
        }
        s
    }
}

/// The message of a focus error.
pub open spec fn focus_error_text(e: FocusError) -> Seq<char> {
    match e {
        FocusError::NotControlled => "target is not in the controller's control chain"@,
        FocusError::Relation(error) => relation_error_text(error),
    }
}

impl FocusError {
    /// The error's message.
    pub fn to_text(&self) -> (r: String)
        ensures
            r@ == focus_error_text(*self),
    {
        match self {
            FocusError::NotControlled => "target is not in the controller's control chain".to_owned(),
            FocusError::Relation(error) => error.to_text(),
        }
    }
}

/// How an account id reads in a message.
pub open spec fn account_text(id: AccountId) -> Seq<char> {
    "AccountId("@ + decimal(id.0 as nat) + ")"@
}

fn push_account(s: &mut String, id: &AccountId)
    ensures
        final(s)@ == old(s)@ + account_text(*id),
{
    s.append("AccountId(");
    push_decimal(s, id.0);
    s.append(")");
    proof {
        assert(final(s)@ =~= old(s)@ + account_text(*id));
    }
}

/// The message of an authority boot error.
pub open spec fn auth_error_text(e: AuthError) -> Seq<char> {
    match e {
        AuthError::UnknownGrant { account, name } => "account "@ + account_text(account)
            + " grants unknown capability "@ + debug_str(name@),
        AuthError::NoSuperuser => "account store has accounts but no superuser"@,
    }
}

impl AuthError {
    /// The error's message.
    pub fn to_text(&self) -> (r: String)
        ensures
            r@ == auth_error_text(*self),
    {
        match self {
            AuthError::UnknownGrant { account, name } => {
                let mut s = String::new();
                s.append("account ");
                push_account(&mut s, account);
                s.append(" grants unknown capability ");
                let q = str_debug(name.as_str());
                s.append(q.as_str());
                proof {
                    assert(s@ =~= auth_error_text(*self));
                }
                s
            },
            AuthError::NoSuperuser => "account store has accounts but no superuser".to_owned(),
        }
    }
}

/// The message of an account mutation error.
pub open spec fn account_error_text(e: AccountError) -> Seq<char> {
    match e {
        AccountError::NoSuchAccount(id) => "no such account "@ + account_text(id),
        AccountError::UnknownCap(name) => "no such capability "@ + debug_str(name@),
    }
}

impl AccountError {
    /// The error's message.
    pub fn to_text(&self) -> (r: String)
        ensures
            r@ == account_error_text(*self),
    {
        let mut s = String::new();
        match self {
            AccountError::NoSuchAccount(id) => {
                s.append("no such account ");
                push_account(&mut s, id);
            },
            AccountError::UnknownCap(name) => {
                s.append("no such capability ");
                let q = str_debug(name.as_str());
                s.append(q.as_str());
            },
        }
        proof {
            assert(s@ =~= account_error_text(*self));
        }
        s
    }
}

/// The message of an account store error.
pub open spec fn store_error_text(e: StoreError) -> Seq<char> {
    match e {
        StoreError::SchemaVersion { stored, current } => "account store schema version "@ + decimal(stored as nat)
            + " is unknown to this build (current "@ + decimal(current as nat) + ")"@,
    }
}

impl StoreError {
    /// The error's message.
    pub fn to_text(&self) -> (r: String)
        ensures
            r@ == store_error_text(*self),
    {
        let mut s = String::new();
        match self {
            StoreError::SchemaVersion { stored, current } => {
                s.append("account store schema version ");
                push_decimal(&mut s, *stored as u64);
                s.append(" is unknown to this build (current ");
                push_decimal(&mut s, *current as u64);
                s.append(")");
            },
        }
        proof {
            assert(s@ =~= store_error_text(*self));
        }
        s
    }
}

/// The message of an index lookup error.
pub open spec fn lookup_error_text(e: IndexLookupError) -> Seq<char> {
    match e {
        IndexLookupError::UnknownName { name } => "unknown index "@ + debug_str(name@),
        IndexLookupError::WrongKeyType { name, requested_type, registered_type } => "index "@ + debug_str(name@)
            + " uses key type "@ + registered_type@ + ", not requested type "@ + requested_type@,
    }
}

impl IndexLookupError {
    /// The error's message.
    pub fn to_text(&self) -> (r: String)
        ensures
            r@ == lookup_error_text(*self),
    {
        let mut s = String::new();
        match self {
            IndexLookupError::UnknownName { name } => {
                s.append("unknown index ");
                let q = str_debug(name.as_str());
                s.append(q.as_str());
            },
            IndexLookupError::WrongKeyType { name, requested_type, registered_type } => {
                s.append("index ");
                let q = str_debug(name.as_str());
                s.append(q.as_str());
                s.append(" uses key type ");
                s.append(registered_type.as_str());
                s.append(", not requested type ");
                s.append(requested_type.as_str());
            },
        }
        proof {
            assert(s@ =~= lookup_error_text(*self));
        }
        s
    }
}

/// The message of an index build error.
pub open spec fn build_error_text(e: IndexBuildError) -> Seq<char> {
    match e {
        IndexBuildError::UnregisteredSource { tag } => "index source component "@ + debug_str(tag@)
            + " is not registered in the world"@,
    }
}

impl IndexBuildError {
    /// The error's message.
    pub fn to_text(&self) -> (r: String)
        ensures
            r@ == build_error_text(*self),
    {
        let mut s = String::new();
        match self {
            IndexBuildError::UnregisteredSource { tag } => {
                s.append("index source component ");
                let q = str_debug(tag.as_str());
                s.append(q.as_str());
                s.append(" is not registered in the world");
            },
        }
        proof {
            assert(s@ =~= build_error_text(*self));
        }
        s
    }
}

} // verus!
