//! Registration-time checks of a canonical affordance schema against the
//! registered state vocabulary: parameter signatures, guard formulas, and the
//! consistency of the promised effects.

use vstd::prelude::*;
use crate::gauge::GaugeDirection;
use crate::schema::{
    AffordanceId, AffordanceSchema, Condition, ConditionV, Effect, EffectV, Formula, FormulaV, Guard, Local,
    OptionalEntity, OptionalEntityV, Parameter, ParameterMode, ParameterV, Term, TermV, Value,
    ValueSort, ValueSortV, ValueV, param_index, params_with_mode, sort_of,
};
use crate::state::{StateRegistry, StateV};
use crate::text::{is_valid_label, valid_label};
use crate::messages::{debug_str, mode_text, push_sort, sort_text, str_debug};
use crate::session::{decimal, push_decimal};

verus! {

/// The first local declared with `id`, by position.
pub open spec fn local_index(ls: Seq<(Seq<char>, ValueSortV)>, id: Seq<char>) -> Option<int> {
    if exists|i: int| 0 <= i < ls.len() && ls[i].0 == id {
        Some(
            choose|i: int|
                0 <= i < ls.len() && ls[i].0 == id && forall|j: int| 0 <= j < i ==> ls[j].0 != id,
        )
    } else {
        None
    }
}

/// The sort a term denotes in a guard (with the formula's locals) or in an
/// effect (`locals` is `None`), or `None` when the term is ill-formed there.
pub open spec fn term_sort_spec(
    t: TermV,
    locals: Option<Seq<(Seq<char>, ValueSortV)>>,
    ps: Seq<ParameterV>,
    st: StateV,
) -> Option<ValueSortV> {
    match t {
        TermV::Actor => Some(ValueSortV::Entity),
        TermV::Input(id) => match param_index(ps, id) {
            Some(i) => if ps[i].mode == ParameterMode::Input {
                Some(ps[i].sort)
            } else {
                None
            },
            None => None,
        },
        TermV::Result(id) => if locals is Some {
            None
        } else {
            match param_index(ps, id) {
                Some(i) => if ps[i].mode == ParameterMode::Result {
                    Some(ps[i].sort)
                } else {
                    None
                },
                None => None,
            }
        },
        TermV::Local(id) => match locals {
            Some(ls) => match local_index(ls, id) {
                Some(i) => Some(ls[i].1),
                None => None,
            },
            None => None,
        },
        TermV::Constant(v) => match v {
            ValueV::Symbol(d, m) => if st.has_symbol(d, m) {
                Some(sort_of(v))
            } else {
                None
            },
            _ => Some(sort_of(v)),
        },
    }
}

/// The term denotes an entity where it stands.
pub open spec fn entity_term(
    t: TermV,
    locals: Option<Seq<(Seq<char>, ValueSortV)>>,
    ps: Seq<ParameterV>,
    st: StateV,
) -> bool {
    term_sort_spec(t, locals, ps, st) == Some(ValueSortV::Entity)
}

/// A sort names only registered symbol domains.
pub open spec fn sort_ok(s: ValueSortV, st: StateV) -> bool {
    match s {
        ValueSortV::Symbol(d) => st.has_symbol_domain(d),
        _ => true,
    }
}

pub open spec fn optional_ok(
    o: OptionalEntityV,
    ls: Seq<(Seq<char>, ValueSortV)>,
    ps: Seq<ParameterV>,
    st: StateV,
) -> bool {
    match o {
        OptionalEntityV::Is(t) => entity_term(t, Some(ls), ps, st),
        OptionalEntityV::IsNot(t) => entity_term(t, Some(ls), ps, st),
        OptionalEntityV::IsUnset => true,
    }
}

/// A guard condition is well formed against the schema, the vocabulary and
/// the formula's locals.
pub open spec fn condition_ok(
    c: ConditionV,
    ls: Seq<(Seq<char>, ValueSortV)>,
    ps: Seq<ParameterV>,
    st: StateV,
) -> bool {
    match c {
        ConditionV::RelationTarget { source, relation, target } => entity_term(
            source,
            Some(ls),
            ps,
            st,
        ) && st.has_relation(relation) && optional_ok(target, ls, ps, st),
        ConditionV::ComponentPresent { entity, component, .. } => entity_term(
            entity,
            Some(ls),
            ps,
            st,
        ) && st.has_component(component),
        ConditionV::LocusOf { entity, locus } => entity_term(entity, Some(ls), ps, st)
            && optional_ok(locus, ls, ps, st),
        ConditionV::GaugeAtLeast { entity, gauge, region } => entity_term(entity, Some(ls), ps, st)
            && st.has_gauge(gauge) && st.has_gauge_region(gauge, region),
        ConditionV::GaugeAtMost { entity, gauge, region } => entity_term(entity, Some(ls), ps, st)
            && st.has_gauge(gauge) && st.has_gauge_region(gauge, region),
        ConditionV::Exists { entity, exists } => entity_term(entity, Some(ls), ps, st) && !(exists
            && entity is Input),
        ConditionV::Distinct { left, right } => term_sort_spec(left, Some(ls), ps, st) is Some
            && term_sort_spec(left, Some(ls), ps, st) == term_sort_spec(right, Some(ls), ps, st),
    }
}

/// A guard formula is well formed: distinct, enumerable, registered locals and
/// well-formed conditions.
#[verifier::opaque]
pub open spec fn formula_ok(f: FormulaV, ps: Seq<ParameterV>, st: StateV) -> bool {
    &&& forall|i: int, j: int|
        0 <= i < j < f.locals.len() ==> #[trigger] f.locals[i].0 != #[trigger] f.locals[j].0
    &&& forall|i: int|
        0 <= i < f.locals.len() ==> (#[trigger] f.locals[i]).1 != ValueSortV::Text && sort_ok(
            f.locals[i].1,
            st,
        )
    &&& forall|i: int|
        0 <= i < f.conditions.len() ==> condition_ok(#[trigger] f.conditions[i], f.locals, ps, st)
}

/// The message for a term that is ill-formed where it stands.
pub open spec fn term_error(
    t: TermV,
    locals: Option<Seq<(Seq<char>, ValueSortV)>>,
    ps: Seq<ParameterV>,
) -> Seq<char> {
    match t {
        TermV::Input(id) => match param_index(ps, id) {
            None => "undeclared input "@ + id,
            Some(_) => id + " is not an input parameter"@,
        },
        TermV::Result(id) => if locals is Some {
            "result "@ + id + " is not available in guards"@
        } else {
            match param_index(ps, id) {
                None => "undeclared result "@ + id,
                Some(_) => id + " is not a result parameter"@,
            }
        },
        TermV::Local(id) => match locals {
            None => "local "@ + id + " cannot escape into effects"@,
            Some(_) => "undeclared local "@ + id,
        },
        TermV::Constant(ValueV::Symbol(d, m)) => "unknown symbol "@ + m + " in domain "@ + d,
        _ => Seq::empty(),
    }
}

/// The message for a term that does not denote an entity where it stands.
pub open spec fn entity_error(
    t: TermV,
    locals: Option<Seq<(Seq<char>, ValueSortV)>>,
    ps: Seq<ParameterV>,
    st: StateV,
) -> Seq<char> {
    match term_sort_spec(t, locals, ps, st) {
        None => term_error(t, locals, ps),
        Some(s) => "state position requires Entity, got "@ + sort_text(s),
    }
}

/// The message for an optional entity whose term is not an entity.
pub open spec fn optional_error(o: OptionalEntityV, ls: Seq<(Seq<char>, ValueSortV)>, ps: Seq<ParameterV>, st: StateV) -> Seq<char> {
    match o {
        OptionalEntityV::Is(t) => entity_error(t, Some(ls), ps, st),
        OptionalEntityV::IsNot(t) => entity_error(t, Some(ls), ps, st),
        OptionalEntityV::IsUnset => Seq::empty(),
    }
}

/// The message for a malformed guard condition: its parts are checked in
/// order, and the first that fails names the problem.
pub open spec fn condition_error(c: ConditionV, ls: Seq<(Seq<char>, ValueSortV)>, ps: Seq<ParameterV>, st: StateV) -> Seq<char> {
    match c {
        ConditionV::RelationTarget { source, relation, target } => if !entity_term(source, Some(ls), ps, st) {
            entity_error(source, Some(ls), ps, st)
        } else if !st.has_relation(relation) {
            "unknown relation "@ + relation
        } else {
            optional_error(target, ls, ps, st)
        },
        ConditionV::ComponentPresent { entity, component, .. } => if !entity_term(entity, Some(ls), ps, st) {
            entity_error(entity, Some(ls), ps, st)
        } else {
            "unknown component "@ + component
        },
        ConditionV::LocusOf { entity, locus } => if !entity_term(entity, Some(ls), ps, st) {
            entity_error(entity, Some(ls), ps, st)
        } else {
            optional_error(locus, ls, ps, st)
        },
        ConditionV::GaugeAtLeast { entity, gauge, region } => gauge_error(entity, gauge, region, ls, ps, st),
        ConditionV::GaugeAtMost { entity, gauge, region } => gauge_error(entity, gauge, region, ls, ps, st),
        ConditionV::Exists { entity, .. } => if !entity_term(entity, Some(ls), ps, st) {
            entity_error(entity, Some(ls), ps, st)
        } else {
            "positive Exists on an entity input repeats grounding liveness"@
        },
        ConditionV::Distinct { left, right } => match term_sort_spec(left, Some(ls), ps, st) {
            None => term_error(left, Some(ls), ps),
            Some(l) => match term_sort_spec(right, Some(ls), ps, st) {
                None => term_error(right, Some(ls), ps),
                Some(r) => "Distinct compares incompatible sorts "@ + sort_text(l) + " and "@ + sort_text(r),
            },
        },
    }
}

/// The message for a malformed gauge comparison.
pub open spec fn gauge_error(
    entity: TermV,
    gauge: Seq<char>,
    region: Seq<char>,
    ls: Seq<(Seq<char>, ValueSortV)>,
    ps: Seq<ParameterV>,
    st: StateV,
) -> Seq<char> {
    if !entity_term(entity, Some(ls), ps, st) {
        entity_error(entity, Some(ls), ps, st)
    } else if !st.has_gauge(gauge) {
        "unknown gauge "@ + gauge
    } else {
        "unknown region "@ + region + " for gauge "@ + gauge
    }
}

/// The locals of an optional local list.
pub open spec fn locals_model(locals: Option<&[Local]>) -> Option<Seq<(Seq<char>, ValueSortV)>> {
    match locals {
        Some(ls) => Some(ls@.map_values(|l: Local| l@)),
        None => None,
    }
}

/// `a`, then `b`, as one message.
fn text2(a: &str, b: &str) -> (r: String)
    ensures
        r@ == a@ + b@,
{
    let mut m = String::new();
    m.append(a);
    m.append(b);
    m
}

/// `a`, then `b`, then `c`, as one message.
fn text3(a: &str, b: &str, c: &str) -> (r: String)
    ensures
        r@ == a@ + b@ + c@,
{
    let mut m = String::new();
    m.append(a);
    m.append(b);
    m.append(c);
    m
}

fn term_sort(term: &Term, locals: Option<&[Local]>, schema: &AffordanceSchema, state: &StateRegistry) -> (r: Result<ValueSort, String>)
    ensures
        match term_sort_spec(
            term@,
            match locals {
                Some(ls) => Some(ls@.map_values(|l: Local| l@)),
                None => None,
            },
            schema.params(),
            state@,
        ) {
            Some(s) => r matches Ok(x) && x@ == s,
            None => r is Err,
        },
        r matches Err(m) ==> m@ == term_error(term@, locals_model(locals), schema.params()),
{
    proof {
        reveal_strlit("");
    }
    match term {
        Term::Actor => Ok(ValueSort::Entity),
        Term::Input(id) => {
            match schema.parameter(id) {
                None => Err(text2("undeclared input ", id.as_str())),
                Some(p) => {
                    if p.mode() != ParameterMode::Input {
                        return Err(text2(id.as_str(), " is not an input parameter"));
                    }
                    Ok(p.sort().clone())
                },
            }
        },
        Term::Result(id) => {
            if locals.is_some() {
                return Err(text3("result ", id.as_str(), " is not available in guards"));
            }
            match schema.parameter(id) {
                None => Err(text2("undeclared result ", id.as_str())),
                Some(p) => {
                    if p.mode() != ParameterMode::Result {
                        return Err(text2(id.as_str(), " is not a result parameter"));
                    }
                    Ok(p.sort().clone())
                },
            }
        },
        Term::Local(id) => match locals {
            None => Err(text3("local ", id.as_str(), " cannot escape into effects")),
            Some(ls) => {
                let ghost lv = ls@.map_values(|l: Local| l@);
                let mut i: usize = 0;
                while i < ls.len()
                    invariant
                        i <= ls@.len(),
                        lv == ls@.map_values(|l: Local| l@),
                        term@ == TermV::Local(id@),
                        locals == Some(ls),
                        forall|j: int| 0 <= j < i ==> lv[j].0 != id@,
                    decreases ls.len() - i,
                {
                    assert(lv[i as int] == ls@[i as int]@);
                    if ls[i].id().same(id) {
                        proof {
                            assert(lv[i as int].0 == id@ && forall|j: int| 0 <= j < i ==> lv[j].0 != id@);
                            let k = local_index(lv, id@)->0;
                            assert(k == i) by {
                                if k > i {
                                    assert(lv[i as int].0 == id@);
                                } else if k < i {
                                    assert(lv[k].0 != id@);
                                }
                            }
                        }
                        assert(local_index(lv, id@) == Some(i as int));
                        let sorted = ls[i].sort().clone();
                        assert(sorted@ == lv[i as int].1);
                        return Ok(sorted);
                    }
                    i = i + 1;
                }
                Err(text2("undeclared local ", id.as_str()))
            },
        },
        Term::Constant(value) => {
            match value {
                Value::Symbol(symbol) => {
                    if !state.has_symbol(symbol) {
                        let mut m = text3("unknown symbol ", symbol.value().as_str(), " in domain ");
                        m.append(symbol.domain().as_str());
                        assert(m@ =~= term_error(term@, locals_model(locals), schema.params()));
                        return Err(m);
                    }
                },
                _ => {},
            }
            Ok(value.sort())
        },
    }
}

fn require_entity(term: &Term, locals: Option<&[Local]>, schema: &AffordanceSchema, state: &StateRegistry) -> (r: Result<(), String>)
    ensures
        r is Ok <==> entity_term(
            term@,
            match locals {
                Some(ls) => Some(ls@.map_values(|l: Local| l@)),
                None => None,
            },
            schema.params(),
            state@,
        ),
        r matches Err(m) ==> m@ == entity_error(term@, locals_model(locals), schema.params(), state@),
{
    let sort = match term_sort(term, locals, schema, state) {
        Ok(x) => x,
        Err(m) => {
            return Err(m);
        },
    };
    if !sort.is_entity() {
        let mut m = String::new();
        m.append("state position requires Entity, got ");
        push_sort(&mut m, &sort);
        assert(m@ =~= entity_error(term@, locals_model(locals), schema.params(), state@));
        return Err(m);
    }
    Ok(())
}

fn validate_sort(sort: &ValueSort, state: &StateRegistry) -> (r: Result<(), String>)
    ensures
        r is Ok <==> sort_ok(sort@, state@),
        r matches Err(m) ==> m@ == sort_error(sort@),
{
    match sort {
        ValueSort::Symbol(domain) => {
            if !state.has_symbol_domain(domain) {
                let mut m = String::new();
                m.append("unknown symbol domain ");
                m.append(domain.as_str());
                return Err(m);
            }
            Ok(())
        },
        _ => Ok(()),
    }
}

fn validate_optional_entity(value: &OptionalEntity, locals: &[Local], schema: &AffordanceSchema, state: &StateRegistry) -> (r: Result<(), String>)
    ensures
        r is Ok <==> optional_ok(value@, locals@.map_values(|l: Local| l@), schema.params(), state@),
        r matches Err(m) ==> m@ == optional_error(value@, locals@.map_values(|l: Local| l@), schema.params(), state@),
{
    match value {
        OptionalEntity::Is(term) => require_entity(term, Some(locals), schema, state),
        OptionalEntity::IsNot(term) => require_entity(term, Some(locals), schema, state),
        OptionalEntity::IsUnset => Ok(()),
    }
}

fn check_relation_target(condition: &Condition, locals: &[Local], schema: &AffordanceSchema, state: &StateRegistry) -> (r: Result<(), String>)
    requires
        condition is RelationTarget,
    ensures
        r is Ok <==> condition_ok(condition@, locals@.map_values(|l: Local| l@), schema.params(), state@),
        r matches Err(m) ==> m@ == condition_error(condition@, locals@.map_values(|l: Local| l@), schema.params(), state@),
{
    match condition {
        Condition::RelationTarget { source, relation, target } => {
            match require_entity(source, Some(locals), schema, state) {
                Err(m) => {
                    return Err(m);
                },
                Ok(()) => {},
            }
            if !state.has_relation(relation) {
                return Err(text2("unknown relation ", relation.as_str()));
            }
            validate_optional_entity(target, locals, schema, state)
        },
        _ => Ok(()),
    }
}

fn check_component_present(condition: &Condition, locals: &[Local], schema: &AffordanceSchema, state: &StateRegistry) -> (r: Result<(), String>)
    requires
        condition is ComponentPresent,
    ensures
        r is Ok <==> condition_ok(condition@, locals@.map_values(|l: Local| l@), schema.params(), state@),
        r matches Err(m) ==> m@ == condition_error(condition@, locals@.map_values(|l: Local| l@), schema.params(), state@),
{
    match condition {
        Condition::ComponentPresent { entity, component, .. } => {
            match require_entity(entity, Some(locals), schema, state) {
                Err(m) => {
                    return Err(m);
                },
                Ok(()) => {},
            }
            if !state.has_component(component) {
                return Err(text2("unknown component ", component.as_str()));
            }
            Ok(())
        },
        _ => Ok(()),
    }
}

fn check_locus_of(condition: &Condition, locals: &[Local], schema: &AffordanceSchema, state: &StateRegistry) -> (r: Result<(), String>)
    requires
        condition is LocusOf,
    ensures
        r is Ok <==> condition_ok(condition@, locals@.map_values(|l: Local| l@), schema.params(), state@),
        r matches Err(m) ==> m@ == condition_error(condition@, locals@.map_values(|l: Local| l@), schema.params(), state@),
{
    match condition {
        Condition::LocusOf { entity, locus } => {
            match require_entity(entity, Some(locals), schema, state) {
                Err(m) => {
                    return Err(m);
                },
                Ok(()) => {},
            }
            validate_optional_entity(locus, locals, schema, state)
        },
        _ => Ok(()),
    }
}

fn check_gauge(condition: &Condition, locals: &[Local], schema: &AffordanceSchema, state: &StateRegistry) -> (r: Result<(), String>)
    requires
        condition is GaugeAtLeast || condition is GaugeAtMost,
    ensures
        r is Ok <==> condition_ok(condition@, locals@.map_values(|l: Local| l@), schema.params(), state@),
        r matches Err(m) ==> m@ == condition_error(condition@, locals@.map_values(|l: Local| l@), schema.params(), state@),
{
    match condition {
        Condition::GaugeAtLeast { entity, gauge, region } | Condition::GaugeAtMost {
            entity,
            gauge,
            region,
        } => {
            match require_entity(entity, Some(locals), schema, state) {
                Err(m) => {
                    return Err(m);
                },
                Ok(()) => {},
            }
            if !state.has_gauge(gauge) {
                return Err(text2("unknown gauge ", gauge.as_str()));
            }
            if !state.has_gauge_region(gauge, region) {
                let mut m = text3("unknown region ", region.as_str(), " for gauge ");
                m.append(gauge.as_str());
                return Err(m);
            }
            Ok(())
        },
        _ => Ok(()),
    }
}

fn check_exists(condition: &Condition, locals: &[Local], schema: &AffordanceSchema, state: &StateRegistry) -> (r: Result<(), String>)
    requires
        condition is Exists,
    ensures
        r is Ok <==> condition_ok(condition@, locals@.map_values(|l: Local| l@), schema.params(), state@),
        r matches Err(m) ==> m@ == condition_error(condition@, locals@.map_values(|l: Local| l@), schema.params(), state@),
{
    match condition {
        Condition::Exists { entity, exists } => {
            match require_entity(entity, Some(locals), schema, state) {
                Err(m) => {
                    return Err(m);
                },
                Ok(()) => {},
            }
            match entity {
                Term::Input(_) => {
                    if *exists {
                        return Err(
                            "positive Exists on an entity input repeats grounding liveness".to_owned(),
                        );
                    }
                },
                _ => {},
            }
            Ok(())
        },
        _ => Ok(()),
    }
}

fn check_distinct(condition: &Condition, locals: &[Local], schema: &AffordanceSchema, state: &StateRegistry) -> (r: Result<(), String>)
    requires
        condition is Distinct,
    ensures
        r is Ok <==> condition_ok(condition@, locals@.map_values(|l: Local| l@), schema.params(), state@),
        r matches Err(m) ==> m@ == condition_error(condition@, locals@.map_values(|l: Local| l@), schema.params(), state@),
{
    match condition {
        Condition::Distinct { left, right } => {
            let l = match term_sort(left, Some(locals), schema, state) {
                Ok(x) => x,
                Err(m) => {
                    return Err(m);
                },
            };
            let r = match term_sort(right, Some(locals), schema, state) {
                Ok(x) => x,
                Err(m) => {
                    return Err(m);
                },
            };
            if !l.same(&r) {
                let mut m = String::new();
                m.append("Distinct compares incompatible sorts ");
                push_sort(&mut m, &l);
                m.append(" and ");
                push_sort(&mut m, &r);
                return Err(m);
            }
            Ok(())
        },
        _ => Ok(()),
    }
}

fn validate_condition(condition: &Condition, locals: &[Local], schema: &AffordanceSchema, state: &StateRegistry) -> (r: Result<(), String>)
    ensures
        r is Ok <==> condition_ok(condition@, locals@.map_values(|l: Local| l@), schema.params(), state@),
        r matches Err(m) ==> m@ == condition_error(condition@, locals@.map_values(|l: Local| l@), schema.params(), state@),
{
    match condition {
        Condition::RelationTarget { .. } => check_relation_target(condition, locals, schema, state),
        Condition::ComponentPresent { .. } => check_component_present(condition, locals, schema, state),
        Condition::LocusOf { .. } => check_locus_of(condition, locals, schema, state),
        Condition::GaugeAtLeast { .. } | Condition::GaugeAtMost { .. } => check_gauge(condition, locals, schema, state),
        Condition::Exists { .. } => check_exists(condition, locals, schema, state),
        Condition::Distinct { .. } => check_distinct(condition, locals, schema, state),
    }
}

/// The message for an unregistered sort.
pub open spec fn sort_error(s: ValueSortV) -> Seq<char> {
    match s {
        ValueSortV::Symbol(d) => "unknown symbol domain "@ + d,
        _ => Seq::empty(),
    }
}

/// Local `i` repeats no earlier local and has an enumerable, registered sort.
pub open spec fn local_fine(ls: Seq<(Seq<char>, ValueSortV)>, st: StateV, i: int) -> bool {
    &&& forall|j: int| 0 <= j < i ==> ls[j].0 != ls[i].0
    &&& ls[i].1 != ValueSortV::Text
    &&& sort_ok(ls[i].1, st)
}

/// The message for local `i`, the first that is not fine.
pub open spec fn local_issue(ls: Seq<(Seq<char>, ValueSortV)>, st: StateV, i: int) -> Seq<char> {
    if exists|j: int| 0 <= j < i && ls[j].0 == ls[i].0 {
        "duplicate local "@ + ls[i].0
    } else if ls[i].1 == ValueSortV::Text {
        "local "@ + ls[i].0 + " has non-enumerable Text sort"@
    } else {
        sort_error(ls[i].1)
    }
}

/// `m` is the message of a malformed formula: that of its first local that
/// is not fine, or, when all are, of its first malformed condition.
pub open spec fn formula_failure(f: FormulaV, ps: Seq<ParameterV>, st: StateV, m: Seq<char>) -> bool {
    ||| exists|i: int|
        0 <= i < f.locals.len() && !#[trigger] local_fine(f.locals, st, i) && (forall|a: int|
            0 <= a < i ==> local_fine(f.locals, st, a)) && m == local_issue(f.locals, st, i)
    ||| (forall|a: int| 0 <= a < f.locals.len() ==> local_fine(f.locals, st, a)) && exists|k: int|
        0 <= k < f.conditions.len() && !#[trigger] condition_ok(f.conditions[k], f.locals, ps, st) && (forall|a: int|
            0 <= a < k ==> condition_ok(f.conditions[a], f.locals, ps, st)) && m == condition_error(
            f.conditions[k],
            f.locals,
            ps,
            st,
        )
}

fn validate_formula(formula: &Formula, schema: &AffordanceSchema, state: &StateRegistry) -> (r: Result<(), String>)
    ensures
        r is Ok <==> formula_ok(formula@, schema.params(), state@),
        r matches Err(m) ==> formula_failure(formula@, schema.params(), state@, m@),
{
    reveal(formula_ok);
    let locals = formula.locals();
    let ghost lv = locals@.map_values(|l: Local| l@);
    assert(formula@.locals == lv);
    let mut i: usize = 0;
    while i < locals.len()
        invariant
            i <= locals@.len(),
            lv == locals@.map_values(|l: Local| l@),
            formula@.locals == lv,
            forall|a: int, b: int| 0 <= a < b < i ==> #[trigger] lv[a].0 != #[trigger] lv[b].0,
            forall|a: int| 0 <= a < i ==> (#[trigger] lv[a]).1 != ValueSortV::Text && sort_ok(lv[a].1, state@),
            forall|a: int| 0 <= a < i ==> local_fine(lv, state@, a),
        decreases locals.len() - i,
    {
        reveal(formula_ok);
        assert(lv[i as int] == locals@[i as int]@);
        let mut j: usize = 0;
        while j < i
            invariant
                j <= i < locals@.len(),
                lv == locals@.map_values(|l: Local| l@),
                formula@.locals == lv,
                forall|a: int| 0 <= a < j ==> lv[a].0 != lv[i as int].0,
                forall|a: int| 0 <= a < i ==> local_fine(lv, state@, a),
            decreases i - j,
        {
            reveal(formula_ok);
            assert(lv[j as int] == locals@[j as int]@);
            if locals[j].id().same(locals[i].id()) {
                assert(!formula_ok(formula@, schema.params(), state@)) by {
                    assert(lv[j as int].0 == lv[i as int].0);
                }
                let m = text2("duplicate local ", locals[i].id().as_str());
                assert(!local_fine(lv, state@, i as int));
                assert(m@ == local_issue(lv, state@, i as int));
                return Err(m);
            }
            j = j + 1;
        }
        if locals[i].sort().is_text() {
            assert(!formula_ok(formula@, schema.params(), state@)) by {
                assert(lv[i as int].1 == ValueSortV::Text);
            }
            let m = text3("local ", locals[i].id().as_str(), " has non-enumerable Text sort");
            assert(!local_fine(lv, state@, i as int));
            assert(m@ == local_issue(lv, state@, i as int));
            return Err(m);
        }
        let checked = validate_sort(locals[i].sort(), state);
        if checked.is_err() {
            assert(!formula_ok(formula@, schema.params(), state@)) by {
                assert(!sort_ok(lv[i as int].1, state@));
            }
            assert(!local_fine(lv, state@, i as int));
            return checked;
        }
        i = i + 1;
    }
    let conditions = formula.conditions();
    let ghost cv = conditions@.map_values(|c: Condition| c@);
    assert(formula@.conditions == cv);
    let mut k: usize = 0;
    while k < conditions.len()
        invariant
            k <= conditions@.len(),
            cv == conditions@.map_values(|c: Condition| c@),
            formula@.conditions == cv,
            formula@.locals == lv,
            lv == locals@.map_values(|l: Local| l@),
            forall|a: int, b: int| 0 <= a < b < lv.len() ==> #[trigger] lv[a].0 != #[trigger] lv[b].0,
            forall|a: int| 0 <= a < lv.len() ==> (#[trigger] lv[a]).1 != ValueSortV::Text && sort_ok(lv[a].1, state@),
            forall|a: int| 0 <= a < k ==> condition_ok(#[trigger] cv[a], lv, schema.params(), state@),
            forall|a: int| 0 <= a < lv.len() ==> local_fine(lv, state@, a),
        decreases conditions.len() - k,
    {
        reveal(formula_ok);
        assert(cv[k as int] == conditions@[k as int]@);
        let checked = validate_condition(&conditions[k], locals, schema, state);
        if checked.is_err() {
            assert(!condition_ok(cv[k as int], lv, schema.params(), state@));
            assert(formula@.conditions[k as int] == cv[k as int]);
            assert(k < formula@.conditions.len());
            return checked;
        }
        k = k + 1;
    }
    Ok(())
}


/// Which state dimension an effect writes.
#[derive(Clone, Copy, Debug, PartialEq, Eq, Structural)]
pub enum SlotKind {
    Relation,
    Component,
    Locus,
    Gauge,
    Existence,
}

/// The state slot an effect writes: its dimension, its subject, and the
/// relation/component/gauge it names (if any).
pub open spec fn slot_of(e: EffectV) -> (SlotKind, TermV, Option<Seq<char>>) {
    match e {
        EffectV::SetRelation { source, relation, .. } => (SlotKind::Relation, source, Some(relation)),
        EffectV::ClearRelation { source, relation } => (SlotKind::Relation, source, Some(relation)),
        EffectV::SetComponent { entity, component } => (SlotKind::Component, entity, Some(component)),
        EffectV::RemoveComponent { entity, component } => (
            SlotKind::Component,
            entity,
            Some(component),
        ),
        EffectV::SetLocus { entity, .. } => (SlotKind::Locus, entity, None),
        EffectV::ClearLocus { entity } => (SlotKind::Locus, entity, None),
        EffectV::ShiftGauge { entity, gauge, .. } => (SlotKind::Gauge, entity, Some(gauge)),
        EffectV::Create { result } => (SlotKind::Existence, TermV::Result(result), None),
        EffectV::Destroy { entity } => (SlotKind::Existence, entity, None),
    }
}

/// How std's `Debug` writes a value.
pub open spec fn value_debug(v: ValueV) -> Seq<char> {
    match v {
        ValueV::Entity(e) => "Entity(EntityId("@ + decimal(e as nat) + "))"@,
        ValueV::Text(t) => "Text("@ + debug_str(t) + ")"@,
        ValueV::Symbol(d, x) => "Symbol(SymbolValue { domain: SymbolDomainId("@ + debug_str(d)
            + "), value: SymbolId("@ + debug_str(x) + ") })"@,
    }
}

/// How std's `Debug` writes a term.
pub open spec fn term_debug(t: TermV) -> Seq<char> {
    match t {
        TermV::Actor => "Actor"@,
        TermV::Input(p) => "Input(ParameterId("@ + debug_str(p) + "))"@,
        TermV::Result(p) => "Result(ParameterId("@ + debug_str(p) + "))"@,
        TermV::Local(l) => "Local(LocalId("@ + debug_str(l) + "))"@,
        TermV::Constant(v) => "Constant("@ + value_debug(v) + ")"@,
    }
}

/// The name a slot carries, empty where it has none.
pub open spec fn slot_name(n: Option<Seq<char>>) -> Seq<char> {
    match n {
        Some(x) => x,
        None => Seq::empty(),
    }
}

/// How a state slot reads in a consistency message.
pub open spec fn slot_debug(s: (SlotKind, TermV, Option<Seq<char>>)) -> Seq<char> {
    match s.0 {
        SlotKind::Relation => "Relation("@ + term_debug(s.1) + ", RelationId("@ + debug_str(slot_name(s.2)) + "))"@,
        SlotKind::Component => "Component("@ + term_debug(s.1) + ", ComponentId("@ + debug_str(slot_name(s.2))
            + "))"@,
        SlotKind::Locus => "Locus("@ + term_debug(s.1) + ")"@,
        SlotKind::Gauge => "Gauge("@ + term_debug(s.1) + ", GaugeId("@ + debug_str(slot_name(s.2)) + "))"@,
        SlotKind::Existence => "Existence("@ + term_debug(s.1) + ")"@,
    }
}

fn push_value_debug(s: &mut String, v: &Value)
    ensures
        final(s)@ == old(s)@ + value_debug(v@),
{
    match v {
        Value::Entity(e) => {
            s.append("Entity(EntityId(");
            push_decimal(s, e.0);
            s.append("))");
        },
        Value::Text(t) => {
            s.append("Text(");
            let q = str_debug(t.as_str());
            s.append(q.as_str());
            s.append(")");
        },
        Value::Symbol(x) => {
            s.append("Symbol(SymbolValue { domain: SymbolDomainId(");
            let d = str_debug(x.domain().as_str());
            s.append(d.as_str());
            s.append("), value: SymbolId(");
            let q = str_debug(x.value().as_str());
            s.append(q.as_str());
            s.append(") })");
        },
    }
    proof {
        assert(final(s)@ =~= old(s)@ + value_debug(v@));
    }
}

fn push_term_debug(s: &mut String, t: &Term)
    ensures
        final(s)@ == old(s)@ + term_debug(t@),
{
    match t {
        Term::Actor => s.append("Actor"),
        Term::Input(p) => {
            s.append("Input(ParameterId(");
            let q = str_debug(p.as_str());
            s.append(q.as_str());
            s.append("))");
        },
        Term::Result(p) => {
            s.append("Result(ParameterId(");
            let q = str_debug(p.as_str());
            s.append(q.as_str());
            s.append("))");
        },
        Term::Local(l) => {
            s.append("Local(LocalId(");
            let q = str_debug(l.as_str());
            s.append(q.as_str());
            s.append("))");
        },
        Term::Constant(v) => {
            s.append("Constant(");
            push_value_debug(s, v);
            s.append(")");
        },
    }
    proof {
        assert(final(s)@ =~= old(s)@ + term_debug(t@));
    }
}

/// The message for an effect whose assignment contradicts an earlier one.
fn incompatible_text(e: &Effect) -> (r: String)
    ensures
        r@ == "effects make incompatible assignments to "@ + slot_debug(slot_of(e@)),
{
    let (kind, term, name) = slot_parts(e);
    let mut s = String::new();
    s.append("effects make incompatible assignments to ");
    let ghost head = s@;
    match kind {
        SlotKind::Relation => s.append("Relation("),
        SlotKind::Component => s.append("Component("),
        SlotKind::Locus => s.append("Locus("),
        SlotKind::Gauge => s.append("Gauge("),
        SlotKind::Existence => s.append("Existence("),
    }
    push_term_debug(&mut s, &term);
    let nm = match &name {
        Some(x) => x.as_str(),
        None => "",
    };
    proof {
        reveal_strlit("");
    }
    let q = str_debug(nm);
    match kind {
        SlotKind::Relation => {
            s.append(", RelationId(");
            s.append(q.as_str());
            s.append("))");
        },
        SlotKind::Component => {
            s.append(", ComponentId(");
            s.append(q.as_str());
            s.append("))");
        },
        SlotKind::Gauge => {
            s.append(", GaugeId(");
            s.append(q.as_str());
            s.append("))");
        },
        SlotKind::Locus | SlotKind::Existence => s.append(")"),
    }
    proof {
        assert(nm@ == slot_name(slot_of(e@).2));
        assert(s@ =~= "effects make incompatible assignments to "@ + slot_debug(slot_of(e@)));
    }
    s
}

/// Model of the value an effect assigns to its slot.
pub enum AssignV {
    Entity(Option<TermV>),
    Present(bool),
    Direction(GaugeDirection),
}

pub open spec fn assign_of(e: EffectV) -> AssignV {
    match e {
        EffectV::SetRelation { target, .. } => AssignV::Entity(Some(target)),
        EffectV::ClearRelation { .. } => AssignV::Entity(None),
        EffectV::SetComponent { .. } => AssignV::Present(true),
        EffectV::RemoveComponent { .. } => AssignV::Present(false),
        EffectV::SetLocus { locus, .. } => AssignV::Entity(Some(locus)),
        EffectV::ClearLocus { .. } => AssignV::Entity(None),
        EffectV::ShiftGauge { direction, .. } => AssignV::Direction(direction),
        EffectV::Create { .. } => AssignV::Present(true),
        EffectV::Destroy { .. } => AssignV::Present(false),
    }
}

/// One effect is well formed on its own: entity-valued subjects and targets,
/// registered vocabulary, and `Create` naming a declared entity result.
pub open spec fn effect_ok(e: EffectV, ps: Seq<ParameterV>, st: StateV) -> bool {
    match e {
        EffectV::SetRelation { source, relation, target } => entity_term(source, None, ps, st)
            && entity_term(target, None, ps, st) && st.has_relation(relation),
        EffectV::ClearRelation { source, relation } => entity_term(source, None, ps, st)
            && st.has_relation(relation),
        EffectV::SetComponent { entity, component } => entity_term(entity, None, ps, st)
            && st.has_component(component),
        EffectV::RemoveComponent { entity, component } => entity_term(entity, None, ps, st)
            && st.has_component(component),
        EffectV::SetLocus { entity, locus } => entity_term(entity, None, ps, st) && entity_term(
            locus,
            None,
            ps,
            st,
        ),
        EffectV::ClearLocus { entity } => entity_term(entity, None, ps, st),
        EffectV::ShiftGauge { entity, gauge, .. } => entity_term(entity, None, ps, st)
            && st.has_gauge(gauge),
        EffectV::Create { result } => match param_index(ps, result) {
            Some(i) => ps[i].mode == ParameterMode::Result && ps[i].sort == ValueSortV::Entity,
            None => false,
        },
        EffectV::Destroy { entity } => entity_term(entity, None, ps, st),
    }
}

/// Two effects create the same result.
pub open spec fn same_create(a: EffectV, b: EffectV) -> bool {
    a is Create && b is Create && a->result == b->result
}

/// The effect list is consistent: every effect is well formed, no result is
/// created twice, and effects writing the same slot assign it the same value.
#[verifier::opaque]
pub open spec fn effects_ok(es: Seq<EffectV>, ps: Seq<ParameterV>, st: StateV) -> bool {
    &&& forall|i: int| 0 <= i < es.len() ==> effect_ok(#[trigger] es[i], ps, st)
    &&& forall|i: int, j: int| 0 <= i < j < es.len() ==> !same_create(#[trigger] es[i], #[trigger] es[j])
    &&& forall|i: int, j: int|
        0 <= i < j < es.len() && slot_of(#[trigger] es[i]) == slot_of(#[trigger] es[j]) ==> assign_of(es[i])
            == assign_of(es[j])
}

fn slot_parts(e: &Effect) -> (r: (SlotKind, Term, Option<String>))
    ensures
        (r.0, r.1@, match r.2 {
            Some(s) => Some(s@),
            None => None,
        }) == slot_of(e@),
{
    match e {
        Effect::SetRelation { source, relation, .. } => (
            SlotKind::Relation,
            source.clone(),
            Some(relation.as_str().to_owned()),
        ),
        Effect::ClearRelation { source, relation } => (
            SlotKind::Relation,
            source.clone(),
            Some(relation.as_str().to_owned()),
        ),
        Effect::SetComponent { entity, component } => (
            SlotKind::Component,
            entity.clone(),
            Some(component.as_str().to_owned()),
        ),
        Effect::RemoveComponent { entity, component } => (
            SlotKind::Component,
            entity.clone(),
            Some(component.as_str().to_owned()),
        ),
        Effect::SetLocus { entity, .. } => (SlotKind::Locus, entity.clone(), None),
        Effect::ClearLocus { entity } => (SlotKind::Locus, entity.clone(), None),
        Effect::ShiftGauge { entity, gauge, .. } => (
            SlotKind::Gauge,
            entity.clone(),
            Some(gauge.as_str().to_owned()),
        ),
        Effect::Create { result } => (SlotKind::Existence, Term::Result(result.clone()), None),
        Effect::Destroy { entity } => (SlotKind::Existence, entity.clone(), None),
    }
}

fn same_slot(a: &Effect, b: &Effect) -> (r: bool)
    ensures
        r == (slot_of(a@) == slot_of(b@)),
{
    let (ka, ta, na) = slot_parts(a);
    let (kb, tb, nb) = slot_parts(b);
    if ka != kb || !ta.same(&tb) {
        return false;
    }
    match (na, nb) {
        (None, None) => true,
        (Some(x), Some(y)) => x == y,
        _ => false,
    }
}

fn same_assignment(a: &Effect, b: &Effect) -> (r: bool)
    ensures
        r == (assign_of(a@) == assign_of(b@)),
{
    let ea: Option<Option<&Term>> = match a {
        Effect::SetRelation { target, .. } => Some(Some(target)),
        Effect::SetLocus { locus, .. } => Some(Some(locus)),
        Effect::ClearRelation { .. } | Effect::ClearLocus { .. } => Some(None),
        _ => None,
    };
    let eb: Option<Option<&Term>> = match b {
        Effect::SetRelation { target, .. } => Some(Some(target)),
        Effect::SetLocus { locus, .. } => Some(Some(locus)),
        Effect::ClearRelation { .. } | Effect::ClearLocus { .. } => Some(None),
        _ => None,
    };
    let pa: Option<bool> = match a {
        Effect::SetComponent { .. } | Effect::Create { .. } => Some(true),
        Effect::RemoveComponent { .. } | Effect::Destroy { .. } => Some(false),
        _ => None,
    };
    let pb: Option<bool> = match b {
        Effect::SetComponent { .. } | Effect::Create { .. } => Some(true),
        Effect::RemoveComponent { .. } | Effect::Destroy { .. } => Some(false),
        _ => None,
    };
    match (a, b) {
        (Effect::ShiftGauge { direction: x, .. }, Effect::ShiftGauge { direction: y, .. }) => *x
            == *y,
        _ => match (ea, eb) {
            (Some(Some(x)), Some(Some(y))) => x.same(y),
            (Some(None), Some(None)) => true,
            (Some(_), Some(_)) => false,
            (Some(_), None) | (None, Some(_)) => false,
            (None, None) => match (pa, pb) {
                (Some(x), Some(y)) => x == y,
                _ => false,
            },
        },
    }
}

/// The message for an effect that is malformed on its own: its parts are
/// checked in order, and the first that fails names the problem.
pub open spec fn effect_error(e: EffectV, ps: Seq<ParameterV>, st: StateV) -> Seq<char> {
    match e {
        EffectV::SetRelation { source, relation, target } => if !entity_term(source, None, ps, st) {
            entity_error(source, None, ps, st)
        } else if !entity_term(target, None, ps, st) {
            entity_error(target, None, ps, st)
        } else {
            "unknown relation "@ + relation
        },
        EffectV::ClearRelation { source, relation } => if !entity_term(source, None, ps, st) {
            entity_error(source, None, ps, st)
        } else {
            "unknown relation "@ + relation
        },
        EffectV::SetComponent { entity, component } => if !entity_term(entity, None, ps, st) {
            entity_error(entity, None, ps, st)
        } else {
            "unknown component "@ + component
        },
        EffectV::RemoveComponent { entity, component } => if !entity_term(entity, None, ps, st) {
            entity_error(entity, None, ps, st)
        } else {
            "unknown component "@ + component
        },
        EffectV::SetLocus { entity, locus } => if !entity_term(entity, None, ps, st) {
            entity_error(entity, None, ps, st)
        } else {
            entity_error(locus, None, ps, st)
        },
        EffectV::ClearLocus { entity } => entity_error(entity, None, ps, st),
        EffectV::ShiftGauge { entity, gauge, .. } => if !entity_term(entity, None, ps, st) {
            entity_error(entity, None, ps, st)
        } else {
            "unknown gauge "@ + gauge
        },
        EffectV::Create { result } => match param_index(ps, result) {
            None => "Create refers to undeclared result "@ + result,
            Some(_) => "Create target "@ + result + " must be an entity result"@,
        },
        EffectV::Destroy { entity } => entity_error(entity, None, ps, st),
    }
}

fn check_relation_effect(effect: &Effect, schema: &AffordanceSchema, state: &StateRegistry) -> (r: Result<(), String>)
    requires
        effect is SetRelation || effect is ClearRelation,
    ensures
        r is Ok <==> effect_ok(effect@, schema.params(), state@),
        r matches Err(m) ==> m@ == effect_error(effect@, schema.params(), state@),
{
    match effect {
        Effect::SetRelation { source, relation, target } => {
            match require_entity(source, None, schema, state) {
                Err(m) => {
                    return Err(m);
                },
                Ok(()) => {},
            }
            match require_entity(target, None, schema, state) {
                Err(m) => {
                    return Err(m);
                },
                Ok(()) => {},
            }
            if !state.has_relation(relation) {
                return Err(text2("unknown relation ", relation.as_str()));
            }
            Ok(())
        },
        Effect::ClearRelation { source, relation } => {
            match require_entity(source, None, schema, state) {
                Err(m) => {
                    return Err(m);
                },
                Ok(()) => {},
            }
            if !state.has_relation(relation) {
                return Err(text2("unknown relation ", relation.as_str()));
            }
            Ok(())
        },
        _ => Ok(()),
    }
}

fn check_slot_effect(effect: &Effect, schema: &AffordanceSchema, state: &StateRegistry) -> (r: Result<(), String>)
    requires
        effect is SetComponent || effect is RemoveComponent || effect is ShiftGauge,
    ensures
        r is Ok <==> effect_ok(effect@, schema.params(), state@),
        r matches Err(m) ==> m@ == effect_error(effect@, schema.params(), state@),
{
    match effect {
        Effect::SetComponent { entity, component } | Effect::RemoveComponent {
            entity,
            component,
        } => {
            match require_entity(entity, None, schema, state) {
                Err(m) => {
                    return Err(m);
                },
                Ok(()) => {},
            }
            if !state.has_component(component) {
                return Err(text2("unknown component ", component.as_str()));
            }
            Ok(())
        },
        Effect::ShiftGauge { entity, gauge, .. } => {
            match require_entity(entity, None, schema, state) {
                Err(m) => {
                    return Err(m);
                },
                Ok(()) => {},
            }
            if !state.has_gauge(gauge) {
                return Err(text2("unknown gauge ", gauge.as_str()));
            }
            Ok(())
        },
        _ => Ok(()),
    }
}

fn check_locus_effect(effect: &Effect, schema: &AffordanceSchema, state: &StateRegistry) -> (r: Result<(), String>)
    requires
        effect is SetLocus || effect is ClearLocus,
    ensures
        r is Ok <==> effect_ok(effect@, schema.params(), state@),
        r matches Err(m) ==> m@ == effect_error(effect@, schema.params(), state@),
{
    match effect {
        Effect::SetLocus { entity, locus } => {
            match require_entity(entity, None, schema, state) {
                Err(m) => {
                    return Err(m);
                },
                Ok(()) => {},
            }
            require_entity(locus, None, schema, state)
        },
        Effect::ClearLocus { entity } => require_entity(entity, None, schema, state),
        _ => Ok(()),
    }
}

#[verifier::rlimit(60)]
fn check_life_effect(effect: &Effect, schema: &AffordanceSchema, state: &StateRegistry) -> (r: Result<(), String>)
    requires
        effect is Create || effect is Destroy,
    ensures
        r is Ok <==> effect_ok(effect@, schema.params(), state@),
        r matches Err(m) ==> m@ == effect_error(effect@, schema.params(), state@),
{
    match effect {
        Effect::Create { result } => {
            match schema.parameter(result) {
                None => Err(text2("Create refers to undeclared result ", result.as_str())),
                Some(p) => {
                    if p.mode() != ParameterMode::Result || !p.sort().is_entity() {
                        return Err(text3("Create target ", result.as_str(), " must be an entity result"));
                    }
                    Ok(())
                },
            }
        },
        Effect::Destroy { entity } => require_entity(entity, None, schema, state),
        _ => Ok(()),
    }
}

fn validate_effect(effect: &Effect, schema: &AffordanceSchema, state: &StateRegistry) -> (r: Result<(), String>)
    ensures
        r is Ok <==> effect_ok(effect@, schema.params(), state@),
        r matches Err(m) ==> m@ == effect_error(effect@, schema.params(), state@),
{
    match effect {
        Effect::SetRelation { .. } | Effect::ClearRelation { .. } => check_relation_effect(effect, schema, state),
        Effect::SetComponent { .. } | Effect::RemoveComponent { .. } | Effect::ShiftGauge { .. } => check_slot_effect(
            effect,
            schema,
            state,
        ),
        Effect::SetLocus { .. } | Effect::ClearLocus { .. } => check_locus_effect(effect, schema, state),
        _ => check_life_effect(effect, schema, state),
    }
}

/// The effects before position `n` pass the checks of `effects_ok`.
#[verifier::opaque]
pub open spec fn effects_prefix_ok(es: Seq<EffectV>, ps: Seq<ParameterV>, st: StateV, n: int) -> bool {
    &&& forall|i: int| 0 <= i < n ==> effect_ok(#[trigger] es[i], ps, st)
    &&& forall|i: int, j: int| 0 <= i < j < n ==> !same_create(#[trigger] es[i], #[trigger] es[j])
    &&& forall|i: int, j: int|
        0 <= i < j < n && slot_of(#[trigger] es[i]) == slot_of(#[trigger] es[j]) ==> assign_of(es[i])
            == assign_of(es[j])
}

/// The result an effect creates; empty for any other effect.
pub open spec fn created(e: EffectV) -> Seq<char> {
    match e {
        EffectV::Create { result } => result,
        _ => Seq::empty(),
    }
}

/// Some effect before `k` creates the result effect `k` creates.
pub open spec fn created_before(es: Seq<EffectV>, k: int) -> bool {
    exists|i: int| 0 <= i < k && #[trigger] same_create(es[i], es[k])
}

/// The message for effect `k`, the first that breaks consistency, where the
/// message is fixed here: a repeated creation (checked first), otherwise an
/// assignment that contradicts an earlier one to the same slot; an effect
/// malformed on its own gives its own message.
pub open spec fn effects_issue(es: Seq<EffectV>, ps: Seq<ParameterV>, st: StateV, k: int) -> Option<Seq<char>> {
    if !effect_ok(es[k], ps, st) {
        Some(effect_error(es[k], ps, st))
    } else if created_before(es, k) {
        Some("result "@ + created(es[k]) + " is created more than once"@)
    } else {
        Some("effects make incompatible assignments to "@ + slot_debug(slot_of(es[k])))
    }
}

/// `m` is the message of the first effect that breaks consistency.
pub open spec fn effects_failure(es: Seq<EffectV>, ps: Seq<ParameterV>, st: StateV, m: Seq<char>) -> bool {
    exists|k: int|
        0 <= k < es.len() && effects_prefix_ok(es, ps, st, k) && !#[trigger] effects_prefix_ok(es, ps, st, k + 1)
            && (effects_issue(es, ps, st, k) matches Some(t) ==> m == t)
}

proof fn lemma_effects_prefix_whole(es: Seq<EffectV>, ps: Seq<ParameterV>, st: StateV)
    ensures
        effects_ok(es, ps, st) == effects_prefix_ok(es, ps, st, es.len() as int),
        effects_prefix_ok(es, ps, st, 0),
{
    reveal(effects_ok);
    reveal(effects_prefix_ok);
}

proof fn lemma_effects_prefix_step(es: Seq<EffectV>, ps: Seq<ParameterV>, st: StateV, k: int)
    requires
        0 <= k < es.len(),
        effects_prefix_ok(es, ps, st, k),
        effect_ok(es[k], ps, st),
        forall|i: int| 0 <= i < k ==> !same_create(#[trigger] es[i], es[k]),
        forall|i: int| 0 <= i < k && slot_of(#[trigger] es[i]) == slot_of(es[k]) ==> assign_of(es[i]) == assign_of(es[k]),
    ensures
        effects_prefix_ok(es, ps, st, k + 1),
{
    reveal(effects_prefix_ok);
    assert forall|i: int| 0 <= i < k + 1 implies effect_ok(#[trigger] es[i], ps, st) by {}
    assert forall|i: int, j: int| 0 <= i < j < k + 1 implies !same_create(#[trigger] es[i], #[trigger] es[j]) by {
        if j < k {
        }
    }
    assert forall|i: int, j: int|
        0 <= i < j < k + 1 && slot_of(#[trigger] es[i]) == slot_of(#[trigger] es[j]) implies assign_of(es[i])
            == assign_of(es[j]) by {
        if j < k {
        }
    }
}

/// Effect `k` fails on its own, by a repeated creation, or by a contradicting
/// assignment; the whole list is then inconsistent with message `m`.
proof fn lemma_effects_fail_at(es: Seq<EffectV>, ps: Seq<ParameterV>, st: StateV, k: int, j: int, m: Seq<char>)
    requires
        0 <= j < k < es.len() || (0 <= k < es.len() && !effect_ok(es[k], ps, st)),
        effects_prefix_ok(es, ps, st, k),
        effect_ok(es[k], ps, st) ==> (same_create(es[j], es[k]) || (slot_of(es[j]) == slot_of(es[k]) && assign_of(es[j])
            != assign_of(es[k]))),
        effects_issue(es, ps, st, k) matches Some(t) ==> m == t,
    ensures
        !effects_ok(es, ps, st),
        effects_failure(es, ps, st, m),
{
    reveal(effects_ok);
    reveal(effects_prefix_ok);
    assert(!effects_prefix_ok(es, ps, st, k + 1));
}

#[verifier::rlimit(40)]
fn validate_effects(schema: &AffordanceSchema, state: &StateRegistry) -> (r: Result<(), String>)
    ensures
        r is Ok <==> effects_ok(schema.effect_items(), schema.params(), state@),
        r matches Err(m) ==> effects_failure(schema.effect_items(), schema.params(), state@, m@),
{
    let effects = schema.effects();
    let ghost es = schema.effect_items();
    let ghost ps = schema.params();
    proof {
        lemma_effects_prefix_whole(es, ps, state@);
    }
    let mut k: usize = 0;
    while k < effects.len()
        invariant
            k <= effects@.len(),
            es == schema.effect_items(),
            ps == schema.params(),
            es == effects@.map_values(|e: Effect| e@),
            effects_prefix_ok(es, ps, state@, k as int),
        decreases effects.len() - k,
    {
        assert(es[k as int] == effects@[k as int]@);
        let checked = validate_effect(&effects[k], schema, state);
        if checked.is_err() {
            proof {
                lemma_effects_fail_at(es, ps, state@, k as int, 0, checked->Err_0@);
            }
            return checked;
        }
        let mut j: usize = 0;
        while j < k
            invariant
                j <= k < effects@.len(),
                es == effects@.map_values(|e: Effect| e@),
                es == schema.effect_items(),
                ps == schema.params(),
                effect_ok(es[k as int], ps, state@),
                effects_prefix_ok(es, ps, state@, k as int),
                forall|i: int| 0 <= i < j ==> !same_create(#[trigger] es[i], es[k as int]),
            decreases k - j,
        {
            assert(es[j as int] == effects@[j as int]@);
            match (&effects[j], &effects[k]) {
                (Effect::Create { result: a }, Effect::Create { result: b }) => {
                    if a.same(b) {
                        let mut m = String::new();
                        m.append("result ");
                        m.append(b.as_str());
                        m.append(" is created more than once");
                        proof {
                            assert(same_create(es[j as int], es[k as int]));
                            assert(created_before(es, k as int));
                            assert(m@ =~= "result "@ + created(es[k as int]) + " is created more than once"@);
                            lemma_effects_fail_at(es, ps, state@, k as int, j as int, m@);
                        }
                        return Err(m);
                    }
                },
                _ => {},
            }
            j = j + 1;
        }
        let mut j: usize = 0;
        while j < k
            invariant
                j <= k < effects@.len(),
                es == effects@.map_values(|e: Effect| e@),
                es == schema.effect_items(),
                ps == schema.params(),
                effect_ok(es[k as int], ps, state@),
                effects_prefix_ok(es, ps, state@, k as int),
                forall|i: int| 0 <= i < k ==> !same_create(#[trigger] es[i], es[k as int]),
                forall|i: int|
                    0 <= i < j && slot_of(#[trigger] es[i]) == slot_of(es[k as int]) ==> assign_of(es[i])
                        == assign_of(es[k as int]),
            decreases k - j,
        {
            assert(es[j as int] == effects@[j as int]@);
            if same_slot(&effects[j], &effects[k]) && !same_assignment(&effects[j], &effects[k]) {
                let m = incompatible_text(&effects[k]);
                proof {
                    assert(!created_before(es, k as int));
                    lemma_effects_fail_at(es, ps, state@, k as int, j as int, m@);
                }
                return Err(m);
            }
            j = j + 1;
        }
        proof {
            lemma_effects_prefix_step(es, ps, state@, k as int);
        }
        k = k + 1;
    }
    Ok(())
}


/// One schema defect found while assembling the immutable registry.
#[derive(Debug, PartialEq, Eq)]
pub struct SchemaError {
    affordance: AffordanceId,
    issue: String,
}

impl SchemaError {
    pub closed spec fn affordance_view(&self) -> Seq<char> {
        self.affordance@
    }

    pub closed spec fn issue_view(&self) -> Seq<char> {
        self.issue@
    }

    fn new(affordance: AffordanceId, issue: String) -> (r: Self)
        ensures
            r.affordance_view() == affordance@,
            r.issue_view() == issue@,
    {
        SchemaError { affordance, issue }
    }

    pub fn affordance(&self) -> (r: &AffordanceId)
        ensures
            r@ == self.affordance_view(),
    {
        &self.affordance
    }

    pub fn issue(&self) -> (r: &str)
        ensures
            r@ == self.issue_view(),
    {
        self.issue.as_str()
    }
}

/// A guard has a visible reason and a well-formed formula.
pub open spec fn guard_ok(g: Guard, ps: Seq<ParameterV>, st: StateV) -> bool {
    valid_label(g.reason_view()) && formula_ok(g.formula_item()@, ps, st)
}

/// No two parameters of the same mode share a slot.
pub open spec fn slots_distinct(ps: Seq<ParameterV>) -> bool {
    forall|i: int, j: int|
        0 <= i < j < ps.len() && (#[trigger] ps[i]).mode == (#[trigger] ps[j]).mode ==> ps[i].slot
            != ps[j].slot
}

/// Some parameter of `mode` sits in slot `k`.
pub open spec fn slot_filled(ps: Seq<ParameterV>, mode: ParameterMode, k: int) -> bool {
    exists|i: int| 0 <= i < ps.len() && ps[i].mode == mode && #[trigger] ps[i].slot == k
}

/// The slots of `mode` are exactly `0..n` for the `n` parameters of that mode.
#[verifier::opaque]
pub open spec fn slots_dense(ps: Seq<ParameterV>, mode: ParameterMode) -> bool {
    forall|k: int|
        0 <= k < params_with_mode(ps, mode).len() ==> #[trigger] slot_filled(ps, mode, k)
}

/// The slots of the parameters of `mode`, in declaration order.
pub open spec fn mode_slots(ps: Seq<ParameterV>, mode: ParameterMode) -> Seq<int> {
    params_with_mode(ps, mode).map_values(|p: ParameterV| p.slot as int)
}

pub proof fn lemma_mode_slots_unique(ps: Seq<ParameterV>, mode: ParameterMode)
    requires
        slots_distinct(ps),
    ensures
        mode_slots(ps, mode).no_duplicates(),
        forall|x: int|
            mode_slots(ps, mode).contains(x) ==> exists|i: int|
                0 <= i < ps.len() && ps[i].mode == mode && #[trigger] ps[i].slot == x,
    decreases ps.len(),
{
    let pred = |p: ParameterV| p.mode == mode;
    if ps.len() == 0 {
        assert(params_with_mode(ps, mode) =~= Seq::<ParameterV>::empty()) by {
            reveal(Seq::filter);
        }
        assert(mode_slots(ps, mode) =~= Seq::<int>::empty());
    } else {
        let q = ps.drop_last();
        let last = ps.last();
        assert(slots_distinct(q)) by {
            assert forall|i: int, j: int|
                0 <= i < j < q.len() && (#[trigger] q[i]).mode == (#[trigger] q[j]).mode implies q[i].slot
                != q[j].slot by {
                assert(q[i] == ps[i] && q[j] == ps[j]);
            }
        }
        lemma_mode_slots_unique(q, mode);
        assert(ps =~= q.push(last));
        q.lemma_filter_push(last, pred);
        if last.mode == mode {
            assert(mode_slots(ps, mode) =~= mode_slots(q, mode).push(last.slot as int));
            if mode_slots(q, mode).contains(last.slot as int) {
                let i = choose|i: int|
                    0 <= i < q.len() && q[i].mode == mode && #[trigger] q[i].slot == last.slot as int;
                assert(ps[i] == q[i]);
                assert(ps[ps.len() - 1] == last);
                assert(false);
            }
            assert forall|x: int| mode_slots(ps, mode).contains(x) implies exists|i: int|
                0 <= i < ps.len() && ps[i].mode == mode && #[trigger] ps[i].slot == x by {
                if x == last.slot as int {
                    assert(ps[ps.len() - 1].slot == x);
                } else {
                    let k = choose|k: int| 0 <= k < mode_slots(ps, mode).len() && mode_slots(ps, mode)[k] == x;
                    assert(k < mode_slots(q, mode).len());
                    assert(mode_slots(q, mode)[k] == x);
                    assert(mode_slots(q, mode).contains(x));
                    let i = choose|i: int| 0 <= i < q.len() && q[i].mode == mode && #[trigger] q[i].slot == x;
                    assert(ps[i] == q[i]);
                    assert(ps[i].slot == x);
                }
            }
        } else {
            assert(mode_slots(ps, mode) =~= mode_slots(q, mode));
            assert forall|x: int| mode_slots(ps, mode).contains(x) implies exists|i: int|
                0 <= i < ps.len() && ps[i].mode == mode && #[trigger] ps[i].slot == x by {
                let i = choose|i: int| 0 <= i < q.len() && q[i].mode == mode && #[trigger] q[i].slot == x;
                assert(ps[i] == q[i]);
            }
        }
    }
}

/// Dense, distinct slots of `mode` all lie below the number of parameters of
/// that mode, so each names a position of a dense value array.
pub proof fn lemma_dense_slots_bounded(ps: Seq<ParameterV>, mode: ParameterMode, i: int)
    requires
        slots_distinct(ps),
        slots_dense(ps, mode),
        0 <= i < ps.len(),
        ps[i].mode == mode,
    ensures
        ps[i].slot < params_with_mode(ps, mode).len(),
{
    broadcast use vstd::seq_lib::seq_to_set_is_finite;
    reveal(slots_dense);
    let pred = |p: ParameterV| p.mode == mode;
    let ins = params_with_mode(ps, mode);
    let n = ins.len();
    let ms = mode_slots(ps, mode);
    lemma_mode_slots_unique(ps, mode);
    ms.unique_seq_to_set();
    vstd::set_lib::lemma_int_range(0, n as int);
    let t = vstd::set_lib::set_int_range(0, n as int);
    let s = ms.to_set();
    assert forall|k: int| t.contains(k) implies s.contains(k) by {
        assert(slot_filled(ps, mode, k));
        let j = choose|j: int| 0 <= j < ps.len() && ps[j].mode == mode && #[trigger] ps[j].slot == k;
        ps.lemma_filter_contains(pred, j);
        let idx = choose|idx: int| 0 <= idx < ins.len() && ins[idx] == ps[j];
        assert(ms[idx] == k);
    }
    vstd::set_lib::lemma_subset_equality(t, s);
    ps.lemma_filter_contains(pred, i);
    let idx = choose|idx: int| 0 <= idx < ins.len() && ins[idx] == ps[i];
    assert(ms[idx] == ps[i].slot as int);
    assert(s.contains(ps[i].slot as int));
}

/// In a valid signature, the `k`-th parameter of `mode` sits below the count
/// of parameters of that mode.
pub proof fn lemma_mode_param_slot_bounded(ps: Seq<ParameterV>, mode: ParameterMode, k: int)
    requires
        slots_distinct(ps),
        slots_dense(ps, mode),
        0 <= k < params_with_mode(ps, mode).len(),
    ensures
        params_with_mode(ps, mode)[k].slot < params_with_mode(ps, mode).len(),
        params_with_mode(ps, mode)[k].mode == mode,
{
    let pred = |p: ParameterV| p.mode == mode;
    let ins = params_with_mode(ps, mode);
    #[allow(deprecated)]
    ps.filter_lemma(pred);
    assert(ins.contains(ins[k]));
    ps.lemma_filter_contains_rev(pred, ins[k]);
    let i = choose|i: int| 0 <= i < ps.len() && ps[i] == ins[k];
    lemma_dense_slots_bounded(ps, mode, i);
}

/// A schema is registrable against `st`: visible display name, distinct
/// parameter ids with registered sorts, dense distinct slots per mode, guards
/// with visible reasons and well-formed formulas, and consistent effects.
pub open spec fn schema_ok(
    name: Seq<char>,
    ps: Seq<ParameterV>,
    guards: Seq<Guard>,
    es: Seq<EffectV>,
    st: StateV,
) -> bool {
    &&& valid_label(name)
    &&& forall|i: int, j: int| 0 <= i < j < ps.len() ==> #[trigger] ps[i].id != #[trigger] ps[j].id
    &&& forall|i: int| 0 <= i < ps.len() ==> sort_ok(#[trigger] ps[i].sort, st)
    &&& slots_distinct(ps)
    &&& slots_dense(ps, ParameterMode::Input)
    &&& slots_dense(ps, ParameterMode::Result)
    &&& forall|i: int| 0 <= i < guards.len() ==> guard_ok(#[trigger] guards[i], ps, st)
    &&& effects_ok(es, ps, st)
}

pub open spec fn schema_valid(schema: &AffordanceSchema, st: StateV) -> bool {
    schema_ok(schema.display_name_view(), schema.params(), schema.guard_items(), schema.effect_items(), st)
}

fn count_mode(ps: &[Parameter], mode: ParameterMode) -> (r: usize)
    ensures
        r == params_with_mode(ps@.map_values(|p: Parameter| p@), mode).len(),
{
    let ghost pv = ps@.map_values(|p: Parameter| p@);
    let ghost pred = |p: ParameterV| p.mode == mode;
    let mut n: usize = 0;
    let mut i: usize = 0;
    while i < ps.len()
        invariant
            i <= ps@.len(),
            pv == ps@.map_values(|p: Parameter| p@),
            pred == (|p: ParameterV| p.mode == mode),
            n == pv.take(i as int).filter(pred).len(),
            n <= i,
        decreases ps.len() - i,
    {
        proof {
            assert(pv.take(i + 1) =~= pv.take(i as int).push(pv[i as int]));
            pv.take(i as int).lemma_filter_push(pv[i as int], pred);
        }
        assert(pv[i as int] == ps@[i as int]@);
        if ps[i].mode() == mode {
            n = n + 1;
        }
        i = i + 1;
    }
    assert(pv.take(ps@.len() as int) =~= pv);
    n
}

/// `k` is the first slot of `mode` that no parameter of that mode fills.
pub open spec fn first_gap(ps: Seq<ParameterV>, mode: ParameterMode, k: int) -> bool {
    &&& 0 <= k < params_with_mode(ps, mode).len()
    &&& !slot_filled(ps, mode, k)
    &&& forall|j: int| 0 <= j < k ==> #[trigger] slot_filled(ps, mode, j)
}

/// The message for a signature whose slots of `mode` stop at `k`.
pub open spec fn gap_text(mode: ParameterMode, k: int) -> Seq<char> {
    if k > 65535 {
        mode_text(mode) + " signature exceeds the u16 slot space"@
    } else {
        mode_text(mode) + " slots must be dense from zero; missing "@ + decimal(k as nat)
    }
}

fn push_mode_name(s: &mut String, mode: ParameterMode)
    ensures
        final(s)@ == old(s)@ + mode_text(mode),
{
    match mode {
        ParameterMode::Input => s.append("Input"),
        ParameterMode::Result => s.append("Result"),
    }
}

fn validate_dense_slots(ps: &[Parameter], mode: ParameterMode) -> (r: Result<(), String>)
    ensures
        r is Ok <==> slots_dense(ps@.map_values(|p: Parameter| p@), mode),
        r matches Err(m) ==> exists|k: int|
            first_gap(ps@.map_values(|p: Parameter| p@), mode, k) && m@ == gap_text(mode, k),
{
    reveal(slots_dense);
    let ghost pv = ps@.map_values(|p: Parameter| p@);
    let count = count_mode(ps, mode);
    let mut expected: usize = 0;
    while expected < count
        invariant
            expected <= count,
            pv == ps@.map_values(|p: Parameter| p@),
            count == params_with_mode(pv, mode).len(),
            forall|k: int| 0 <= k < expected ==> #[trigger] slot_filled(pv, mode, k),
        decreases count - expected,
    {
        reveal(slots_dense);
        if expected > 65535 {
            assert(!slot_filled(pv, mode, expected as int));
            let mut m = String::new();
            push_mode_name(&mut m, mode);
            m.append(" signature exceeds the u16 slot space");
            proof {
                assert(first_gap(pv, mode, expected as int));
                assert(m@ =~= gap_text(mode, expected as int));
            }
            return Err(m);
        }
        let want = expected as u16;
        let mut found = false;
        let mut i: usize = 0;
        while i < ps.len()
            invariant
                i <= ps@.len(),
                pv == ps@.map_values(|p: Parameter| p@),
                want == expected,
                found ==> slot_filled(pv, mode, expected as int),
                !found ==> forall|m: int| 0 <= m < i ==> !(pv[m].mode == mode && pv[m].slot == want),
            decreases ps.len() - i,
        {
            reveal(slots_dense);
            assert(pv[i as int] == ps@[i as int]@);
            if !found && ps[i].mode() == mode && ps[i].slot() == want {
                found = true;
            }
            i = i + 1;
        }
        if !found {
            assert(!slot_filled(pv, mode, expected as int));
            let mut m = String::new();
            push_mode_name(&mut m, mode);
            m.append(" slots must be dense from zero; missing ");
            push_decimal(&mut m, expected as u64);
            proof {
                assert(first_gap(pv, mode, expected as int));
                assert(m@ =~= gap_text(mode, expected as int));
            }
            return Err(m);
        }
        expected = expected + 1;
    }
    Ok(())
}

/// The parameter list alone is sound: distinct ids, registered sorts, and
/// no two parameters of one mode in the same slot.
pub open spec fn params_ok(ps: Seq<ParameterV>, st: StateV) -> bool {
    &&& forall|i: int, j: int| 0 <= i < j < ps.len() ==> #[trigger] ps[i].id != #[trigger] ps[j].id
    &&& forall|i: int| 0 <= i < ps.len() ==> sort_ok(#[trigger] ps[i].sort, st)
    &&& slots_distinct(ps)
}

/// Parameter `i` shares its id with no earlier parameter, names a
/// registered sort, and shares its slot with no earlier one of its mode.
pub open spec fn param_fine(ps: Seq<ParameterV>, st: StateV, i: int) -> bool {
    &&& forall|j: int| 0 <= j < i ==> ps[j].id != ps[i].id
    &&& sort_ok(ps[i].sort, st)
    &&& forall|j: int| 0 <= j < i ==> !(ps[j].mode == ps[i].mode && ps[j].slot == ps[i].slot)
}

/// The message for parameter `i`, the first that is not fine.
pub open spec fn param_issue(ps: Seq<ParameterV>, st: StateV, i: int) -> Seq<char> {
    if exists|j: int| 0 <= j < i && ps[j].id == ps[i].id {
        "duplicate parameter id "@ + ps[i].id
    } else if !sort_ok(ps[i].sort, st) {
        sort_error(ps[i].sort)
    } else {
        "duplicate "@ + mode_text(ps[i].mode) + " slot "@ + decimal(ps[i].slot as nat)
    }
}

/// What the issue of a refused schema says, where its text is fixed here:
/// the first gap in the input slots, then in the result slots, and otherwise
/// the message of the first inconsistent effect.
pub open spec fn issue_stated(schema: &AffordanceSchema, st: StateV, issue: Seq<char>) -> bool {
    let ps = schema.params();
    let gs = schema.guard_items();
    let front = valid_label(schema.display_name_view()) && params_ok(ps, st);
    &&& !valid_label(schema.display_name_view()) ==> issue
        == "display name must contain visible text and no control characters"@
    &&& (valid_label(schema.display_name_view()) && !params_ok(ps, st)) ==> exists|i: int|
        0 <= i < ps.len() && !#[trigger] param_fine(ps, st, i) && (forall|a: int| 0 <= a < i ==> param_fine(ps, st, a))
            && issue == param_issue(ps, st, i)
    &&& (front && slots_dense(ps, ParameterMode::Input) && slots_dense(ps, ParameterMode::Result) && !(forall|i: int|
        0 <= i < gs.len() ==> guard_ok(#[trigger] gs[i], ps, st))) ==> exists|g: int|
        0 <= g < gs.len() && !#[trigger] guard_ok(gs[g], ps, st) && (forall|a: int| 0 <= a < g ==> guard_ok(gs[a], ps, st))
            && if !valid_label(gs[g].reason_view()) {
            issue == "guard "@ + decimal(g as nat) + " reason must contain visible text and no control characters"@
        } else {
            formula_failure(gs[g].formula_item()@, ps, st, issue)
        }
    &&& (front && !slots_dense(ps, ParameterMode::Input)) ==> exists|k: int|
        first_gap(ps, ParameterMode::Input, k) && issue == gap_text(ParameterMode::Input, k)
    &&& (front && slots_dense(ps, ParameterMode::Input) && !slots_dense(ps, ParameterMode::Result)) ==> exists|k: int|
        first_gap(ps, ParameterMode::Result, k) && issue == gap_text(ParameterMode::Result, k)
    &&& (front && slots_dense(ps, ParameterMode::Input) && slots_dense(ps, ParameterMode::Result) && (forall|i: int|
        0 <= i < schema.guard_items().len() ==> guard_ok(#[trigger] schema.guard_items()[i], ps, st))
        && !effects_ok(schema.effect_items(), ps, st)) ==> effects_failure(schema.effect_items(), ps, st, issue)
}

/// Check one schema against the registered state vocabulary.
pub fn validate_schema(schema: &AffordanceSchema, state: &StateRegistry) -> (r: Result<(), SchemaError>)
    ensures
        r is Ok <==> schema_valid(schema, state@),
        r matches Err(e) ==> e.affordance_view() == schema.id_view(),
        r matches Err(e) ==> issue_stated(schema, state@, e.issue_view()),
{
    if !is_valid_label(schema.display_name()) {
        return Err(
            SchemaError::new(
                schema.id().clone(),
                "display name must contain visible text and no control characters".to_owned(),
            ),
        );
    }
    let ps = schema.parameters();
    let ghost pv = schema.params();
    let mut i: usize = 0;
    while i < ps.len()
        invariant
            i <= ps@.len(),
            pv == schema.params(),
            pv == ps@.map_values(|p: Parameter| p@),
            forall|a: int, b: int| 0 <= a < b < i ==> #[trigger] pv[a].id != #[trigger] pv[b].id,
            forall|a: int| 0 <= a < i ==> sort_ok(#[trigger] pv[a].sort, state@),
            forall|a: int, b: int|
                0 <= a < b < i && (#[trigger] pv[a]).mode == (#[trigger] pv[b]).mode ==> pv[a].slot
                    != pv[b].slot,
            forall|a: int| 0 <= a < i ==> param_fine(pv, state@, a),
            valid_label(schema.display_name_view()),
        decreases ps.len() - i,
    {
        assert(pv[i as int] == ps@[i as int]@);
        let mut j: usize = 0;
        while j < i
            invariant
                j <= i < ps@.len(),
                pv == ps@.map_values(|p: Parameter| p@),
                pv == schema.params(),
                forall|a: int| 0 <= a < j ==> pv[a].id != pv[i as int].id,
                forall|a: int| 0 <= a < i ==> param_fine(pv, state@, a),
                valid_label(schema.display_name_view()),
            decreases i - j,
        {
            assert(pv[j as int] == ps@[j as int]@);
            if ps[j].id().same(ps[i].id()) {
                assert(pv[j as int].id == pv[i as int].id);
                let mut m = String::new();
                m.append("duplicate parameter id ");
                m.append(ps[i].id().as_str());
                proof {
                    assert(!param_fine(pv, state@, i as int));
                    assert(m@ =~= param_issue(pv, state@, i as int));
                }
                return Err(SchemaError::new(schema.id().clone(), m));
            }
            j = j + 1;
        }
        match validate_sort(ps[i].sort(), state) {
            Err(m) => {
                proof {
                    assert(!param_fine(pv, state@, i as int));
                    assert(m@ == param_issue(pv, state@, i as int));
                }
                return Err(SchemaError::new(schema.id().clone(), m));
            },
            Ok(()) => {},
        }
        let mut j: usize = 0;
        while j < i
            invariant
                j <= i < ps@.len(),
                pv == ps@.map_values(|p: Parameter| p@),
                pv == schema.params(),
                forall|a: int|
                    0 <= a < j && pv[a].mode == pv[i as int].mode ==> pv[a].slot != pv[i as int].slot,
                forall|a: int| 0 <= a < i ==> param_fine(pv, state@, a),
                forall|a: int| 0 <= a < i ==> pv[a].id != pv[i as int].id,
                sort_ok(pv[i as int].sort, state@),
                valid_label(schema.display_name_view()),
            decreases i - j,
        {
            assert(pv[j as int] == ps@[j as int]@);
            if ps[j].mode() == ps[i].mode() && ps[j].slot() == ps[i].slot() {
                assert(pv[j as int].mode == pv[i as int].mode);
                let mut m = String::new();
                m.append("duplicate ");
                push_mode_name(&mut m, ps[i].mode());
                m.append(" slot ");
                push_decimal(&mut m, ps[i].slot() as u64);
                proof {
                    assert(!param_fine(pv, state@, i as int));
                    assert(m@ =~= param_issue(pv, state@, i as int));
                }
                return Err(SchemaError::new(schema.id().clone(), m));
            }
            j = j + 1;
        }
        i = i + 1;
    }
    match validate_dense_slots(ps, ParameterMode::Input) {
        Err(m) => {
            return Err(SchemaError::new(schema.id().clone(), m));
        },
        Ok(()) => {},
    }
    match validate_dense_slots(ps, ParameterMode::Result) {
        Err(m) => {
            return Err(SchemaError::new(schema.id().clone(), m));
        },
        Ok(()) => {},
    }
    let guards = schema.guards();
    let mut g: usize = 0;
    while g < guards.len()
        invariant
            g <= guards@.len(),
            guards@ == schema.guard_items(),
            slots_dense(schema.params(), ParameterMode::Input),
            slots_dense(schema.params(), ParameterMode::Result),
            forall|a: int| 0 <= a < g ==> guard_ok(#[trigger] guards@[a], schema.params(), state@),
            valid_label(schema.display_name_view()),
            params_ok(schema.params(), state@),
        decreases guards.len() - g,
    {
        if !is_valid_label(guards[g].reason()) {
            let mut m = String::new();
            m.append("guard ");
            push_decimal(&mut m, g as u64);
            m.append(" reason must contain visible text and no control characters");
            proof {
                assert(!guard_ok(guards@[g as int], schema.params(), state@));
            }
            return Err(SchemaError::new(schema.id().clone(), m));
        }
        match validate_formula(guards[g].formula(), schema, state) {
            Err(m) => {
                proof {
                    assert(!guard_ok(guards@[g as int], schema.params(), state@));
                }
                return Err(SchemaError::new(schema.id().clone(), m));
            },
            Ok(()) => {},
        }
        g = g + 1;
    }
    match validate_effects(schema, state) {
        Err(m) => Err(SchemaError::new(schema.id().clone(), m)),
        Ok(()) => Ok(()),
    }
}

} // verus!
