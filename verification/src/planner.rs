//! Bounded backward regression over canonical affordance schemas.
//!
//! Plan steps are canonical ground actions, so no planner-only frame or app
//! lowering step can drift from execution.

use vstd::prelude::*;
use crate::caps::Gate;
use crate::id::EntityId;
use crate::perform::AffordanceRegistry;
use crate::schema::{
    GroundActionV, Guard,
    AffordanceId, AffordanceSchema, Condition, ConditionV, Effect, EffectV, Formula, FormulaV,
    GroundAction, Local, LocalId, OptionalEntity, OptionalEntityV, Parameter, ParameterId,
    ParameterMode, ParameterV, Resolution, Term, TermV, Value, ValueSort, ValueSortV, ValueV,
    params_with_mode, sort_of,
};
use crate::state::{EvalCtx, StateV, ctx_of, local_value, locals_spec};
use crate::text::valid_name;
use crate::validation::{schema_valid, slots_dense, slots_distinct};
use crate::world_view::{WorldV, WorldView};

verus! {

/// Model of a list of parameter bindings.
pub open spec fn param_binds(b: Seq<(ParameterId, Value)>) -> Seq<(Seq<char>, ValueV)> {
    b.map_values(|x: (ParameterId, Value)| (x.0@, x.1@))
}

/// Model of a list of local bindings.
pub open spec fn local_binds(b: Seq<(LocalId, Value)>) -> Seq<(Seq<char>, ValueV)> {
    b.map_values(|x: (LocalId, Value)| (x.0@, x.1@))
}

/// The value a bound parameter holds.
pub fn find_param(binds: &[(ParameterId, Value)], id: &ParameterId) -> (r: Option<Value>)
    ensures
        match local_value(param_binds(binds@), id@) {
            Some(v) => r matches Some(x) && x@ == v,
            None => r is None,
        },
{
    let ghost bv = param_binds(binds@);
    assert(bv.take(binds@.len() as int) =~= bv);
    let mut i: usize = binds.len();
    while i > 0
        invariant
            i <= binds@.len(),
            bv == param_binds(binds@),
            local_value(bv, id@) == local_value(bv.take(i as int), id@),
        decreases i,
    {
        let ghost pre = bv.take(i as int);
        assert(pre.drop_last() =~= bv.take(i - 1));
        assert(pre.last() == (binds@[i - 1].0@, binds@[i - 1].1@));
        if binds[i - 1].0.same(id) {
            return Some(binds[i - 1].1.clone());
        }
        i = i - 1;
    }
    assert(bv.take(0) =~= Seq::<(Seq<char>, ValueV)>::empty());
    None
}

/// The value a bound local holds; the latest binding wins.
pub fn find_local_value(binds: &[(LocalId, Value)], id: &LocalId) -> (r: Option<Value>)
    ensures
        match local_value(local_binds(binds@), id@) {
            Some(v) => r matches Some(x) && x@ == v,
            None => r is None,
        },
{
    let ghost bv = local_binds(binds@);
    assert(bv.take(binds@.len() as int) =~= bv);
    let mut i: usize = binds.len();
    while i > 0
        invariant
            i <= binds@.len(),
            bv == local_binds(binds@),
            local_value(bv, id@) == local_value(bv.take(i as int), id@),
        decreases i,
    {
        let ghost pre = bv.take(i as int);
        assert(pre.drop_last() =~= bv.take(i - 1));
        assert(pre.last() == (binds@[i - 1].0@, binds@[i - 1].1@));
        if binds[i - 1].0.same(id) {
            return Some(binds[i - 1].1.clone());
        }
        i = i - 1;
    }
    assert(bv.take(0) =~= Seq::<(Seq<char>, ValueV)>::empty());
    None
}

/// The value a term denotes without any grounding: the actor or a constant.
pub open spec fn ground_term_spec(t: TermV, actor: u64) -> Option<ValueV> {
    match t {
        TermV::Actor => Some(ValueV::Entity(actor)),
        TermV::Constant(v) => Some(v),
        _ => None,
    }
}

/// Ground a term that needs no bindings.
pub fn ground_term(term: &Term, actor: EntityId) -> (r: Option<Value>)
    ensures
        match ground_term_spec(term@, actor.0) {
            Some(v) => r matches Some(x) && x@ == v,
            None => r is None,
        },
{
    match term {
        Term::Actor => Some(Value::Entity(actor)),
        Term::Constant(value) => Some(value.clone()),
        _ => None,
    }
}

/// Unify an effect's term with a wanted ground term: an input is bound (or
/// must already be bound) to the wanted value; the actor and constants must
/// equal it; results and locals never unify. `None` when unification fails.
pub open spec fn unify_spec(
    offered: TermV,
    wanted: TermV,
    actor: u64,
    b: Seq<(Seq<char>, ValueV)>,
) -> Option<Seq<(Seq<char>, ValueV)>> {
    match ground_term_spec(wanted, actor) {
        None => None,
        Some(w) => match offered {
            TermV::Actor => if w == ValueV::Entity(actor) {
                Some(b)
            } else {
                None
            },
            TermV::Input(id) => match local_value(b, id) {
                Some(v) => if v == w {
                    Some(b)
                } else {
                    None
                },
                None => Some(b.push((id, w))),
            },
            TermV::Constant(v) => if v == w {
                Some(b)
            } else {
                None
            },
            _ => None,
        },
    }
}

/// Two unifications in sequence.
pub open spec fn unify_both(
    o1: TermV,
    w1: TermV,
    o2: TermV,
    w2: TermV,
    actor: u64,
    b: Seq<(Seq<char>, ValueV)>,
) -> Option<Seq<(Seq<char>, ValueV)>> {
    match unify_spec(o1, w1, actor, b) {
        None => None,
        Some(b1) => unify_spec(o2, w2, actor, b1),
    }
}

/// Unify `offered` with `wanted`, extending `bindings` on success.
pub fn unify(offered: &Term, wanted: &Term, actor: EntityId, bindings: &mut Vec<(ParameterId, Value)>) -> (r: bool)
    ensures
        r == unify_spec(offered@, wanted@, actor.0, param_binds(old(bindings)@)) is Some,
        r ==> param_binds(final(bindings)@) == unify_spec(offered@, wanted@, actor.0, param_binds(old(bindings)@))->0,
        !r ==> final(bindings)@ == old(bindings)@,
{
    let wanted = match ground_term(wanted, actor) {
        Some(w) => w,
        None => {
            return false;
        },
    };
    match offered {
        Term::Actor => wanted.same(&Value::Entity(actor)),
        Term::Input(id) => match find_param(bindings.as_slice(), id) {
            Some(bound) => bound.same(&wanted),
            None => {
                let ghost before = param_binds(bindings@);
                bindings.push((id.clone(), wanted));
                assert(param_binds(bindings@) =~= before.push((id@, wanted@)));
                true
            },
        },
        Term::Constant(value) => value.same(&wanted),
        _ => false,
    }
}

/// The seed bindings under which `effect` makes `goal` true, if it can.
pub open spec fn match_spec(e: EffectV, g: ConditionV, actor: u64) -> Option<Seq<(Seq<char>, ValueV)>> {
    let none = Seq::<(Seq<char>, ValueV)>::empty();
    match e {
        EffectV::SetRelation { source, relation, target } => match g {
            ConditionV::RelationTarget { source: ws, relation: wr, target: OptionalEntityV::Is(wt) } =>
                if relation == wr {
                unify_both(source, ws, target, wt, actor, none)
            } else {
                None
            },
            _ => None,
        },
        EffectV::ClearRelation { source, relation } => match g {
            ConditionV::RelationTarget { source: ws, relation: wr, target: OptionalEntityV::IsUnset } =>
                if relation == wr {
                unify_spec(source, ws, actor, none)
            } else {
                None
            },
            _ => None,
        },
        EffectV::SetComponent { entity, component } => match g {
            ConditionV::ComponentPresent { entity: we, component: wc, present: true } => if component
                == wc {
                unify_spec(entity, we, actor, none)
            } else {
                None
            },
            _ => None,
        },
        EffectV::RemoveComponent { entity, component } => match g {
            ConditionV::ComponentPresent { entity: we, component: wc, present: false } => if component
                == wc {
                unify_spec(entity, we, actor, none)
            } else {
                None
            },
            _ => None,
        },
        EffectV::SetLocus { entity, locus } => match g {
            ConditionV::LocusOf { entity: we, locus: OptionalEntityV::Is(wl) } => unify_both(
                entity,
                we,
                locus,
                wl,
                actor,
                none,
            ),
            _ => None,
        },
        EffectV::ClearLocus { entity } => match g {
            ConditionV::LocusOf { entity: we, locus: OptionalEntityV::IsUnset } => unify_spec(
                entity,
                we,
                actor,
                none,
            ),
            _ => None,
        },
        EffectV::Destroy { entity } => match g {
            ConditionV::Exists { entity: we, exists: false } => unify_spec(entity, we, actor, none),
            _ => None,
        },
        _ => None,
    }
}

/// The input bindings under which `effect` achieves `goal`, if any.
pub fn match_effect(effect: &Effect, goal: &Condition, actor: EntityId) -> (r: Option<Vec<(ParameterId, Value)>>)
    ensures
        match match_spec(effect@, goal@, actor.0) {
            Some(b) => r matches Some(x) && param_binds(x@) == b,
            None => r is None,
        },
{
    let mut bindings: Vec<(ParameterId, Value)> = Vec::new();
    assert(param_binds(bindings@) =~= Seq::<(Seq<char>, ValueV)>::empty());
    let matched = match effect {
        Effect::SetRelation { source, relation, target } => match goal {
            Condition::RelationTarget { source: ws, relation: wr, target: OptionalEntity::Is(wt) } => {
                if relation.same(wr) {
                    unify(source, ws, actor, &mut bindings) && unify(target, wt, actor, &mut bindings)
                } else {
                    false
                }
            },
            _ => false,
        },
        Effect::ClearRelation { source, relation } => match goal {
            Condition::RelationTarget { source: ws, relation: wr, target: OptionalEntity::IsUnset } => {
                relation.same(wr) && unify(source, ws, actor, &mut bindings)
            },
            _ => false,
        },
        Effect::SetComponent { entity, component } => match goal {
            Condition::ComponentPresent { entity: we, component: wc, present } => {
                *present && component.same(wc) && unify(entity, we, actor, &mut bindings)
            },
            _ => false,
        },
        Effect::RemoveComponent { entity, component } => match goal {
            Condition::ComponentPresent { entity: we, component: wc, present } => {
                !*present && component.same(wc) && unify(entity, we, actor, &mut bindings)
            },
            _ => false,
        },
        Effect::SetLocus { entity, locus } => match goal {
            Condition::LocusOf { entity: we, locus: OptionalEntity::Is(wl) } => {
                unify(entity, we, actor, &mut bindings) && unify(locus, wl, actor, &mut bindings)
            },
            _ => false,
        },
        Effect::ClearLocus { entity } => match goal {
            Condition::LocusOf { entity: we, locus: OptionalEntity::IsUnset } => {
                unify(entity, we, actor, &mut bindings)
            },
            _ => false,
        },
        Effect::Destroy { entity } => match goal {
            Condition::Exists { entity: we, exists } => {
                !*exists && unify(entity, we, actor, &mut bindings)
            },
            _ => false,
        },
        _ => false,
    };
    if matched {
        Some(bindings)
    } else {
        None
    }
}

/// Model of a term rewriting.
pub enum TermMapV {
    /// Replace each local by the constant it is bound to.
    Locals(Seq<(Seq<char>, ValueV)>),
    /// Replace each input by the constant it is bound to; keep the actor and
    /// constants; results and locals cannot be grounded.
    Inputs(Seq<(Seq<char>, ValueV)>),
    /// Replace the actor by its entity.
    Actor(u64),
}

/// A term rewriting applied across a condition.
pub enum TermMap<'a> {
    Locals(&'a [(LocalId, Value)]),
    Inputs(&'a [(ParameterId, Value)]),
    Actor(EntityId),
}

impl<'a> View for TermMap<'a> {
    type V = TermMapV;

    open spec fn view(&self) -> TermMapV {
        match self {
            TermMap::Locals(b) => TermMapV::Locals(local_binds(b@)),
            TermMap::Inputs(b) => TermMapV::Inputs(param_binds(b@)),
            TermMap::Actor(a) => TermMapV::Actor(a.0),
        }
    }
}

/// The rewriting of one term; `None` when it cannot be rewritten.
pub open spec fn map_term_spec(m: TermMapV, t: TermV) -> Option<TermV> {
    match m {
        TermMapV::Locals(b) => match t {
            TermV::Local(id) => match local_value(b, id) {
                Some(v) => Some(TermV::Constant(v)),
                None => None,
            },
            _ => Some(t),
        },
        TermMapV::Inputs(b) => match t {
            TermV::Actor => Some(TermV::Actor),
            TermV::Input(id) => match local_value(b, id) {
                Some(v) => Some(TermV::Constant(v)),
                None => None,
            },
            TermV::Constant(v) => Some(TermV::Constant(v)),
            _ => None,
        },
        TermMapV::Actor(a) => match t {
            TermV::Actor => Some(TermV::Constant(ValueV::Entity(a))),
            _ => Some(t),
        },
    }
}

pub open spec fn map_optional_spec(m: TermMapV, o: OptionalEntityV) -> Option<OptionalEntityV> {
    match o {
        OptionalEntityV::Is(t) => match map_term_spec(m, t) {
            Some(x) => Some(OptionalEntityV::Is(x)),
            None => None,
        },
        OptionalEntityV::IsUnset => Some(OptionalEntityV::IsUnset),
        OptionalEntityV::IsNot(t) => match map_term_spec(m, t) {
            Some(x) => Some(OptionalEntityV::IsNot(x)),
            None => None,
        },
    }
}

/// The rewriting of every term of a condition; `None` when some term cannot
/// be rewritten.
pub open spec fn map_condition_spec(m: TermMapV, c: ConditionV) -> Option<ConditionV> {
    match c {
        ConditionV::RelationTarget { source, relation, target } => match map_term_spec(m, source) {
            Some(s) => match map_optional_spec(m, target) {
                Some(t) => Some(ConditionV::RelationTarget { source: s, relation, target: t }),
                None => None,
            },
            None => None,
        },
        ConditionV::ComponentPresent { entity, component, present } => match map_term_spec(m, entity) {
            Some(e) => Some(ConditionV::ComponentPresent { entity: e, component, present }),
            None => None,
        },
        ConditionV::LocusOf { entity, locus } => match map_term_spec(m, entity) {
            Some(e) => match map_optional_spec(m, locus) {
                Some(l) => Some(ConditionV::LocusOf { entity: e, locus: l }),
                None => None,
            },
            None => None,
        },
        ConditionV::GaugeAtLeast { entity, gauge, region } => match map_term_spec(m, entity) {
            Some(e) => Some(ConditionV::GaugeAtLeast { entity: e, gauge, region }),
            None => None,
        },
        ConditionV::GaugeAtMost { entity, gauge, region } => match map_term_spec(m, entity) {
            Some(e) => Some(ConditionV::GaugeAtMost { entity: e, gauge, region }),
            None => None,
        },
        ConditionV::Exists { entity, exists } => match map_term_spec(m, entity) {
            Some(e) => Some(ConditionV::Exists { entity: e, exists }),
            None => None,
        },
        ConditionV::Distinct { left, right } => match map_term_spec(m, left) {
            Some(l) => match map_term_spec(m, right) {
                Some(r) => Some(ConditionV::Distinct { left: l, right: r }),
                None => None,
            },
            None => None,
        },
    }
}

/// Rewrite one term.
pub fn map_term(m: &TermMap, term: &Term) -> (r: Option<Term>)
    ensures
        match map_term_spec(m@, term@) {
            Some(t) => r matches Some(x) && x@ == t,
            None => r is None,
        },
{
    match m {
        TermMap::Locals(b) => match term {
            Term::Local(id) => match find_local_value(b, id) {
                Some(v) => Some(Term::Constant(v)),
                None => None,
            },
            _ => Some(term.clone()),
        },
        TermMap::Inputs(b) => match term {
            Term::Actor => Some(Term::Actor),
            Term::Input(id) => match find_param(b, id) {
                Some(v) => Some(Term::Constant(v)),
                None => None,
            },
            Term::Constant(v) => Some(Term::Constant(v.clone())),
            _ => None,
        },
        TermMap::Actor(a) => match term {
            Term::Actor => Some(Term::Constant(Value::Entity(*a))),
            _ => Some(term.clone()),
        },
    }
}

fn map_optional(m: &TermMap, value: &OptionalEntity) -> (r: Option<OptionalEntity>)
    ensures
        match map_optional_spec(m@, value@) {
            Some(o) => r matches Some(x) && x@ == o,
            None => r is None,
        },
{
    match value {
        OptionalEntity::Is(t) => match map_term(m, t) {
            Some(x) => Some(OptionalEntity::Is(x)),
            None => None,
        },
        OptionalEntity::IsUnset => Some(OptionalEntity::IsUnset),
        OptionalEntity::IsNot(t) => match map_term(m, t) {
            Some(x) => Some(OptionalEntity::IsNot(x)),
            None => None,
        },
    }
}

/// Rewrite every term of `condition` by `m`, or `None` when some term cannot
/// be rewritten.
pub fn map_condition(condition: &Condition, m: &TermMap) -> (r: Option<Condition>)
    ensures
        match map_condition_spec(m@, condition@) {
            Some(c) => r matches Some(x) && x@ == c,
            None => r is None,
        },
{
    match condition {
        Condition::RelationTarget { source, relation, target } => {
            let s = match map_term(m, source) {
                Some(s) => s,
                None => {
                    return None;
                },
            };
            let t = match map_optional(m, target) {
                Some(t) => t,
                None => {
                    return None;
                },
            };
            Some(Condition::RelationTarget { source: s, relation: relation.clone(), target: t })
        },
        Condition::ComponentPresent { entity, component, present } => match map_term(m, entity) {
            Some(e) => Some(Condition::ComponentPresent { entity: e, component: component.clone(), present: *present }),
            None => None,
        },
        Condition::LocusOf { entity, locus } => {
            let e = match map_term(m, entity) {
                Some(e) => e,
                None => {
                    return None;
                },
            };
            let l = match map_optional(m, locus) {
                Some(l) => l,
                None => {
                    return None;
                },
            };
            Some(Condition::LocusOf { entity: e, locus: l })
        },
        Condition::GaugeAtLeast { entity, gauge, region } => match map_term(m, entity) {
            Some(e) => Some(Condition::GaugeAtLeast { entity: e, gauge: gauge.clone(), region: region.clone() }),
            None => None,
        },
        Condition::GaugeAtMost { entity, gauge, region } => match map_term(m, entity) {
            Some(e) => Some(Condition::GaugeAtMost { entity: e, gauge: gauge.clone(), region: region.clone() }),
            None => None,
        },
        Condition::Exists { entity, exists } => match map_term(m, entity) {
            Some(e) => Some(Condition::Exists { entity: e, exists: *exists }),
            None => None,
        },
        Condition::Distinct { left, right } => {
            let l = match map_term(m, left) {
                Some(l) => l,
                None => {
                    return None;
                },
            };
            let r = match map_term(m, right) {
                Some(r) => r,
                None => {
                    return None;
                },
            };
            Some(Condition::Distinct { left: l, right: r })
        },
    }
}

/// The entity a term names as a constant, if it does.
pub open spec fn constant_entity(t: TermV) -> Seq<u64> {
    match t {
        TermV::Constant(ValueV::Entity(e)) => seq![e],
        _ => Seq::empty(),
    }
}

pub open spec fn optional_entities(o: OptionalEntityV) -> Seq<u64> {
    match o {
        OptionalEntityV::Is(t) => constant_entity(t),
        OptionalEntityV::IsNot(t) => constant_entity(t),
        OptionalEntityV::IsUnset => Seq::empty(),
    }
}

/// The constant entities a condition mentions, in term order.
pub open spec fn condition_entities(c: ConditionV) -> Seq<u64> {
    match c {
        ConditionV::RelationTarget { source, target, .. } => constant_entity(source) + optional_entities(target),
        ConditionV::ComponentPresent { entity, .. } => constant_entity(entity),
        ConditionV::LocusOf { entity, locus } => constant_entity(entity) + optional_entities(locus),
        ConditionV::GaugeAtLeast { entity, .. } => constant_entity(entity),
        ConditionV::GaugeAtMost { entity, .. } => constant_entity(entity),
        ConditionV::Exists { entity, .. } => constant_entity(entity),
        ConditionV::Distinct { left, right } => constant_entity(left) + constant_entity(right),
    }
}

fn collect_term(t: &Term, out: &mut Vec<EntityId>)
    ensures
        final(out)@.map_values(|e: EntityId| e.0) == old(out)@.map_values(|e: EntityId| e.0) + constant_entity(t@),
{
    let ghost before = out@.map_values(|e: EntityId| e.0);
    match t {
        Term::Constant(Value::Entity(e)) => {
            out.push(*e);
            assert(out@.map_values(|e: EntityId| e.0) =~= before + seq![e.0]);
        },
        _ => {
            assert(before + constant_entity(t@) =~= before);
        },
    }
}

fn collect_optional(o: &OptionalEntity, out: &mut Vec<EntityId>)
    ensures
        final(out)@.map_values(|e: EntityId| e.0) == old(out)@.map_values(|e: EntityId| e.0) + optional_entities(o@),
{
    match o {
        OptionalEntity::Is(t) => collect_term(t, out),
        OptionalEntity::IsNot(t) => collect_term(t, out),
        OptionalEntity::IsUnset => {
            assert(out@.map_values(|e: EntityId| e.0) + optional_entities(o@) =~= out@.map_values(|e: EntityId| e.0));
        },
    }
}

/// Append the constant entities `condition` mentions to `out`.
pub fn collect_entities(condition: &Condition, out: &mut Vec<EntityId>)
    ensures
        final(out)@.map_values(|e: EntityId| e.0) == old(out)@.map_values(|e: EntityId| e.0) + condition_entities(condition@),
{
    let ghost before = out@.map_values(|e: EntityId| e.0);
    match condition {
        Condition::RelationTarget { source, target, .. } => {
            collect_term(source, out);
            collect_optional(target, out);
            assert(before + constant_entity(source@) + optional_entities(target@) =~= before + (constant_entity(source@) + optional_entities(target@)));
        },
        Condition::ComponentPresent { entity, .. } => collect_term(entity, out),
        Condition::LocusOf { entity, locus } => {
            collect_term(entity, out);
            collect_optional(locus, out);
            assert(before + constant_entity(entity@) + optional_entities(locus@) =~= before + (constant_entity(entity@) + optional_entities(locus@)));
        },
        Condition::GaugeAtLeast { entity, .. } => collect_term(entity, out),
        Condition::GaugeAtMost { entity, .. } => collect_term(entity, out),
        Condition::Exists { entity, .. } => collect_term(entity, out),
        Condition::Distinct { left, right } => {
            collect_term(left, out);
            collect_term(right, out);
            assert(before + constant_entity(left@) + constant_entity(right@) =~= before + (constant_entity(left@) + constant_entity(right@)));
        },
    }
}

/// Model of a list of conditions.
pub open spec fn conds_view(v: Seq<Condition>) -> Seq<ConditionV> {
    v.map_values(|c: Condition| c@)
}

/// Model of a list of condition lists.
pub open spec fn goals_view(v: Seq<Vec<Condition>>) -> Seq<Seq<ConditionV>> {
    v.map_values(|g: Vec<Condition>| conds_view(g@))
}

/// Conditions `k..` with their locals replaced by their bound constants, or
/// `None` when some local is unbound.
pub open spec fn subst_from(cs: Seq<ConditionV>, k: nat, b: Seq<(Seq<char>, ValueV)>) -> Option<Seq<ConditionV>>
    decreases cs.len() - k,
{
    if k >= cs.len() {
        Some(Seq::empty())
    } else {
        match map_condition_spec(TermMapV::Locals(b), cs[k as int]) {
            None => None,
            Some(c) => match subst_from(cs, k + 1, b) {
                None => None,
                Some(rest) => Some(seq![c] + rest),
            },
        }
    }
}

/// The ground condition lists of a goal from local `at` on: each local of
/// entity sort ranges over `known` in order; a local of another sort yields
/// nothing.
pub open spec fn goals_from(f: FormulaV, at: nat, known: Seq<u64>, b: Seq<(Seq<char>, ValueV)>) -> Seq<Seq<ConditionV>>
    decreases f.locals.len() - at, 1nat, 0nat,
{
    if at >= f.locals.len() {
        match subst_from(f.conditions, 0, b) {
            Some(cs) => seq![cs],
            None => Seq::empty(),
        }
    } else if f.locals[at as int].1 != ValueSortV::Entity {
        Seq::empty()
    } else {
        goals_over(f, at, known, 0, b)
    }
}

pub open spec fn goals_over(f: FormulaV, at: nat, known: Seq<u64>, k: nat, b: Seq<(Seq<char>, ValueV)>) -> Seq<Seq<ConditionV>>
    decreases f.locals.len() - at, 0nat, known.len() - k,
{
    if at >= f.locals.len() || k >= known.len() {
        Seq::empty()
    } else {
        goals_from(f, at + 1, known, b.push((f.locals[at as int].0, ValueV::Entity(known[k as int]))))
            + goals_over(f, at, known, k + 1, b)
    }
}

/// Model of a list of entities.
pub open spec fn entities_view(v: Seq<EntityId>) -> Seq<u64> {
    v.map_values(|e: EntityId| e.0)
}

fn subst_locals(conditions: &[Condition], binds: &[(LocalId, Value)]) -> (r: Option<Vec<Condition>>)
    ensures
        match subst_from(conds_view(conditions@), 0, local_binds(binds@)) {
            Some(cs) => r matches Some(x) && conds_view(x@) == cs,
            None => r is None,
        },
{
    let ghost cs = conds_view(conditions@);
    let ghost b = local_binds(binds@);
    let m = TermMap::Locals(binds);
    let mut out: Vec<Condition> = Vec::new();
    assert(conds_view(out@) =~= Seq::<ConditionV>::empty());
    assert(subst_from(cs, 0, b) == match subst_from(cs, 0, b) {
        None => None,
        Some(r) => Some(conds_view(out@) + r),
    }) by {
        if let Some(r) = subst_from(cs, 0, b) {
            assert(conds_view(out@) + r =~= r);
        }
    }
    let mut k: usize = 0;
    while k < conditions.len()
        invariant
            k <= conditions@.len(),
            cs == conds_view(conditions@),
            b == local_binds(binds@),
            m@ == TermMapV::Locals(b),
            conds_view(out@).len() == k,
            subst_from(cs, 0, b) == match subst_from(cs, k as nat, b) {
                None => None,
                Some(r) => Some(conds_view(out@) + r),
            },
        decreases conditions.len() - k,
    {
        let ghost prev = conds_view(out@);
        match map_condition(&conditions[k], &m) {
            None => {
                return None;
            },
            Some(c) => {
                let ghost cv = c@;
                assert(cs[k as int] == conditions@[k as int]@);
                out.push(c);
                proof {
                    assert(conds_view(out@) =~= prev.push(cv));
                    if let Some(rest) = subst_from(cs, (k + 1) as nat, b) {
                        assert(prev + (seq![cv] + rest) =~= prev.push(cv) + rest);
                    }
                }
            },
        }
        k = k + 1;
    }
    Some(out)
}

fn visit_goals(
    at: usize,
    goal: &Formula,
    known: &[EntityId],
    bindings: &mut Vec<(LocalId, Value)>,
    out: &mut Vec<Vec<Condition>>,
)
    requires
        at <= goal@.locals.len(),
    ensures
        final(bindings)@ == old(bindings)@,
        goals_view(final(out)@) == goals_view(old(out)@) + goals_from(
            goal@,
            at as nat,
            entities_view(known@),
            local_binds(old(bindings)@),
        ),
    decreases goal@.locals.len() - at,
{
    let ghost f = goal@;
    let ghost kn = entities_view(known@);
    let ghost b0 = local_binds(bindings@);
    let locals = goal.locals();
    if at >= locals.len() {
        let ghost before = goals_view(out@);
        match subst_locals(goal.conditions(), bindings.as_slice()) {
            Some(cs) => {
                out.push(cs);
                assert(goals_view(out@) =~= before + seq![conds_view(cs@)]);
            },
            None => {
                assert(goals_view(out@) =~= before + Seq::<Seq<ConditionV>>::empty());
            },
        }
        return;
    }
    let local = &locals[at];
    assert(f.locals[at as int] == local@);
    if !local.sort().is_entity() {
        assert(goals_view(out@) =~= goals_view(out@) + Seq::<Seq<ConditionV>>::empty());
        return;
    }
    let next = at + 1;
    let ghost orig = bindings@;
    let ghost start = goals_view(out@);
    assert(goals_view(out@) + goals_over(f, at as nat, kn, 0, b0) =~= start + goals_over(f, at as nat, kn, 0, b0));
    let mut k: usize = 0;
    while k < known.len()
        invariant
            k <= known@.len(),
            at < f.locals.len(),
            next == at + 1,
            f == goal@,
            kn == entities_view(known@),
            f.locals[at as int] == local@,
            bindings@ == orig,
            b0 == local_binds(orig),
            goals_view(out@) + goals_over(f, at as nat, kn, k as nat, b0) == start + goals_over(f, at as nat, kn, 0, b0),
        decreases known.len() - k,
    {
        let ghost before = goals_view(out@);
        bindings.push((local.id().clone(), Value::Entity(known[k])));
        proof {
            assert(local_binds(bindings@) =~= b0.push((f.locals[at as int].0, ValueV::Entity(kn[k as int]))));
        }
        visit_goals(next, goal, known, bindings, out);
        bindings.pop();
        assert(bindings@ =~= orig);
        proof {
            let g = goals_from(f, (at + 1) as nat, kn, b0.push((f.locals[at as int].0, ValueV::Entity(kn[k as int]))));
            let rest = goals_over(f, at as nat, kn, (k + 1) as nat, b0);
            assert(goals_over(f, at as nat, kn, k as nat, b0) == g + rest);
            assert(goals_view(out@) == before + g);
            assert(before + (g + rest) =~= (before + g) + rest);
        }
        k = k + 1;
    }
    assert(goals_over(f, at as nat, kn, k as nat, b0) =~= Seq::<Seq<ConditionV>>::empty());
    assert(goals_view(out@) + Seq::<Seq<ConditionV>>::empty() =~= goals_view(out@));
}

/// The ground condition lists of `goal`: one per assignment of `known`
/// entities to its locals, in order, omitting assignments that leave some
/// local unbound.
pub fn ground_goals(goal: &Formula, known: &[EntityId]) -> (r: Vec<Vec<Condition>>)
    ensures
        goals_view(r@) == goals_from(goal@, 0, entities_view(known@), Seq::empty()),
{
    let mut out: Vec<Vec<Condition>> = Vec::new();
    let mut bindings: Vec<(LocalId, Value)> = Vec::new();
    assert(goals_view(out@) =~= Seq::<Seq<ConditionV>>::empty());
    assert(local_binds(bindings@) =~= Seq::<(Seq<char>, ValueV)>::empty());
    visit_goals(0, goal, known, &mut bindings, &mut out);
    assert(goals_view(out@) =~= goals_from(goal@, 0, entities_view(known@), Seq::empty()));
    out
}

/// The evaluation context of a lone goal condition for `actor`.
pub open spec fn goal_ctx(actor: u64) -> EvalCtx {
    EvalCtx { params: Seq::empty(), actor, inputs: Seq::empty(), results: Seq::empty() }
}

/// Whether `c` holds for `actor`; an evaluation error counts as not holding.
pub open spec fn holds_spec(st: StateV, w: WorldV, actor: u64, c: ConditionV) -> bool {
    match locals_spec(
        FormulaV { locals: Seq::empty(), conditions: seq![c] },
        0,
        st,
        w,
        goal_ctx(actor),
        Seq::empty(),
    ) {
        Ok(b) => b,
        Err(_) => false,
    }
}

proof fn lemma_goal_id_valid()
    ensures
        valid_name("agency:goal"@),
{
    reveal_strlit("agency:goal");
    let s = "agency:goal"@;
    assert(s.len() == 11);
    assert forall|i: int| 0 <= i < s.len() implies !crate::text::is_ws(#[trigger] s[i]) && !crate::text::is_ctrl(s[i]) by {
        if i == 0 {
        } else if i == 1 {
        } else if i == 2 {
        } else if i == 3 {
        } else if i == 4 {
        } else if i == 5 {
        } else if i == 6 {
        } else if i == 7 {
        } else if i == 8 {
        } else if i == 9 {
        } else {
            assert(i == 10);
        }
    }
}

/// Whether `condition` holds for `actor` in `world`, judged as a goal with no
/// grounding: an evaluation error counts as not holding.
pub fn holds(registry: &AffordanceRegistry, actor: EntityId, condition: &Condition, world: &WorldView) -> (r: bool)
    ensures
        r == holds_spec(registry.state_view(), world@, actor.0, condition@),
{
    proof {
        lemma_goal_id_valid();
    }
    let id = match AffordanceId::new("agency:goal") {
        Ok(id) => id,
        Err(_) => {
            return false;
        },
    };
    let schema = AffordanceSchema::new(
        id,
        "agency goal",
        Vec::new(),
        Vec::new(),
        Vec::new(),
        Gate::Open,
        Resolution::Opaque,
    );
    let action = GroundAction::new(schema.id().clone(), actor, Vec::new());
    let formula = Formula::all(vec![condition.clone()]);
    proof {
        assert(schema.params() =~= Seq::<ParameterV>::empty());
        assert(action@.inputs =~= Seq::<ValueV>::empty());
        assert(formula@.conditions =~= seq![condition@]);
        assert(formula@.locals =~= Seq::<(Seq<char>, ValueSortV)>::empty());
    }
    match registry.state().evaluate(&formula, &schema, &action, None, world) {
        Ok(b) => b,
        Err(_) => false,
    }
}

/// The constant entities mentioned across `cs`, in order.
pub open spec fn all_entities(cs: Seq<ConditionV>) -> Seq<u64>
    decreases cs.len(),
{
    if cs.len() == 0 {
        Seq::empty()
    } else {
        all_entities(cs.drop_last()) + condition_entities(cs.last())
    }
}

/// A strictly increasing list of entity ids.
pub open spec fn strictly_increasing(s: Seq<u64>) -> bool {
    forall|i: int, j: int| 0 <= i < j < s.len() ==> #[trigger] s[i] < #[trigger] s[j]
}

/// The entities of `v`, each once, in increasing order.
fn sorted_unique(v: Vec<EntityId>) -> (r: Vec<EntityId>)
    ensures
        strictly_increasing(entities_view(r@)),
        entities_view(r@).to_set() == entities_view(v@).to_set(),
{
    let ghost input = entities_view(v@);
    let mut out: Vec<EntityId> = Vec::new();
    assert(entities_view(out@).to_set() =~= input.take(0).to_set()) by {
        assert(entities_view(out@) =~= Seq::<u64>::empty());
        assert(input.take(0) =~= Seq::<u64>::empty());
    }
    let mut k: usize = 0;
    while k < v.len()
        invariant
            k <= v@.len(),
            input == entities_view(v@),
            strictly_increasing(entities_view(out@)),
            entities_view(out@).to_set() == input.take(k as int).to_set(),
        decreases v.len() - k,
    {
        let e = v[k];
        let ghost o = entities_view(out@);
        assert(input[k as int] == e.0);
        let mut p: usize = 0;
        while p < out.len() && out[p].0 < e.0
            invariant
                p <= out@.len(),
                o == entities_view(out@),
                forall|j: int| 0 <= j < p ==> #[trigger] o[j] < e.0,
            decreases out.len() - p,
        {
            p = p + 1;
        }
        proof {
            assert(input.take(k + 1) =~= input.take(k as int).push(e.0));
            assert(input.take(k as int).push(e.0).to_set() =~= input.take(k as int).to_set().insert(e.0)) by {
                vstd::seq_lib::seq_to_set_is_finite(input.take(k as int));
                assert forall|x: u64| input.take(k as int).push(e.0).to_set().contains(x) <==> input.take(k as int).to_set().insert(e.0).contains(x) by {
                    if input.take(k as int).push(e.0).contains(x) && x != e.0 {
                        let i = choose|i: int| 0 <= i < input.take(k as int).push(e.0).len() && input.take(k as int).push(e.0)[i] == x;
                        assert(input.take(k as int)[i] == x);
                    }
                    if input.take(k as int).contains(x) {
                        let i = choose|i: int| 0 <= i < input.take(k as int).len() && input.take(k as int)[i] == x;
                        assert(input.take(k as int).push(e.0)[i] == x);
                    }
                    if x == e.0 {
                        assert(input.take(k as int).push(e.0)[k as int] == x);
                    }
                }
            }
        }
        if p < out.len() && out[p].0 == e.0 {
            proof {
                assert(o.to_set().contains(e.0)) by {
                    assert(o[p as int] == e.0);
                }
                assert(o.to_set().insert(e.0) =~= o.to_set());
            }
        } else {
            out.insert(p, e);
            proof {
                let o2 = entities_view(out@);
                assert(o2 =~= o.insert(p as int, e.0));
                assert forall|i: int, j: int| 0 <= i < j < o2.len() implies #[trigger] o2[i] < #[trigger] o2[j] by {
                    if i == p {
                        assert(o2[j] == o[j - 1]);
                        assert(!(o[p as int] < e.0));
                        if j - 1 > p {
                            assert(o[p as int] < o[j - 1]);
                        }
                    } else if j == p {
                        assert(o2[i] == o[i]);
                    } else if i < p && j > p {
                        assert(o2[i] == o[i] && o2[j] == o[j - 1]);
                        assert(o[i] < e.0);
                        if j - 1 > p {
                            assert(o[p as int] < o[j - 1]);
                        }
                        assert(!(o[p as int] < e.0));
                    }
                }
                assert forall|x: u64| o2.to_set().contains(x) <==> o.to_set().insert(e.0).contains(x) by {
                    if o2.contains(x) {
                        let i = choose|i: int| 0 <= i < o2.len() && o2[i] == x;
                        if i < p {
                            assert(o[i] == x);
                        } else if i > p {
                            assert(o[i - 1] == x);
                        }
                    }
                    if o.contains(x) {
                        let i = choose|i: int| 0 <= i < o.len() && o[i] == x;
                        if i < p {
                            assert(o2[i] == x);
                        } else {
                            assert(o2[i + 1] == x);
                        }
                    }
                    if x == e.0 {
                        assert(o2[p as int] == x);
                    }
                }
                assert(o2.to_set() =~= o.to_set().insert(e.0));
            }
        }
        k = k + 1;
    }
    assert(input.take(v@.len() as int) =~= input);
    out
}

/// The entities a search may bind inputs to: those known and those the
/// conditions mention, each once, in increasing order.
pub fn candidate_entities(known: &[EntityId], conditions: &[Condition]) -> (r: Vec<EntityId>)
    ensures
        strictly_increasing(entities_view(r@)),
        entities_view(r@).to_set() == (entities_view(known@) + all_entities(conds_view(conditions@))).to_set(),
{
    let mut entities: Vec<EntityId> = Vec::new();
    let mut i: usize = 0;
    while i < known.len()
        invariant
            i <= known@.len(),
            entities_view(entities@) == entities_view(known@).take(i as int),
        decreases known.len() - i,
    {
        let ghost prev = entities_view(entities@);
        entities.push(known[i]);
        assert(entities_view(entities@) =~= prev.push(known@[i as int].0));
        assert(entities_view(known@).take(i + 1) =~= entities_view(known@).take(i as int).push(known@[i as int].0));
        i = i + 1;
    }
    assert(entities_view(known@).take(known@.len() as int) =~= entities_view(known@));
    let ghost cs = conds_view(conditions@);
    assert(entities_view(entities@) =~= entities_view(known@) + all_entities(cs.take(0))) by {
        assert(cs.take(0) =~= Seq::<ConditionV>::empty());
    }
    let mut k: usize = 0;
    while k < conditions.len()
        invariant
            k <= conditions@.len(),
            cs == conds_view(conditions@),
            entities_view(entities@) == entities_view(known@) + all_entities(cs.take(k as int)),
        decreases conditions.len() - k,
    {
        collect_entities(&conditions[k], &mut entities);
        proof {
            assert(cs.take(k + 1).drop_last() =~= cs.take(k as int));
            assert(cs.take(k + 1).last() == conditions@[k as int]@);
            assert(entities_view(known@) + all_entities(cs.take(k as int)) + condition_entities(conditions@[k as int]@)
                =~= entities_view(known@) + all_entities(cs.take(k + 1)));
        }
        k = k + 1;
    }
    assert(cs.take(conditions@.len() as int) =~= cs);
    sorted_unique(entities)
}

/// Model of a list of binding lists.
pub open spec fn bindings_view(v: Seq<Vec<(ParameterId, Value)>>) -> Seq<Seq<(Seq<char>, ValueV)>> {
    v.map_values(|b: Vec<(ParameterId, Value)>| param_binds(b@))
}

/// Model of a list of parameter references.
pub open spec fn params_view(v: Seq<&Parameter>) -> Seq<ParameterV> {
    v.map_values(|p: &Parameter| p@)
}

/// The complete input groundings from input `at` on: an input already bound
/// must hold a value of its sort; an unbound input ranges over the
/// candidates of its sort, in order.
pub open spec fn inputs_from(
    ins: Seq<ParameterV>,
    at: nat,
    cands: Seq<ValueV>,
    b: Seq<(Seq<char>, ValueV)>,
) -> Seq<Seq<(Seq<char>, ValueV)>>
    decreases ins.len() - at, 1nat, 0nat,
{
    if at >= ins.len() {
        seq![b]
    } else {
        match local_value(b, ins[at as int].id) {
            Some(v) => if sort_of(v) == ins[at as int].sort {
                inputs_from(ins, at + 1, cands, b)
            } else {
                Seq::empty()
            },
            None => inputs_over(ins, at, cands, 0, b),
        }
    }
}

pub open spec fn inputs_over(
    ins: Seq<ParameterV>,
    at: nat,
    cands: Seq<ValueV>,
    k: nat,
    b: Seq<(Seq<char>, ValueV)>,
) -> Seq<Seq<(Seq<char>, ValueV)>>
    decreases ins.len() - at, 0nat, cands.len() - k,
{
    if at >= ins.len() || k >= cands.len() {
        Seq::empty()
    } else if sort_of(cands[k as int]) == ins[at as int].sort {
        inputs_from(ins, at + 1, cands, b.push((ins[at as int].id, cands[k as int]))) + inputs_over(
            ins,
            at,
            cands,
            k + 1,
            b,
        )
    } else {
        inputs_over(ins, at, cands, k + 1, b)
    }
}

fn copy_binds(b: &[(ParameterId, Value)]) -> (r: Vec<(ParameterId, Value)>)
    ensures
        param_binds(r@) == param_binds(b@),
{
    let mut out: Vec<(ParameterId, Value)> = Vec::new();
    let mut i: usize = 0;
    while i < b.len()
        invariant
            i <= b@.len(),
            param_binds(out@) == param_binds(b@).take(i as int),
        decreases b.len() - i,
    {
        let ghost prev = param_binds(out@);
        out.push((b[i].0.clone(), b[i].1.clone()));
        assert(param_binds(out@) =~= prev.push((b@[i as int].0@, b@[i as int].1@)));
        assert(param_binds(b@).take(i + 1) =~= param_binds(b@).take(i as int).push((b@[i as int].0@, b@[i as int].1@)));
        i = i + 1;
    }
    assert(param_binds(b@).take(b@.len() as int) =~= param_binds(b@));
    out
}

fn visit_inputs(
    at: usize,
    inputs: &Vec<&Parameter>,
    candidates: &Vec<Value>,
    bindings: &mut Vec<(ParameterId, Value)>,
    out: &mut Vec<Vec<(ParameterId, Value)>>,
)
    requires
        at <= inputs@.len(),
    ensures
        final(bindings)@ == old(bindings)@,
        bindings_view(final(out)@) == bindings_view(old(out)@) + inputs_from(
            params_view(inputs@),
            at as nat,
            candidates@.map_values(|v: Value| v@),
            param_binds(old(bindings)@),
        ),
    decreases inputs@.len() - at,
{
    let ghost ins = params_view(inputs@);
    let ghost cv = candidates@.map_values(|v: Value| v@);
    let ghost b0 = param_binds(bindings@);
    if at >= inputs.len() {
        let ghost before = bindings_view(out@);
        let copy = copy_binds(bindings.as_slice());
        out.push(copy);
        assert(bindings_view(out@) =~= before + seq![b0]);
        return;
    }
    let parameter = inputs[at];
    assert(ins[at as int] == parameter@);
    let next = at + 1;
    match find_param(bindings.as_slice(), parameter.id()) {
        Some(bound) => {
            if bound.sort().same(parameter.sort()) {
                visit_inputs(next, inputs, candidates, bindings, out);
            } else {
                assert(bindings_view(out@) =~= bindings_view(out@) + Seq::<Seq<(Seq<char>, ValueV)>>::empty());
            }
            return;
        },
        None => {},
    }
    let ghost orig = bindings@;
    let ghost start = bindings_view(out@);
    let mut k: usize = 0;
    while k < candidates.len()
        invariant
            k <= candidates@.len(),
            at < ins.len(),
            next == at + 1,
            ins == params_view(inputs@),
            cv == candidates@.map_values(|v: Value| v@),
            ins[at as int] == parameter@,
            bindings@ == orig,
            b0 == param_binds(orig),
            bindings_view(out@) + inputs_over(ins, at as nat, cv, k as nat, b0) == start + inputs_over(ins, at as nat, cv, 0, b0),
        decreases candidates.len() - k,
    {
        let ghost before = bindings_view(out@);
        let candidate = &candidates[k];
        assert(cv[k as int] == candidate@);
        if candidate.sort().same(parameter.sort()) {
            bindings.push((parameter.id().clone(), candidate.clone()));
            proof {
                assert(param_binds(bindings@) =~= b0.push((ins[at as int].id, cv[k as int])));
            }
            visit_inputs(next, inputs, candidates, bindings, out);
            bindings.pop();
            assert(bindings@ =~= orig);
            proof {
                let g = inputs_from(ins, (at + 1) as nat, cv, b0.push((ins[at as int].id, cv[k as int])));
                let rest = inputs_over(ins, at as nat, cv, (k + 1) as nat, b0);
                assert(before + (g + rest) =~= (before + g) + rest);
            }
        }
        k = k + 1;
    }
    assert(inputs_over(ins, at as nat, cv, k as nat, b0) =~= Seq::<Seq<(Seq<char>, ValueV)>>::empty());
    assert(bindings_view(out@) + Seq::<Seq<(Seq<char>, ValueV)>>::empty() =~= bindings_view(out@));
}

/// Every input grounding that extends `seed`, binding unbound inputs to the
/// candidate entities (those known and those the conditions mention, each
/// once, in increasing order).
pub fn ground_inputs(
    schema: &AffordanceSchema,
    seed: Vec<(ParameterId, Value)>,
    conditions: &[Condition],
    known: &[EntityId],
) -> (r: Vec<Vec<(ParameterId, Value)>>)
    ensures
        exists|es: Seq<u64>|
            strictly_increasing(es) && es.to_set() == (entities_view(known@) + all_entities(
                conds_view(conditions@),
            )).to_set() && bindings_view(r@) == inputs_from(
                params_with_mode(schema.params(), ParameterMode::Input),
                0,
                es.map_values(|e: u64| ValueV::Entity(e)),
                param_binds(seed@),
            ),
{
    let entities = candidate_entities(known, conditions);
    let ghost es = entities_view(entities@);
    let mut candidates: Vec<Value> = Vec::new();
    let mut i: usize = 0;
    while i < entities.len()
        invariant
            i <= entities@.len(),
            es == entities_view(entities@),
            candidates@.map_values(|v: Value| v@) == es.take(i as int).map_values(|e: u64| ValueV::Entity(e)),
        decreases entities.len() - i,
    {
        let ghost prev = candidates@.map_values(|v: Value| v@);
        candidates.push(Value::Entity(entities[i]));
        assert(candidates@.map_values(|v: Value| v@) =~= prev.push(ValueV::Entity(es[i as int])));
        assert(es.take(i + 1) =~= es.take(i as int).push(es[i as int]));
        assert(es.take(i + 1).map_values(|e: u64| ValueV::Entity(e)) =~= es.take(i as int).map_values(|e: u64| ValueV::Entity(e)).push(ValueV::Entity(es[i as int])));
        i = i + 1;
    }
    assert(es.take(entities@.len() as int) =~= es);
    let inputs = schema.inputs();
    let mut bindings = seed;
    let mut out: Vec<Vec<(ParameterId, Value)>> = Vec::new();
    assert(bindings_view(out@) =~= Seq::<Seq<(Seq<char>, ValueV)>>::empty());
    visit_inputs(0, &inputs, &candidates, &mut bindings, &mut out);
    assert(bindings_view(out@) =~= inputs_from(
        params_with_mode(schema.params(), ParameterMode::Input),
        0,
        es.map_values(|e: u64| ValueV::Entity(e)),
        param_binds(seed@),
    ));
    out
}

/// Every input of `ins` is bound in `b`.
pub open spec fn all_bound(ins: Seq<ParameterV>, b: Seq<(Seq<char>, ValueV)>) -> bool {
    forall|k: int| 0 <= k < ins.len() ==> #[trigger] local_value(b, ins[k].id) is Some
}

/// The input values of a grounding, ordered by slot.
pub fn input_values(schema: &AffordanceSchema, bindings: &[(ParameterId, Value)]) -> (r: Vec<Value>)
    requires
        slots_distinct(schema.params()),
        slots_dense(schema.params(), ParameterMode::Input),
        all_bound(params_with_mode(schema.params(), ParameterMode::Input), param_binds(bindings@)),
    ensures
        r@.len() == params_with_mode(schema.params(), ParameterMode::Input).len(),
        forall|k: int|
            0 <= k < params_with_mode(schema.params(), ParameterMode::Input).len() ==> r@[#[trigger] params_with_mode(
                schema.params(),
                ParameterMode::Input,
            )[k].slot as int]@ == local_value(
                param_binds(bindings@),
                params_with_mode(schema.params(), ParameterMode::Input)[k].id,
            )->0,
{
    let inputs = schema.inputs();
    let ghost ins = params_with_mode(schema.params(), ParameterMode::Input);
    let ghost b = param_binds(bindings@);
    let n = inputs.len();
    let mut values: Vec<Value> = Vec::new();
    let mut i: usize = 0;
    while i < n
        invariant
            i <= n,
            values@.len() == i,
        decreases n - i,
    {
        values.push(Value::Entity(EntityId(0)));
        i = i + 1;
    }
    proof {
        crate::validation::lemma_mode_slots_unique(schema.params(), ParameterMode::Input);
    }
    let mut k: usize = 0;
    while k < n
        invariant
            k <= n,
            n == ins.len(),
            values@.len() == n,
            ins == params_with_mode(schema.params(), ParameterMode::Input),
            params_view(inputs@) == ins,
            b == param_binds(bindings@),
            slots_distinct(schema.params()),
            slots_dense(schema.params(), ParameterMode::Input),
            all_bound(ins, b),
            crate::validation::mode_slots(schema.params(), ParameterMode::Input).no_duplicates(),
            forall|j: int| 0 <= j < k ==> values@[#[trigger] ins[j].slot as int]@ == local_value(b, ins[j].id)->0,
        decreases n - k,
    {
        let parameter = inputs[k];
        assert(parameter@ == ins[k as int]);
        proof {
            crate::validation::lemma_mode_param_slot_bounded(schema.params(), ParameterMode::Input, k as int);
            assert(local_value(b, ins[k as int].id) is Some);
        }
        let slot = parameter.slot() as usize;
        let value = match find_param(bindings, parameter.id()) {
            Some(v) => v,
            None => Value::Entity(EntityId(0)),
        };
        let ghost before = values@;
        values.set(slot, value);
        proof {
            let ms = crate::validation::mode_slots(schema.params(), ParameterMode::Input);
            assert forall|j: int| 0 <= j < k + 1 implies values@[#[trigger] ins[j].slot as int]@ == local_value(b, ins[j].id)->0 by {
                if j < k {
                    crate::validation::lemma_mode_param_slot_bounded(schema.params(), ParameterMode::Input, j);
                    assert(ms[j] == ins[j].slot as int);
                    assert(ms[k as int] == ins[k as int].slot as int);
                    assert(ms[j] != ms[k as int]);
                    assert(values@[ins[j].slot as int] == before[ins[j].slot as int]);
                }
            }
        }
        k = k + 1;
    }
    values
}

/// A guard condition grounded by `b` (inputs replaced by their values, the
/// actor by its entity), or `None` when some term cannot be grounded or some
/// input of the schema is unbound.
pub open spec fn ground_condition_spec(c: ConditionV, ins: Seq<ParameterV>, b: Seq<(Seq<char>, ValueV)>, actor: u64) -> Option<ConditionV> {
    match map_condition_spec(TermMapV::Inputs(b), c) {
        None => None,
        Some(c1) => if all_bound(ins, b) {
            map_condition_spec(TermMapV::Actor(actor), c1)
        } else {
            None
        },
    }
}

/// Replacing the actor always succeeds.
pub proof fn lemma_actor_map_total(actor: u64, c: ConditionV)
    ensures
        map_condition_spec(TermMapV::Actor(actor), c) is Some,
{
}

fn inputs_bound(inputs: &Vec<&Parameter>, bindings: &[(ParameterId, Value)]) -> (r: bool)
    ensures
        r == all_bound(params_view(inputs@), param_binds(bindings@)),
{
    let ghost ins = params_view(inputs@);
    let mut k: usize = 0;
    while k < inputs.len()
        invariant
            k <= inputs@.len(),
            ins == params_view(inputs@),
            forall|j: int| 0 <= j < k ==> #[trigger] local_value(param_binds(bindings@), ins[j].id) is Some,
        decreases inputs.len() - k,
    {
        assert(ins[k as int] == inputs@[k as int]@);
        if find_param(bindings, inputs[k].id()).is_none() {
            assert(local_value(param_binds(bindings@), ins[k as int].id) is None);
            return false;
        }
        k = k + 1;
    }
    true
}

/// Ground a guard condition of `schema` under `bindings` for `actor`.
pub fn ground_condition(condition: &Condition, schema: &AffordanceSchema, bindings: &[(ParameterId, Value)], actor: EntityId) -> (r: Option<Condition>)
    ensures
        match ground_condition_spec(condition@, params_with_mode(schema.params(), ParameterMode::Input), param_binds(bindings@), actor.0) {
            Some(c) => r matches Some(x) && x@ == c,
            None => r is None,
        },
{
    let grounded = match map_condition(condition, &TermMap::Inputs(bindings)) {
        Some(c) => c,
        None => {
            return None;
        },
    };
    let inputs = schema.inputs();
    if !inputs_bound(&inputs, bindings) {
        return None;
    }
    proof {
        lemma_actor_map_total(actor.0, grounded@);
    }
    map_condition(&grounded, &TermMap::Actor(actor))
}

/// The cost of one plan step.
pub type Cost = u32;

/// Longest plan the regression explores.
pub const MAX_DEPTH: usize = 8;

/// Most search states the regression settles per query.
pub const MAX_SETTLED: usize = 10000;

/// An app's pricing of one planned step. The price is a function of the
/// actor, the affordance, the ground action and the world.
pub trait CostModel {
    /// The price of `grounding` as a step of `affordance` for `actor` in `world`.
    spec fn price(&self, actor: u64, affordance: AffordanceSchema, grounding: GroundActionV, world: WorldV) -> Cost;

    fn cost(&self, actor: EntityId, affordance: &AffordanceSchema, grounding: &GroundAction, world: &WorldView) -> (r: Cost)
        ensures
            r == self.price(actor.0, *affordance, grounding@, world@),
    ;
}

/// Every step costs one.
pub struct UnitCost;

impl CostModel for UnitCost {
    open spec fn price(&self, actor: u64, affordance: AffordanceSchema, grounding: GroundActionV, world: WorldV) -> Cost {
        1
    }

    fn cost(&self, actor: EntityId, affordance: &AffordanceSchema, grounding: &GroundAction, world: &WorldView) -> (r: Cost)
        ensures
            r == 1,
    {
        1
    }
}

/// Model of a list of actions.
pub open spec fn actions_view(v: Seq<GroundAction>) -> Seq<GroundActionV> {
    v.map_values(|a: GroundAction| a@)
}

/// A plan step the regression may emit: for the actor, naming a registered
/// non-opaque affordance, and not an excluded action.
pub open spec fn step_ok(reg: Seq<AffordanceSchema>, actor: u64, excluded: Seq<GroundActionV>, a: GroundActionV) -> bool {
    &&& a.actor == actor
    &&& exists|i: int|
        0 <= i < reg.len() && #[trigger] reg[i].id_view() == a.affordance && reg[i].resolution_view()
            != Resolution::Opaque
    &&& !excluded.contains(a)
}

/// `p` is `tail` preceded by acceptable steps, and no longer than the depth
/// bound.
pub open spec fn plan_ok(
    reg: Seq<AffordanceSchema>,
    actor: u64,
    excluded: Seq<GroundActionV>,
    p: Seq<GroundActionV>,
    tail: Seq<GroundActionV>,
) -> bool {
    &&& p.len() <= MAX_DEPTH
    &&& p.len() >= tail.len()
    &&& p.subrange(p.len() - tail.len(), p.len() as int) == tail
    &&& forall|i: int| 0 <= i < p.len() - tail.len() ==> #[trigger] step_ok(reg, actor, excluded, p[i])
}

proof fn lemma_plan_extend(
    reg: Seq<AffordanceSchema>,
    actor: u64,
    excluded: Seq<GroundActionV>,
    p: Seq<GroundActionV>,
    tail: Seq<GroundActionV>,
    a: GroundActionV,
)
    requires
        plan_ok(reg, actor, excluded, p, seq![a] + tail),
        step_ok(reg, actor, excluded, a),
    ensures
        plan_ok(reg, actor, excluded, p, tail),
{
    let n = p.len() - tail.len();
    let s1 = p.subrange(p.len() - (tail.len() + 1), p.len() as int);
    assert(s1 == seq![a] + tail);
    assert(p.subrange(n, p.len() as int) =~= s1.subrange(1, s1.len() as int));
    assert(s1.subrange(1, s1.len() as int) =~= tail);
    assert forall|i: int| 0 <= i < n implies #[trigger] step_ok(reg, actor, excluded, p[i]) by {
        if i == n - 1 {
            assert(p[i] == s1[0]);
        }
    }
}

/// Model of the visited search states.
pub open spec fn visited_view(v: Seq<(Vec<Condition>, Cost)>) -> Seq<(Seq<ConditionV>, Cost)> {
    v.map_values(|e: (Vec<Condition>, Cost)| (conds_view(e.0@), e.1))
}

/// The cost a state was last settled at, if it was.
pub open spec fn visited_cost(v: Seq<(Seq<ConditionV>, Cost)>, key: Seq<ConditionV>) -> Option<Cost> {
    if exists|i: int| 0 <= i < v.len() && #[trigger] v[i].0 == key {
        Some(v[choose|i: int| 0 <= i < v.len() && #[trigger] v[i].0 == key].1)
    } else {
        None
    }
}

/// The visited states as a map from conditions to cost.
pub open spec fn visited_map(v: Seq<(Seq<ConditionV>, Cost)>) -> Map<Seq<ConditionV>, Cost> {
    Map::new(|k: Seq<ConditionV>| visited_cost(v, k) is Some, |k: Seq<ConditionV>| visited_cost(v, k)->0)
}

proof fn lemma_visited_cost_at(v: Seq<(Seq<ConditionV>, Cost)>, i: int)
    requires
        visited_unique(v),
        0 <= i < v.len(),
    ensures
        visited_cost(v, v[i].0) == Some(v[i].1),
{
    let k = choose|k: int| 0 <= k < v.len() && #[trigger] v[k].0 == v[i].0;
    if k < i {
        assert(v[k].0 != v[i].0);
    } else if k > i {
        assert(v[i].0 != v[k].0);
    }
}

/// No state occurs twice.
pub open spec fn visited_unique(v: Seq<(Seq<ConditionV>, Cost)>) -> bool {
    forall|i: int, j: int| 0 <= i < j < v.len() ==> #[trigger] v[i].0 != #[trigger] v[j].0
}

fn conds_same(a: &[Condition], b: &[Condition]) -> (r: bool)
    ensures
        r == (conds_view(a@) == conds_view(b@)),
{
    if a.len() != b.len() {
        assert(conds_view(a@).len() != conds_view(b@).len());
        return false;
    }
    let mut i: usize = 0;
    while i < a.len()
        invariant
            i <= a@.len(),
            a@.len() == b@.len(),
            forall|j: int| 0 <= j < i ==> a@[j]@ == b@[j]@,
        decreases a.len() - i,
    {
        if !a[i].same(&b[i]) {
            assert(conds_view(a@)[i as int] != conds_view(b@)[i as int]);
            return false;
        }
        i = i + 1;
    }
    assert(conds_view(a@) =~= conds_view(b@));
    true
}

fn conds_contain(v: &[Condition], c: &Condition) -> (r: bool)
    ensures
        r == conds_view(v@).contains(c@),
{
    let mut i: usize = 0;
    while i < v.len()
        invariant
            i <= v@.len(),
            forall|j: int| 0 <= j < i ==> conds_view(v@)[j] != c@,
        decreases v.len() - i,
    {
        if v[i].same(c) {
            assert(conds_view(v@)[i as int] == c@);
            return true;
        }
        i = i + 1;
    }
    false
}

fn copy_conds(v: &[Condition]) -> (r: Vec<Condition>)
    ensures
        r@ == v@,
{
    let mut out: Vec<Condition> = Vec::new();
    let mut i: usize = 0;
    while i < v.len()
        invariant
            i <= v@.len(),
            out@ == v@.take(i as int),
        decreases v.len() - i,
    {
        out.push(v[i].clone());
        assert(out@ =~= v@.take(i + 1));
        i = i + 1;
    }
    assert(v@.take(v@.len() as int) =~= v@);
    out
}

fn copy_plan(v: &[GroundAction]) -> (r: Vec<GroundAction>)
    ensures
        actions_view(r@) == actions_view(v@),
{
    let mut out: Vec<GroundAction> = Vec::new();
    let mut i: usize = 0;
    while i < v.len()
        invariant
            i <= v@.len(),
            actions_view(out@) == actions_view(v@).take(i as int),
        decreases v.len() - i,
    {
        let ghost prev = actions_view(out@);
        out.push(v[i].clone());
        assert(actions_view(out@) =~= prev.push(v@[i as int]@));
        assert(actions_view(v@).take(i + 1) =~= actions_view(v@).take(i as int).push(v@[i as int]@));
        i = i + 1;
    }
    assert(actions_view(v@).take(v@.len() as int) =~= actions_view(v@));
    out
}

fn actions_contain(v: &[GroundAction], a: &GroundAction) -> (r: bool)
    ensures
        r == actions_view(v@).contains(a@),
{
    let mut i: usize = 0;
    while i < v.len()
        invariant
            i <= v@.len(),
            forall|j: int| 0 <= j < i ==> actions_view(v@)[j] != a@,
        decreases v.len() - i,
    {
        if v[i].same(a) {
            assert(actions_view(v@)[i as int] == a@);
            return true;
        }
        i = i + 1;
    }
    false
}

fn visited_get(visited: &Vec<(Vec<Condition>, Cost)>, key: &[Condition]) -> (r: Option<Cost>)
    requires
        visited_unique(visited_view(visited@)),
    ensures
        r == visited_cost(visited_view(visited@), conds_view(key@)),
{
    let ghost v = visited_view(visited@);
    let mut i: usize = 0;
    while i < visited.len()
        invariant
            i <= visited@.len(),
            v == visited_view(visited@),
            visited_unique(v),
            forall|j: int| 0 <= j < i ==> #[trigger] v[j].0 != conds_view(key@),
        decreases visited.len() - i,
    {
        if conds_same(visited[i].0.as_slice(), key) {
            proof {
                assert(v[i as int].0 == conds_view(key@));
                let k = choose|k: int| 0 <= k < v.len() && #[trigger] v[k].0 == conds_view(key@);
                if k != i {
                    if k < i {
                    } else {
                        assert(v[i as int].0 != v[k].0);
                    }
                }
            }
            return Some(visited[i].1);
        }
        i = i + 1;
    }
    None
}

fn visited_put(visited: &mut Vec<(Vec<Condition>, Cost)>, key: Vec<Condition>, cost: Cost)
    requires
        visited_unique(visited_view(old(visited)@)),
    ensures
        visited_unique(visited_view(final(visited)@)),
        visited_cost(visited_view(final(visited)@), conds_view(key@)) == Some(cost),
        visited_map(visited_view(final(visited)@)) == visited_map(visited_view(old(visited)@)).insert(conds_view(key@), cost),
{
    let ghost v = visited_view(visited@);
    let mut i: usize = 0;
    while i < visited.len()
        invariant
            i <= visited@.len(),
            v == visited_view(visited@),
            v == visited_view(old(visited)@),
            visited_unique(v),
            forall|j: int| 0 <= j < i ==> #[trigger] v[j].0 != conds_view(key@),
        decreases visited.len() - i,
    {
        if conds_same(visited[i].0.as_slice(), key.as_slice()) {
            let ghost kv = conds_view(key@);
            visited.set(i, (key, cost));
            proof {
                let v2 = visited_view(visited@);
                assert(v2 =~= v.update(i as int, (kv, cost)));
                assert forall|a: int, b: int| 0 <= a < b < v2.len() implies #[trigger] v2[a].0 != #[trigger] v2[b].0 by {
                    if a != i && b != i {
                        assert(v2[a] == v[a] && v2[b] == v[b]);
                    } else if a == i {
                        assert(v[b].0 != v[a].0);
                    } else {
                        assert(v[a].0 != v[b].0);
                    }
                }
                assert(v2[i as int].0 == kv);
                let k = choose|k: int| 0 <= k < v2.len() && #[trigger] v2[k].0 == kv;
                if k != i {
                    if k < i {
                        assert(v2[k].0 != v2[i as int].0);
                    } else {
                        assert(v2[i as int].0 != v2[k].0);
                    }
                }
                assert forall|x: Seq<ConditionV>| x != kv implies visited_cost(v2, x) == visited_cost(v, x) by {
                    if exists|m: int| 0 <= m < v.len() && #[trigger] v[m].0 == x {
                        let m = choose|m: int| 0 <= m < v.len() && #[trigger] v[m].0 == x;
                        assert(m != i);
                        assert(v2[m] == v[m]);
                        lemma_visited_cost_at(v, m);
                        lemma_visited_cost_at(v2, m);
                    } else {
                        assert forall|m: int| 0 <= m < v2.len() implies #[trigger] v2[m].0 != x by {
                            if m != i {
                                assert(v2[m] == v[m]);
                            }
                        }
                    }
                }
                assert(visited_map(v2) =~= visited_map(v).insert(kv, cost));
            }
            return;
        }
        i = i + 1;
    }
    let ghost kv = conds_view(key@);
    visited.push((key, cost));
    proof {
        let v2 = visited_view(visited@);
        assert(v2 =~= v.push((kv, cost)));
        assert forall|a: int, b: int| 0 <= a < b < v2.len() implies #[trigger] v2[a].0 != #[trigger] v2[b].0 by {
            if b == v.len() {
                assert(v[a].0 != kv);
            } else {
                assert(v2[a] == v[a] && v2[b] == v[b]);
            }
        }
        assert(v2[v.len() as int].0 == kv);
        let k = choose|k: int| 0 <= k < v2.len() && #[trigger] v2[k].0 == kv;
        if k != v.len() {
            assert(v2[k] == v[k]);
        }
        assert forall|x: Seq<ConditionV>| x != kv implies visited_cost(v2, x) == visited_cost(v, x) by {
            if exists|m: int| 0 <= m < v.len() && #[trigger] v[m].0 == x {
                let m = choose|m: int| 0 <= m < v.len() && #[trigger] v[m].0 == x;
                assert(v2[m] == v[m]);
                lemma_visited_cost_at(v, m);
                lemma_visited_cost_at(v2, m);
            } else {
                assert forall|m: int| 0 <= m < v2.len() implies #[trigger] v2[m].0 != x by {
                    if m < v.len() {
                        assert(v2[m] == v[m]);
                    }
                }
            }
        }
        assert(visited_map(v2) =~= visited_map(v).insert(kv, cost));
    }
}

/// Guard conditions `k..` grounded and appended to `acc` unless already
/// present; `None` when one cannot be grounded.
pub open spec fn add_grounded(
    cs: Seq<ConditionV>,
    k: nat,
    ins: Seq<ParameterV>,
    b: Seq<(Seq<char>, ValueV)>,
    actor: u64,
    acc: Seq<ConditionV>,
) -> Option<Seq<ConditionV>>
    decreases cs.len() - k,
{
    if k >= cs.len() {
        Some(acc)
    } else {
        match ground_condition_spec(cs[k as int], ins, b, actor) {
            None => None,
            Some(c) => add_grounded(cs, k + 1, ins, b, actor, if acc.contains(c) {
                acc
            } else {
                acc.push(c)
            }),
        }
    }
}

/// The evaluation context of a guard of `s` for the ground action `a`.
pub open spec fn action_ctx(s: AffordanceSchema, a: GroundActionV) -> EvalCtx {
    EvalCtx { params: s.params(), actor: a.actor, inputs: a.inputs, results: Seq::<ValueV>::empty() }
}

/// The open conditions after one step, from guard `k` on: a true guard adds
/// nothing; a false guard without locals adds its grounded conditions as new
/// subgoals; a false guard with locals, or a failing evaluation, makes the
/// step inapplicable (`None`).
pub open spec fn guards_next(
    gs: Seq<Guard>,
    k: nat,
    st: StateV,
    w: WorldV,
    s: AffordanceSchema,
    a: GroundActionV,
    b: Seq<(Seq<char>, ValueV)>,
    acc: Seq<ConditionV>,
) -> Option<Seq<ConditionV>>
    decreases gs.len() - k,
{
    if k >= gs.len() {
        Some(acc)
    } else {
        let f = gs[k as int].formula_item()@;
        match locals_spec(f, 0, st, w, action_ctx(s, a), Seq::empty()) {
            Ok(true) => guards_next(gs, k + 1, st, w, s, a, b, acc),
            Ok(false) => if f.locals.len() == 0 {
                match add_grounded(
                    f.conditions,
                    0,
                    params_with_mode(s.params(), ParameterMode::Input),
                    b,
                    a.actor,
                    acc,
                ) {
                    None => None,
                    Some(acc2) => guards_next(gs, k + 1, st, w, s, a, b, acc2),
                }
            } else {
                None
            },
            Err(_) => None,
        }
    }
}

fn add_guard_conditions(
    conditions: &[Condition],
    schema: &AffordanceSchema,
    grounding: &[(ParameterId, Value)],
    actor: EntityId,
    next: &mut Vec<Condition>,
) -> (r: bool)
    ensures
        match add_grounded(
            conds_view(conditions@),
            0,
            params_with_mode(schema.params(), ParameterMode::Input),
            param_binds(grounding@),
            actor.0,
            conds_view(old(next)@),
        ) {
            Some(acc) => r && conds_view(final(next)@) == acc,
            None => !r,
        },
{
    let ghost cs = conds_view(conditions@);
    let ghost ins = params_with_mode(schema.params(), ParameterMode::Input);
    let ghost b = param_binds(grounding@);
    let ghost goal = add_grounded(cs, 0, ins, b, actor.0, conds_view(next@));
    let mut k: usize = 0;
    while k < conditions.len()
        invariant
            k <= conditions@.len(),
            cs == conds_view(conditions@),
            ins == params_with_mode(schema.params(), ParameterMode::Input),
            b == param_binds(grounding@),
            goal == add_grounded(cs, 0, ins, b, actor.0, conds_view(old(next)@)),
            goal == add_grounded(cs, k as nat, ins, b, actor.0, conds_view(next@)),
        decreases conditions.len() - k,
    {
        assert(cs[k as int] == conditions@[k as int]@);
        let c = match ground_condition(&conditions[k], schema, grounding, actor) {
            Some(c) => c,
            None => {
                return false;
            },
        };
        let ghost prev = conds_view(next@);
        if !conds_contain(next.as_slice(), &c) {
            next.push(c);
            assert(conds_view(next@) =~= prev.push(c@));
        }
        k = k + 1;
    }
    true
}

/// The open conditions once `action` (grounded by `grounding`) is planned to
/// achieve condition `at`, or `None` when its guards make it inapplicable.
fn next_conditions(
    registry: &AffordanceRegistry,
    world: &WorldView,
    schema: &AffordanceSchema,
    action: &GroundAction,
    grounding: &[(ParameterId, Value)],
    conditions: &Vec<Condition>,
    at: usize,
) -> (r: Option<Vec<Condition>>)
    requires
        at < conditions@.len(),
    ensures
        match guards_next(
            schema.guard_items(),
            0,
            registry.state_view(),
            world@,
            *schema,
            action@,
            param_binds(grounding@),
            conds_view(conditions@).remove(at as int),
        ) {
            Some(cs) => r matches Some(x) && conds_view(x@) == cs,
            None => r is None,
        },
{
    let mut next = copy_conds(conditions.as_slice());
    next.remove(at);
    assert(conds_view(next@) =~= conds_view(conditions@).remove(at as int));
    let guards = schema.guards();
    let ghost gs = schema.guard_items();
    let ghost goal = guards_next(gs, 0, registry.state_view(), world@, *schema, action@, param_binds(grounding@), conds_view(next@));
    let mut k: usize = 0;
    while k < guards.len()
        invariant
            k <= guards@.len(),
            gs == guards@,
            gs == schema.guard_items(),
            at < conditions@.len(),
            goal == guards_next(gs, 0, registry.state_view(), world@, *schema, action@, param_binds(grounding@), conds_view(conditions@).remove(at as int)),
            goal == guards_next(gs, k as nat, registry.state_view(), world@, *schema, action@, param_binds(grounding@), conds_view(next@)),
        decreases guards.len() - k,
    {
        let guard = &guards[k];
        let formula = guard.formula();
        match registry.state().evaluate(formula, schema, action, None, world) {
            Ok(true) => {},
            Ok(false) => {
                if formula.locals().len() == 0 {
                    if !add_guard_conditions(formula.conditions(), schema, grounding, action.actor(), &mut next) {
                        return None;
                    }
                } else {
                    return None;
                }
            },
            Err(_) => {
                return None;
            },
        }
        k = k + 1;
    }
    Some(next)
}

proof fn lemma_push_keeps_bound(b: Seq<(Seq<char>, ValueV)>, key: Seq<char>, v: ValueV, id: Seq<char>)
    ensures
        local_value(b, id) is Some ==> local_value(b.push((key, v)), id) is Some,
        local_value(b.push((id, v)), id) == Some(v),
{
    assert(b.push((key, v)).drop_last() =~= b);
    assert(b.push((id, v)).drop_last() =~= b);
}

proof fn lemma_inputs_from_bound(ins: Seq<ParameterV>, at: nat, cands: Seq<ValueV>, b: Seq<(Seq<char>, ValueV)>)
    requires
        at <= ins.len(),
        forall|k: int| 0 <= k < at ==> #[trigger] local_value(b, ins[k].id) is Some,
    ensures
        forall|i: int| 0 <= i < inputs_from(ins, at, cands, b).len() ==> all_bound(ins, #[trigger] inputs_from(ins, at, cands, b)[i]),
    decreases ins.len() - at, 1nat, 0nat,
{
    if at >= ins.len() {
        assert forall|i: int| 0 <= i < inputs_from(ins, at, cands, b).len() implies all_bound(ins, #[trigger] inputs_from(ins, at, cands, b)[i]) by {
            assert(inputs_from(ins, at, cands, b)[i] == b);
        }
    } else {
        match local_value(b, ins[at as int].id) {
            Some(v) => {
                if sort_of(v) == ins[at as int].sort {
                    assert(local_value(b, ins[at as int].id) is Some);
                    lemma_inputs_from_bound(ins, at + 1, cands, b);
                    assert(inputs_from(ins, at, cands, b) == inputs_from(ins, at + 1, cands, b));
                } else {
                    assert(inputs_from(ins, at, cands, b) =~= Seq::<Seq<(Seq<char>, ValueV)>>::empty());
                }
            },
            None => {
                lemma_inputs_over_bound(ins, at, cands, 0, b);
                assert(inputs_from(ins, at, cands, b) == inputs_over(ins, at, cands, 0, b));
            },
        }
    }
}

proof fn lemma_inputs_over_bound(ins: Seq<ParameterV>, at: nat, cands: Seq<ValueV>, k: nat, b: Seq<(Seq<char>, ValueV)>)
    requires
        at < ins.len(),
        forall|j: int| 0 <= j < at ==> #[trigger] local_value(b, ins[j].id) is Some,
    ensures
        forall|i: int| 0 <= i < inputs_over(ins, at, cands, k, b).len() ==> all_bound(ins, #[trigger] inputs_over(ins, at, cands, k, b)[i]),
    decreases ins.len() - at, 0nat, cands.len() - k,
{
    if k < cands.len() {
        let b2 = b.push((ins[at as int].id, cands[k as int]));
        assert forall|j: int| 0 <= j < at + 1 implies #[trigger] local_value(b2, ins[j].id) is Some by {
            lemma_push_keeps_bound(b, ins[at as int].id, cands[k as int], ins[j].id);
            if j == at {
                lemma_push_keeps_bound(b, ins[at as int].id, cands[k as int], ins[at as int].id);
            }
        }
        lemma_inputs_over_bound(ins, at, cands, k + 1, b);
        if sort_of(cands[k as int]) == ins[at as int].sort {
            lemma_inputs_from_bound(ins, at + 1, cands, b2);
            let g = inputs_from(ins, at + 1, cands, b2);
            let rest = inputs_over(ins, at, cands, k + 1, b);
            assert forall|i: int| 0 <= i < (g + rest).len() implies all_bound(ins, #[trigger] (g + rest)[i]) by {
                if i < g.len() {
                    assert((g + rest)[i] == g[i]);
                } else {
                    assert((g + rest)[i] == rest[i - g.len()]);
                }
            }
        }
    }
}

/// Complete input groundings bind every input.
pub proof fn lemma_groundings_complete(ins: Seq<ParameterV>, cands: Seq<ValueV>, b: Seq<(Seq<char>, ValueV)>, i: int)
    requires
        0 <= i < inputs_from(ins, 0, cands, b).len(),
    ensures
        all_bound(ins, inputs_from(ins, 0, cands, b)[i]),
{
    lemma_inputs_from_bound(ins, 0, cands, b);
}

/// `b` gives every name that `seed` binds the value `seed` gives it.
pub open spec fn agrees(b: Seq<(Seq<char>, ValueV)>, seed: Seq<(Seq<char>, ValueV)>) -> bool {
    forall|id: Seq<char>| #[trigger] local_value(seed, id) is Some ==> local_value(b, id) == local_value(seed, id)
}

proof fn lemma_push_unbound_agrees(b: Seq<(Seq<char>, ValueV)>, key: Seq<char>, v: ValueV, seed: Seq<(Seq<char>, ValueV)>)
    requires
        agrees(b, seed),
        local_value(b, key) is None,
    ensures
        agrees(b.push((key, v)), seed),
{
    assert forall|id: Seq<char>| #[trigger] local_value(seed, id) is Some implies local_value(b.push((key, v)), id)
        == local_value(seed, id) by {
        assert(b.push((key, v)).drop_last() =~= b);
        assert(id != key);
    }
}

proof fn lemma_inputs_from_agree(
    ins: Seq<ParameterV>,
    at: nat,
    cands: Seq<ValueV>,
    b: Seq<(Seq<char>, ValueV)>,
    seed: Seq<(Seq<char>, ValueV)>,
)
    requires
        agrees(b, seed),
    ensures
        forall|i: int| 0 <= i < inputs_from(ins, at, cands, b).len() ==> agrees(#[trigger] inputs_from(ins, at, cands, b)[i], seed),
    decreases ins.len() - at, 1nat, 0nat,
{
    if at >= ins.len() {
        assert forall|i: int| 0 <= i < inputs_from(ins, at, cands, b).len() implies agrees(#[trigger] inputs_from(ins, at, cands, b)[i], seed) by {
            assert(inputs_from(ins, at, cands, b)[i] == b);
        }
    } else {
        match local_value(b, ins[at as int].id) {
            Some(v) => {
                if sort_of(v) == ins[at as int].sort {
                    lemma_inputs_from_agree(ins, at + 1, cands, b, seed);
                    assert(inputs_from(ins, at, cands, b) == inputs_from(ins, at + 1, cands, b));
                } else {
                    assert(inputs_from(ins, at, cands, b) =~= Seq::<Seq<(Seq<char>, ValueV)>>::empty());
                }
            },
            None => {
                lemma_inputs_over_agree(ins, at, cands, 0, b, seed);
                assert(inputs_from(ins, at, cands, b) == inputs_over(ins, at, cands, 0, b));
            },
        }
    }
}

proof fn lemma_inputs_over_agree(
    ins: Seq<ParameterV>,
    at: nat,
    cands: Seq<ValueV>,
    k: nat,
    b: Seq<(Seq<char>, ValueV)>,
    seed: Seq<(Seq<char>, ValueV)>,
)
    requires
        at < ins.len(),
        agrees(b, seed),
        local_value(b, ins[at as int].id) is None,
    ensures
        forall|i: int| 0 <= i < inputs_over(ins, at, cands, k, b).len() ==> agrees(#[trigger] inputs_over(ins, at, cands, k, b)[i], seed),
    decreases ins.len() - at, 0nat, cands.len() - k,
{
    if k < cands.len() {
        lemma_inputs_over_agree(ins, at, cands, k + 1, b, seed);
        if sort_of(cands[k as int]) == ins[at as int].sort {
            let b2 = b.push((ins[at as int].id, cands[k as int]));
            lemma_push_unbound_agrees(b, ins[at as int].id, cands[k as int], seed);
            lemma_inputs_from_agree(ins, at + 1, cands, b2, seed);
            let g = inputs_from(ins, at + 1, cands, b2);
            let rest = inputs_over(ins, at, cands, k + 1, b);
            assert forall|i: int| 0 <= i < (g + rest).len() implies agrees(#[trigger] (g + rest)[i], seed) by {
                if i < g.len() {
                    assert((g + rest)[i] == g[i]);
                } else {
                    assert((g + rest)[i] == rest[i - g.len()]);
                }
            }
            assert(inputs_over(ins, at, cands, k, b) == g + rest);
        } else {
            assert(inputs_over(ins, at, cands, k, b) == inputs_over(ins, at, cands, k + 1, b));
        }
    } else {
        assert(inputs_over(ins, at, cands, k, b) =~= Seq::<Seq<(Seq<char>, ValueV)>>::empty());
    }
}

/// The inputs of `a` are the values `b` binds to the inputs of `s`, each in
/// its slot.
pub open spec fn inputs_bound_by(s: AffordanceSchema, a: GroundActionV, b: Seq<(Seq<char>, ValueV)>) -> bool {
    let ins = params_with_mode(s.params(), ParameterMode::Input);
    &&& a.inputs.len() == ins.len()
    &&& forall|k: int| 0 <= k < ins.len() ==> a.inputs[#[trigger] ins[k].slot as int] == local_value(b, ins[k].id)->0
}

/// One planned step read backwards: `a` instantiates schema `i` of `reg` (not
/// opaque) for `actor` with the inputs that bindings `b` give; effect `j` of
/// that schema, under bindings `b` that keep what unifying it with condition
/// `at` of `cs` required, makes that condition true; and `next` is what must
/// hold before `a`: the other conditions of `cs` together with the
/// conditions of each guard of `a` that is false in the world now.
pub open spec fn regress_step_at(
    st: StateV,
    w: WorldV,
    reg: Seq<AffordanceSchema>,
    actor: u64,
    cs: Seq<ConditionV>,
    a: GroundAction,
    next: Seq<ConditionV>,
    i: int,
    j: int,
    at: int,
    b: Seq<(Seq<char>, ValueV)>,
) -> bool {
    &&& 0 <= i < reg.len()
    &&& reg[i].id_view() == a@.affordance
    &&& reg[i].resolution_view() != Resolution::Opaque
    &&& a@.actor == actor
    &&& inputs_bound_by(reg[i], a@, b)
    &&& 0 <= j < reg[i].effect_items().len()
    &&& 0 <= at < cs.len()
    &&& match_spec(reg[i].effect_items()[j], cs[at], actor) matches Some(seed) && agrees(b, seed)
    &&& guards_next(reg[i].guard_items(), 0, st, w, reg[i], a@, b, cs.remove(at)) == Some(next)
}

/// `a` is a planned step that turns the conditions `cs` into `next`.
pub open spec fn regress_step(
    st: StateV,
    w: WorldV,
    reg: Seq<AffordanceSchema>,
    actor: u64,
    cs: Seq<ConditionV>,
    a: GroundActionV,
    next: Seq<ConditionV>,
) -> bool {
    exists|x: GroundAction, i: int, j: int, at: int, b: Seq<(Seq<char>, ValueV)>|
        x@ == a && #[trigger] regress_step_at(st, w, reg, actor, cs, x, next, i, j, at, b)
}

/// Read from its last step back to its first, plan `q` regresses the
/// conditions `cs` to conditions that all hold in the world now.
pub open spec fn regresses(
    st: StateV,
    w: WorldV,
    reg: Seq<AffordanceSchema>,
    actor: u64,
    cs: Seq<ConditionV>,
    q: Seq<GroundActionV>,
) -> bool
    decreases q.len(),
{
    if q.len() == 0 {
        all_hold(st, w, actor, cs)
    } else {
        exists|next: Seq<ConditionV>|
            #[trigger] regress_step(st, w, reg, actor, cs, q.last(), next) && regresses(
                st,
                w,
                reg,
                actor,
                next,
                q.drop_last(),
            )
    }
}

/// A best plan found so far is some regressing prefix followed by `plan`.
pub open spec fn best_sound(
    best: Option<(Cost, Vec<GroundAction>)>,
    st: StateV,
    w: WorldV,
    reg: Seq<AffordanceSchema>,
    actor: u64,
    cs: Seq<ConditionV>,
    plan: Seq<GroundActionV>,
) -> bool {
    best matches Some((c, p)) ==> exists|q: Seq<GroundActionV>|
        #[trigger] regresses(st, w, reg, actor, cs, q) && actions_view(p@) == q + plan
}

proof fn lemma_regresses_step(
    st: StateV,
    w: WorldV,
    reg: Seq<AffordanceSchema>,
    actor: u64,
    cs: Seq<ConditionV>,
    a: GroundAction,
    next: Seq<ConditionV>,
    q: Seq<GroundActionV>,
    i: int,
    j: int,
    at: int,
    b: Seq<(Seq<char>, ValueV)>,
)
    requires
        regress_step_at(st, w, reg, actor, cs, a, next, i, j, at, b),
        regresses(st, w, reg, actor, next, q),
    ensures
        regresses(st, w, reg, actor, cs, q.push(a@)),
{
    assert(regress_step(st, w, reg, actor, cs, a@, next));
    assert(q.push(a@).drop_last() =~= q);
    assert(q.push(a@).last() == a@);
}

/// A candidate found by regressing from `next` after step `a` extends to a
/// sound best plan for `cs` before `a`.
proof fn lemma_candidate_sound(
    st: StateV,
    w: WorldV,
    reg: Seq<AffordanceSchema>,
    actor: u64,
    cs: Seq<ConditionV>,
    a: GroundAction,
    next: Seq<ConditionV>,
    plan: Seq<GroundActionV>,
    candidate: (Cost, Vec<GroundAction>),
    i: int,
    j: int,
    at: int,
    b: Seq<(Seq<char>, ValueV)>,
)
    requires
        regress_step_at(st, w, reg, actor, cs, a, next, i, j, at, b),
        best_sound(Some(candidate), st, w, reg, actor, next, seq![a@] + plan),
    ensures
        best_sound(Some(candidate), st, w, reg, actor, cs, plan),
{
    let q = choose|q: Seq<GroundActionV>|
        #[trigger] regresses(st, w, reg, actor, next, q) && actions_view(candidate.1@) == q + (seq![a@] + plan);
    lemma_regresses_step(st, w, reg, actor, cs, a, next, q, i, j, at, b);
    assert(q.push(a@) + plan =~= q + (seq![a@] + plan));
}

/// Whether every condition of `cs` holds for `actor`.
pub open spec fn all_hold(st: StateV, w: WorldV, actor: u64, cs: Seq<ConditionV>) -> bool {
    forall|j: int| 0 <= j < cs.len() ==> #[trigger] holds_spec(st, w, actor, cs[j])
}

/// The best (cheapest, earliest) plan found so far satisfies the search's
/// guarantees for a query that started from `plan` at `cost`.
pub open spec fn best_ok(
    best: Option<(Cost, Vec<GroundAction>)>,
    reg: Seq<AffordanceSchema>,
    actor: u64,
    excluded: Seq<GroundActionV>,
    plan: Seq<GroundActionV>,
    cost: Cost,
) -> bool {
    best matches Some((c, p)) ==> c >= cost && plan_ok(reg, actor, excluded, actions_view(p@), plan)
}

/// Search for the cheapest plan whose steps make `conditions` true, extending
/// `plan` backwards. A state already settled at no greater cost, a plan past
/// the depth bound, or an exhausted settle budget ends the branch.
fn regress<C: CostModel>(
    registry: &AffordanceRegistry,
    actor: EntityId,
    known: &[EntityId],
    world: &WorldView,
    excluded: &[GroundAction],
    costs: &C,
    conditions: Vec<Condition>,
    plan: Vec<GroundAction>,
    cost: Cost,
    settled: &mut usize,
    visited: &mut Vec<(Vec<Condition>, Cost)>,
) -> (r: Option<(Cost, Vec<GroundAction>)>)
    requires
        *old(settled) <= MAX_SETTLED,
        visited_unique(visited_view(old(visited)@)),
    ensures
        *final(settled) <= MAX_SETTLED,
        visited_unique(visited_view(final(visited)@)),
        best_ok(r, registry.schema_items(), actor.0, actions_view(excluded@), actions_view(plan@), cost),
        best_sound(r, registry.state_view(), world@, registry.schema_items(), actor.0, conds_view(conditions@), actions_view(plan@)),
        (plan@.len() <= MAX_DEPTH && *old(settled) < MAX_SETTLED && visited_cost(
            visited_view(old(visited)@),
            conds_view(conditions@),
        ) is None && all_hold(registry.state_view(), world@, actor.0, conds_view(conditions@))) ==> (r matches Some(
            (c, p),
        ) && c == cost && actions_view(p@) == actions_view(plan@)),
        (found_view(r), tally_of(*final(settled), final(visited)@)) == regress_spec(
            search_of(registry, actor.0, entities_view(known@), world@, actions_view(excluded@), costs),
            conds_view(conditions@),
            actions_view(plan@),
            cost,
            tally_of(*old(settled), old(visited)@),
        ),
    decreases MAX_DEPTH + 1 - plan@.len(), 1nat,
{
    let ghost srch = search_of(registry, actor.0, entities_view(known@), world@, actions_view(excluded@), costs);
    let ghost t0 = tally_of(*settled, visited@);
    if plan.len() > MAX_DEPTH || *settled >= MAX_SETTLED {
        return None;
    }
    match visited_get(visited, conditions.as_slice()) {
        Some(previous) => {
            if previous <= cost {
                return None;
            }
        },
        None => {},
    }
    visited_put(visited, copy_conds(conditions.as_slice()), cost);
    *settled = *settled + 1;
    let ghost cs = conds_view(conditions@);
    let ghost t1 = tally_of(*settled, visited@);
    assert(t1 == TallyV { settled: t0.settled + 1, visited: t0.visited.insert(cs, cost) });
    let mut at: usize = 0;
    while at < conditions.len()
        invariant
            at <= conditions@.len(),
            cs == conds_view(conditions@),
            forall|j: int| 0 <= j < at ==> #[trigger] holds_spec(registry.state_view(), world@, actor.0, cs[j]),
        ensures
            at <= conditions@.len(),
            forall|j: int| 0 <= j < at ==> #[trigger] holds_spec(registry.state_view(), world@, actor.0, cs[j]),
            at < conditions@.len() ==> !holds_spec(registry.state_view(), world@, actor.0, cs[at as int]),
        decreases conditions.len() - at,
    {
        if !holds(registry, actor, &conditions[at], world) {
            break;
        }
        at = at + 1;
    }
    proof {
        lemma_first_open_skip(srch, cs, 0, at as nat);
    }
    if at == conditions.len() {
        proof {
            let pv = actions_view(plan@);
            assert(pv.subrange(0, pv.len() as int) =~= pv);
            let empty = Seq::<GroundActionV>::empty();
            assert(all_hold(registry.state_view(), world@, actor.0, cs));
            assert(regresses(registry.state_view(), world@, registry.schema_items(), actor.0, cs, empty));
            assert(empty + pv =~= pv);
        }
        return Some((cost, plan));
    }
    registry.check_wf();
    let mut best: Option<(Cost, Vec<GroundAction>)> = None;
    let schemas = registry.schemas();
    let ghost pv = actions_view(plan@);
    let ghost goal = schemas_spec(srch, cs, at as int, pv, cost, 0, None, t1);
    assert(regress_spec(srch, cs, pv, cost, t0) == goal);
    let mut i: usize = 0;
    while i < schemas.len()
        invariant
            i <= schemas@.len(),
            schemas@ == registry.schema_items(),
            crate::perform::all_valid(registry.schema_items(), registry.state_view()),
            at < conditions@.len(),
            plan@.len() <= MAX_DEPTH,
            *settled <= MAX_SETTLED,
            visited_unique(visited_view(visited@)),
            best_ok(best, registry.schema_items(), actor.0, actions_view(excluded@), actions_view(plan@), cost),
            best_sound(best, registry.state_view(), world@, registry.schema_items(), actor.0, conds_view(conditions@), actions_view(plan@)),
            srch == search_of(registry, actor.0, entities_view(known@), world@, actions_view(excluded@), costs),
            cs == conds_view(conditions@),
            pv == actions_view(plan@),
            schemas_spec(srch, cs, at as int, pv, cost, i as nat, found_view(best), tally_of(*settled, visited@)) == goal,
        decreases schemas.len() - i,
    {
        if schemas[i].resolution() != Resolution::Opaque {
            try_schema(registry, actor, known, world, excluded, costs, i, &schemas[i], &conditions, at, &plan, cost, settled, visited, &mut best);
        }
        i = i + 1;
    }
    best
}

/// Try every effect of one schema that could achieve condition `at`.
fn try_schema<C: CostModel>(
    registry: &AffordanceRegistry,
    actor: EntityId,
    known: &[EntityId],
    world: &WorldView,
    excluded: &[GroundAction],
    costs: &C,
    index: usize,
    schema: &AffordanceSchema,
    conditions: &Vec<Condition>,
    at: usize,
    plan: &Vec<GroundAction>,
    cost: Cost,
    settled: &mut usize,
    visited: &mut Vec<(Vec<Condition>, Cost)>,
    best: &mut Option<(Cost, Vec<GroundAction>)>,
)
    requires
        index < registry.schema_items().len(),
        *schema == registry.schema_items()[index as int],
        schema.resolution_view() != Resolution::Opaque,
        crate::perform::all_valid(registry.schema_items(), registry.state_view()),
        at < conditions@.len(),
        plan@.len() <= MAX_DEPTH,
        *old(settled) <= MAX_SETTLED,
        visited_unique(visited_view(old(visited)@)),
        best_ok(*old(best), registry.schema_items(), actor.0, actions_view(excluded@), actions_view(plan@), cost),
        best_sound(*old(best), registry.state_view(), world@, registry.schema_items(), actor.0, conds_view(conditions@), actions_view(plan@)),
    ensures
        *final(settled) <= MAX_SETTLED,
        visited_unique(visited_view(final(visited)@)),
        best_ok(*final(best), registry.schema_items(), actor.0, actions_view(excluded@), actions_view(plan@), cost),
        best_sound(*final(best), registry.state_view(), world@, registry.schema_items(), actor.0, conds_view(conditions@), actions_view(plan@)),
        (found_view(*final(best)), tally_of(*final(settled), final(visited)@)) == effects_spec(
            search_of(registry, actor.0, entities_view(known@), world@, actions_view(excluded@), costs),
            conds_view(conditions@),
            at as int,
            actions_view(plan@),
            cost,
            index as int,
            0,
            found_view(*old(best)),
            tally_of(*old(settled), old(visited)@),
        ),
    decreases MAX_DEPTH + 1 - plan@.len(), 0nat,
{
    let ghost reg = registry.schema_items();
    assert(schema_valid(&reg[index as int], registry.state_view()));
    let goal = &conditions[at];
    let effects = schema.effects();
    let ghost srch = search_of(registry, actor.0, entities_view(known@), world@, actions_view(excluded@), costs);
    let ghost cs = conds_view(conditions@);
    let ghost pv = actions_view(plan@);
    let ghost goal_e = effects_spec(srch, cs, at as int, pv, cost, index as int, 0, found_view(*best), tally_of(*settled, visited@));
    let mut j: usize = 0;
    while j < effects.len()
        invariant
            j <= effects@.len(),
            reg == registry.schema_items(),
            index < reg.len(),
            *schema == reg[index as int],
            schema.resolution_view() != Resolution::Opaque,
            schema_valid(schema, registry.state_view()),
            at < conditions@.len(),
            plan@.len() <= MAX_DEPTH,
            *settled <= MAX_SETTLED,
            visited_unique(visited_view(visited@)),
            best_ok(*best, reg, actor.0, actions_view(excluded@), actions_view(plan@), cost),
            best_sound(*best, registry.state_view(), world@, reg, actor.0, conds_view(conditions@), actions_view(plan@)),
            effects@.map_values(|e: Effect| e@) == schema.effect_items(),
            *goal == conditions@[at as int],
            srch == search_of(registry, actor.0, entities_view(known@), world@, actions_view(excluded@), costs),
            cs == conds_view(conditions@),
            pv == actions_view(plan@),
            effects_spec(srch, cs, at as int, pv, cost, index as int, j as nat, found_view(*best), tally_of(*settled, visited@)) == goal_e,
        decreases effects.len() - j,
    {
        match match_effect(&effects[j], goal, actor) {
            None => {
                proof {
                    assert(effects@[j as int]@ == schema.effect_items()[j as int]);
                    assert(goal@ == cs[at as int]);
                    assert(match_spec(srch.reg[index as int].effect_items()[j as int], cs[at as int], actor.0) is None);
                }
            },
            Some(seed) => {
                proof {
                    assert(match_spec(effects@[j as int]@, goal@, actor.0) == Some(param_binds(seed@)));
                    assert(effects@[j as int]@ == schema.effect_items()[j as int]);
                    assert(conds_view(conditions@)[at as int] == conditions@[at as int]@);
                }
                let ghost seed_b = param_binds(seed@);
                proof {
                    assert(goal@ == conds_view(conditions@)[at as int]);
                    assert(reg[index as int].effect_items()[j as int] == effects@[j as int]@);
                    assert(match_spec(reg[index as int].effect_items()[j as int], conds_view(conditions@)[at as int], actor.0) == Some(seed_b));
                }
                let groundings = ground_inputs(schema, seed, conditions.as_slice(), known);
                let ghost ins = params_with_mode(schema.params(), ParameterMode::Input);
                let ghost es = choose|es: Seq<u64>|
                    strictly_increasing(es) && es.to_set() == (entities_view(known@) + all_entities(conds_view(conditions@))).to_set()
                        && bindings_view(groundings@) == inputs_from(ins, 0, es.map_values(|e: u64| ValueV::Entity(e)), param_binds(seed@));
                proof {
                    assert(agrees(seed_b, seed_b));
                    lemma_inputs_from_agree(ins, 0, es.map_values(|e: u64| ValueV::Entity(e)), seed_b, seed_b);
                    let set = (srch.known + all_entities(cs)).to_set();
                    assert(set == (entities_view(known@) + all_entities(conds_view(conditions@))).to_set());
                    lemma_increasing_unique(es, sorted_entities(set));
                    assert(candidates(srch, cs) == es.map_values(|e: u64| ValueV::Entity(e)));
                }
                let ghost gs_spec = bindings_view(groundings@);
                let ghost goal_g = groundings_spec(srch, cs, at as int, pv, cost, index as int, gs_spec, 0, found_view(*best), tally_of(*settled, visited@));
                assert(effects_spec(srch, cs, at as int, pv, cost, index as int, j as nat, found_view(*best), tally_of(*settled, visited@))
                    == effects_spec(srch, cs, at as int, pv, cost, index as int, (j + 1) as nat, goal_g.0, goal_g.1));
                let mut g: usize = 0;
                while g < groundings.len()
                    invariant
                        g <= groundings@.len(),
                        reg == registry.schema_items(),
                        index < reg.len(),
                        *schema == reg[index as int],
                        schema.resolution_view() != Resolution::Opaque,
                        schema_valid(schema, registry.state_view()),
                        ins == params_with_mode(schema.params(), ParameterMode::Input),
                        bindings_view(groundings@) == inputs_from(ins, 0, es.map_values(|e: u64| ValueV::Entity(e)), param_binds(seed@)),
                        at < conditions@.len(),
                        plan@.len() <= MAX_DEPTH,
                        *settled <= MAX_SETTLED,
                        visited_unique(visited_view(visited@)),
                        best_ok(*best, reg, actor.0, actions_view(excluded@), actions_view(plan@), cost),
                        best_sound(*best, registry.state_view(), world@, reg, actor.0, conds_view(conditions@), actions_view(plan@)),
                        effects@.map_values(|e: Effect| e@) == schema.effect_items(),
                        j < effects@.len(),
                        match_spec(reg[index as int].effect_items()[j as int], conds_view(conditions@)[at as int], actor.0) == Some(seed_b),
                        forall|q: int| 0 <= q < groundings@.len() ==> agrees(#[trigger] bindings_view(groundings@)[q], seed_b),
                        srch == search_of(registry, actor.0, entities_view(known@), world@, actions_view(excluded@), costs),
                        cs == conds_view(conditions@),
                        pv == actions_view(plan@),
                        gs_spec == bindings_view(groundings@),
                        effects_spec(srch, cs, at as int, pv, cost, index as int, (j + 1) as nat, goal_g.0, goal_g.1) == goal_e,
                        groundings_spec(srch, cs, at as int, pv, cost, index as int, gs_spec, g as nat, found_view(*best), tally_of(*settled, visited@)) == goal_g,
                    decreases groundings.len() - g,
                {
                    let grounding = &groundings[g];
                    proof {
                        lemma_groundings_complete(ins, es.map_values(|e: u64| ValueV::Entity(e)), param_binds(seed@), g as int);
                        assert(bindings_view(groundings@)[g as int] == param_binds(grounding@));
                    }
                    let values = input_values(schema, grounding.as_slice());
                    let ghost vals = values@;
                    let action = GroundAction::new(schema.id().clone(), actor, values);
                    proof {
                        let b = param_binds(grounding@);
                        assert forall|k: int| 0 <= k < ins.len() implies action@.inputs[#[trigger] ins[k].slot as int]
                            == local_value(b, ins[k].id)->0 by {
                            crate::validation::lemma_mode_param_slot_bounded(schema.params(), ParameterMode::Input, k);
                            assert(vals[ins[k].slot as int]@ == local_value(b, ins[k].id)->0);
                        }
                        assert(inputs_bound_by(reg[index as int], action@, b));
                        lemma_action_inputs(reg[index as int], actor.0, b, action@.inputs);
                        assert(action@ == action_of(srch.reg[index as int], srch.actor, gs_spec[g as int]));
                    }
                    let ghost before_g = (found_view(*best), tally_of(*settled, visited@));
                    if !actions_contain(excluded, &action) {
                        match next_conditions(registry, world, schema, &action, grounding.as_slice(), conditions, at) {
                            None => {},
                            Some(next) => {
                                let mut next_plan = copy_plan(plan.as_slice());
                                let ghost pv = actions_view(plan@);
                                next_plan.insert(0, action.clone());
                                assert(actions_view(next_plan@) =~= seq![action@] + pv);
                                let step = costs.cost(actor, schema, &action, world);
                                let next_cost = cost.saturating_add(step);
                                proof {
                                    assert(step_ok(reg, actor.0, actions_view(excluded@), action@)) by {
                                        assert(reg[index as int].id_view() == action@.affordance);
                                    }
                                }
                                let ghost next_v = conds_view(next@);
                                proof {
                                    assert(next_cost == add_cost(cost, (srch.price)(srch.reg[index as int], action@)));
                                }
                                match regress(registry, actor, known, world, excluded, costs, next, next_plan, next_cost, settled, visited) {
                                    None => {},
                                    Some(candidate) => {
                                        proof {
                                            lemma_plan_extend(reg, actor.0, actions_view(excluded@), actions_view(candidate.1@), pv, action@);
                                            let b = param_binds(grounding@);
                                            assert(agrees(b, seed_b));
                                            assert(inputs_bound_by(reg[index as int], action@, b));
                                            assert(regress_step_at(registry.state_view(), world@, reg, actor.0, conds_view(conditions@), action, conds_view(next@), index as int, j as int, at as int, b));
                                            lemma_candidate_sound(registry.state_view(), world@, reg, actor.0, conds_view(conditions@), action, conds_view(next@), pv, candidate, index as int, j as int, at as int, b);
                                        }
                                        let better = match &*best {
                                            None => true,
                                            Some(current) => candidate.0 < current.0,
                                        };
                                        if better {
                                            *best = Some(candidate);
                                        }
                                    },
                                }
                            },
                        }
                    }
                    g = g + 1;
                }
            },
        }
        j = j + 1;
    }
}

/// Read backwards from its last step, plan `p` regresses one of the ground
/// readings `goals` of a goal to conditions that all hold in the world now.
pub open spec fn plan_reaches(
    st: StateV,
    w: WorldV,
    reg: Seq<AffordanceSchema>,
    actor: u64,
    goals: Seq<Seq<ConditionV>>,
    p: Seq<GroundActionV>,
) -> bool {
    exists|k: int| 0 <= k < goals.len() && #[trigger] regresses(st, w, reg, actor, goals[k], p)
}

/// The fixed inputs of one search: the state vocabulary, the world, the
/// registered schemas, the actor, the known entities, the refused actions,
/// and the price of each step.
pub struct SearchV {
    pub st: StateV,
    pub w: WorldV,
    pub reg: Seq<AffordanceSchema>,
    pub actor: u64,
    pub known: Seq<u64>,
    pub excluded: Seq<GroundActionV>,
    pub price: spec_fn(AffordanceSchema, GroundActionV) -> Cost,
}

/// What one search has used so far: how many states it settled, and the
/// cost each visited set of conditions was last settled at.
pub struct TallyV {
    pub settled: nat,
    pub visited: Map<Seq<ConditionV>, Cost>,
}

/// A found plan with its cost.
pub type FoundV = Option<(Cost, Seq<GroundActionV>)>;

/// The cheaper of the best so far and a new candidate; on a tie the earlier
/// one stands.
pub open spec fn keep_cheaper(best: FoundV, cand: FoundV) -> FoundV {
    match cand {
        None => best,
        Some(c) => match best {
            None => Some(c),
            Some(b) => if c.0 < b.0 {
                Some(c)
            } else {
                best
            },
        },
    }
}

/// The first condition of `cs`, from `k` on, that does not hold now; the
/// length of `cs` when all hold.
pub open spec fn first_open(s: SearchV, cs: Seq<ConditionV>, k: nat) -> nat
    decreases cs.len() - k,
{
    if k >= cs.len() {
        cs.len()
    } else if !holds_spec(s.st, s.w, s.actor, cs[k as int]) {
        k
    } else {
        first_open(s, cs, k + 1)
    }
}

proof fn lemma_first_open_skip(s: SearchV, cs: Seq<ConditionV>, k: nat, at: nat)
    requires
        k <= at <= cs.len(),
        forall|j: int| k <= j < at ==> #[trigger] holds_spec(s.st, s.w, s.actor, cs[j]),
    ensures
        first_open(s, cs, k) == first_open(s, cs, at),
    decreases at - k,
{
    if k < at {
        lemma_first_open_skip(s, cs, k + 1, at);
    }
}

/// The increasing list of the entities of a finite set.
pub open spec fn sorted_entities(e: Set<u64>) -> Seq<u64> {
    choose|es: Seq<u64>| strictly_increasing(es) && es.to_set() == e
}

/// The entity values an unbound input may take while regressing `cs`: the
/// known entities and those the conditions name, in increasing order.
pub open spec fn candidates(s: SearchV, cs: Seq<ConditionV>) -> Seq<ValueV> {
    sorted_entities((s.known + all_entities(cs)).to_set()).map_values(|e: u64| ValueV::Entity(e))
}

/// The input of `ins` that sits in slot `slot`.
pub open spec fn slot_owner(ins: Seq<ParameterV>, slot: int) -> int {
    choose|k: int| 0 <= k < ins.len() && ins[k].slot == slot
}

/// The ground action that instantiates `schema` for `actor` with the input
/// values that `b` binds, each in its slot.
pub open spec fn action_of(schema: AffordanceSchema, actor: u64, b: Seq<(Seq<char>, ValueV)>) -> GroundActionV {
    let ins = params_with_mode(schema.params(), ParameterMode::Input);
    GroundActionV {
        affordance: schema.id_view(),
        actor,
        inputs: Seq::new(ins.len(), |slot: int| local_value(b, ins[slot_owner(ins, slot)].id)->0),
    }
}

/// `a + b`, saturating at the largest cost.
pub open spec fn add_cost(a: Cost, b: Cost) -> Cost {
    if a + b > u32::MAX {
        u32::MAX
    } else {
        (a + b) as Cost
    }
}

/// Regressing the conditions `cs` with `plan` already chosen after them, at
/// `cost`: past the depth bound or the settle budget, or at a set of
/// conditions already settled at no greater cost, nothing is found. Otherwise
/// the conditions are settled; if all hold, `plan` is found at `cost`; else
/// every non-opaque schema, in registration order, tries to achieve the first
/// condition that does not hold, and the cheapest find (the earliest on a tie)
/// is kept.
pub open spec fn regress_spec(s: SearchV, cs: Seq<ConditionV>, plan: Seq<GroundActionV>, cost: Cost, t: TallyV) -> (FoundV, TallyV)
    decreases MAX_DEPTH + 1 - plan.len(), 3nat, 0nat,
{
    if plan.len() > MAX_DEPTH || t.settled >= MAX_SETTLED {
        (None, t)
    } else if t.visited.contains_key(cs) && t.visited[cs] <= cost {
        (None, t)
    } else {
        let t1 = TallyV { settled: t.settled + 1, visited: t.visited.insert(cs, cost) };
        let at = first_open(s, cs, 0);
        if at >= cs.len() {
            (Some((cost, plan)), t1)
        } else {
            schemas_spec(s, cs, at as int, plan, cost, 0, None, t1)
        }
    }
}

/// The schemas from `i` on try to achieve condition `at` of `cs`.
pub open spec fn schemas_spec(
    s: SearchV,
    cs: Seq<ConditionV>,
    at: int,
    plan: Seq<GroundActionV>,
    cost: Cost,
    i: nat,
    best: FoundV,
    t: TallyV,
) -> (FoundV, TallyV)
    decreases MAX_DEPTH + 1 - plan.len(), 2nat, s.reg.len() - i,
{
    if i >= s.reg.len() {
        (best, t)
    } else if s.reg[i as int].resolution_view() == Resolution::Opaque {
        schemas_spec(s, cs, at, plan, cost, i + 1, best, t)
    } else {
        let (b2, t2) = effects_spec(s, cs, at, plan, cost, i as int, 0, best, t);
        schemas_spec(s, cs, at, plan, cost, i + 1, b2, t2)
    }
}

/// The effects of schema `i`, from `j` on, that unify with condition `at`
/// each try every complete grounding of the schema's inputs.
pub open spec fn effects_spec(
    s: SearchV,
    cs: Seq<ConditionV>,
    at: int,
    plan: Seq<GroundActionV>,
    cost: Cost,
    i: int,
    j: nat,
    best: FoundV,
    t: TallyV,
) -> (FoundV, TallyV)
    decreases MAX_DEPTH + 1 - plan.len(), 1nat, s.reg[i].effect_items().len() - j,
{
    if j >= s.reg[i].effect_items().len() {
        (best, t)
    } else {
        match match_spec(s.reg[i].effect_items()[j as int], cs[at], s.actor) {
            None => effects_spec(s, cs, at, plan, cost, i, j + 1, best, t),
            Some(seed) => {
                let gs = inputs_from(
                    params_with_mode(s.reg[i].params(), ParameterMode::Input),
                    0,
                    candidates(s, cs),
                    seed,
                );
                let (b2, t2) = groundings_spec(s, cs, at, plan, cost, i, gs, 0, best, t);
                effects_spec(s, cs, at, plan, cost, i, j + 1, b2, t2)
            },
        }
    }
}

/// The groundings `gs`, from `g` on, each as the step before `plan`: an
/// excluded action, or one whose guards make it inapplicable, is skipped;
/// otherwise the search regresses to what must hold before the step, at the
/// cost plus the step's price.
pub open spec fn groundings_spec(
    s: SearchV,
    cs: Seq<ConditionV>,
    at: int,
    plan: Seq<GroundActionV>,
    cost: Cost,
    i: int,
    gs: Seq<Seq<(Seq<char>, ValueV)>>,
    g: nat,
    best: FoundV,
    t: TallyV,
) -> (FoundV, TallyV)
    decreases MAX_DEPTH + 1 - plan.len(), 0nat, gs.len() - g,
{
    if plan.len() > MAX_DEPTH || g >= gs.len() {
        (best, t)
    } else {
        let b = gs[g as int];
        let a = action_of(s.reg[i], s.actor, b);
        if s.excluded.contains(a) {
            groundings_spec(s, cs, at, plan, cost, i, gs, g + 1, best, t)
        } else {
            match guards_next(s.reg[i].guard_items(), 0, s.st, s.w, s.reg[i], a, b, cs.remove(at)) {
                None => groundings_spec(s, cs, at, plan, cost, i, gs, g + 1, best, t),
                Some(next) => {
                    let (cand, t2) = regress_spec(s, next, seq![a] + plan, add_cost(cost, (s.price)(s.reg[i], a)), t);
                    groundings_spec(s, cs, at, plan, cost, i, gs, g + 1, keep_cheaper(best, cand), t2)
                },
            }
        }
    }
}

/// The search over the ground readings `goals`, from `k` on: each reading is
/// regressed from an empty plan at cost zero with fresh visited states and
/// the settle count so far, and the cheapest find (the earliest on a tie) is
/// kept.
pub open spec fn readings_spec(s: SearchV, goals: Seq<Seq<ConditionV>>, k: nat, best: FoundV, settled: nat) -> FoundV
    decreases goals.len() - k,
{
    if k >= goals.len() {
        best
    } else {
        let (cand, t) = regress_spec(
            s,
            goals[k as int],
            Seq::empty(),
            0,
            TallyV { settled, visited: Map::empty() },
        );
        readings_spec(s, goals, k + 1, keep_cheaper(best, cand), t.settled)
    }
}

/// The plan the search settles on for `goal`: the steps of the cheapest
/// find over its ground readings, if any.
pub open spec fn plan_spec(s: SearchV, goals: Seq<Seq<ConditionV>>) -> Option<Seq<GroundActionV>> {
    match readings_spec(s, goals, 0, None, 0) {
        Some((_, p)) => Some(p),
        None => None,
    }
}

/// The search a planner with cost model `costs` runs.
pub open spec fn search_of<C: CostModel>(
    registry: &AffordanceRegistry,
    actor: u64,
    known: Seq<u64>,
    world: WorldV,
    excluded: Seq<GroundActionV>,
    costs: &C,
) -> SearchV {
    SearchV {
        st: registry.state_view(),
        w: world,
        reg: registry.schema_items(),
        actor,
        known,
        excluded,
        price: |sch: AffordanceSchema, a: GroundActionV| costs.price(actor, sch, a, world),
    }
}

/// An increasing list is determined by the set of its elements.
proof fn lemma_increasing_unique(a: Seq<u64>, b: Seq<u64>)
    requires
        strictly_increasing(a),
        strictly_increasing(b),
        a.to_set() == b.to_set(),
    ensures
        a == b,
    decreases a.len(),
{
    if a.len() == 0 {
        if b.len() > 0 {
            assert(b.to_set().contains(b[0]));
        }
        assert(a =~= b);
    } else {
        assert(a.to_set().contains(a[0]));
        assert(b.to_set().contains(a[0]));
        let jb = choose|j: int| 0 <= j < b.len() && b[j] == a[0];
        assert(b.to_set().contains(b[0]));
        let ja = choose|j: int| 0 <= j < a.len() && a[j] == b[0];
        if jb > 0 {
            assert(b[0] < b[jb]);
        }
        if ja > 0 {
            assert(a[0] < a[ja]);
        }
        assert(a[0] == b[0]);
        let a2 = a.drop_first();
        let b2 = b.drop_first();
        assert(strictly_increasing(a2)) by {
            assert forall|i: int, j: int| 0 <= i < j < a2.len() implies #[trigger] a2[i] < #[trigger] a2[j] by {
                assert(a2[i] == a[i + 1] && a2[j] == a[j + 1]);
            }
        }
        assert(strictly_increasing(b2)) by {
            assert forall|i: int, j: int| 0 <= i < j < b2.len() implies #[trigger] b2[i] < #[trigger] b2[j] by {
                assert(b2[i] == b[i + 1] && b2[j] == b[j + 1]);
            }
        }
        assert(a2.to_set() =~= b2.to_set()) by {
            assert forall|x: u64| a2.to_set().contains(x) implies b2.to_set().contains(x) by {
                let i = choose|i: int| 0 <= i < a2.len() && a2[i] == x;
                assert(a[i + 1] == x);
                assert(a[0] < a[i + 1]);
                assert(a.to_set().contains(x));
                let j = choose|j: int| 0 <= j < b.len() && b[j] == x;
                assert(j != 0);
                assert(b2[j - 1] == x);
            }
            assert forall|x: u64| b2.to_set().contains(x) implies a2.to_set().contains(x) by {
                let i = choose|i: int| 0 <= i < b2.len() && b2[i] == x;
                assert(b[i + 1] == x);
                assert(b[0] < b[i + 1]);
                assert(b.to_set().contains(x));
                let j = choose|j: int| 0 <= j < a.len() && a[j] == x;
                assert(j != 0);
                assert(a2[j - 1] == x);
            }
        }
        lemma_increasing_unique(a2, b2);
        assert(a =~= seq![a[0]] + a2);
        assert(b =~= seq![b[0]] + b2);
    }
}

/// In a signature with dense, distinct slots, input values placed by slot
/// are exactly the values `action_of` reads.
proof fn lemma_action_inputs(schema: AffordanceSchema, actor: u64, b: Seq<(Seq<char>, ValueV)>, inputs: Seq<ValueV>)
    requires
        slots_distinct(schema.params()),
        slots_dense(schema.params(), ParameterMode::Input),
        inputs.len() == params_with_mode(schema.params(), ParameterMode::Input).len(),
        forall|k: int|
            0 <= k < params_with_mode(schema.params(), ParameterMode::Input).len() ==> inputs[#[trigger] params_with_mode(
                schema.params(),
                ParameterMode::Input,
            )[k].slot as int] == local_value(b, params_with_mode(schema.params(), ParameterMode::Input)[k].id)->0,
    ensures
        inputs == action_of(schema, actor, b).inputs,
{
    let ps = schema.params();
    let ins = params_with_mode(ps, ParameterMode::Input);
    let pred = |p: ParameterV| p.mode == ParameterMode::Input;
    let spec_inputs = action_of(schema, actor, b).inputs;
    assert forall|slot: int| 0 <= slot < ins.len() implies inputs[slot] == spec_inputs[slot] by {
        reveal(crate::validation::slots_dense);
        assert(crate::validation::slot_filled(ps, ParameterMode::Input, slot));
        let i = choose|i: int| 0 <= i < ps.len() && ps[i].mode == ParameterMode::Input && #[trigger] ps[i].slot == slot;
        ps.lemma_filter_contains(pred, i);
        let idx = choose|idx: int| 0 <= idx < ins.len() && ins[idx] == ps[i];
        assert(ins[idx].slot == slot);
        let k = slot_owner(ins, slot);
        assert(0 <= k < ins.len() && ins[k].slot == slot);
        assert(inputs[ins[k].slot as int] == local_value(b, ins[k].id)->0);
    }
    assert(inputs =~= spec_inputs);
}

/// Of the best find so far and a new candidate, the cheaper is kept: the
/// result is one of the two, it is no costlier than either, a find is never
/// lost, and on a tie the earlier find stands.
pub proof fn lemma_keep_cheaper(best: FoundV, cand: FoundV)
    ensures
        keep_cheaper(best, cand) == best || keep_cheaper(best, cand) == cand,
        keep_cheaper(best, cand) is None <==> best is None && cand is None,
        keep_cheaper(best, cand) matches Some(k) ==> (best matches Some(b) ==> k.0 <= b.0) && (cand matches Some(c)
            ==> k.0 <= c.0),
        (best matches Some(b) && cand matches Some(c) && b.0 <= c.0) ==> keep_cheaper(best, cand) == best,
{
}

/// Whether `r` keeps a find at least as cheap as `best`: a find is never
/// lost and never replaced by a costlier one.
pub open spec fn keeps_cheaper(best: FoundV, r: FoundV) -> bool {
    best matches Some(b) ==> (r matches Some(x) && x.0 <= b.0)
}

proof fn lemma_groundings_keep(
    s: SearchV,
    cs: Seq<ConditionV>,
    at: int,
    plan: Seq<GroundActionV>,
    cost: Cost,
    i: int,
    gs: Seq<Seq<(Seq<char>, ValueV)>>,
    g: nat,
    best: FoundV,
    t: TallyV,
)
    ensures
        keeps_cheaper(best, groundings_spec(s, cs, at, plan, cost, i, gs, g, best, t).0),
    decreases gs.len() - g,
{
    if !(plan.len() > MAX_DEPTH || g >= gs.len()) {
        let b = gs[g as int];
        let a = action_of(s.reg[i], s.actor, b);
        if s.excluded.contains(a) {
            lemma_groundings_keep(s, cs, at, plan, cost, i, gs, g + 1, best, t);
        } else {
            match guards_next(s.reg[i].guard_items(), 0, s.st, s.w, s.reg[i], a, b, cs.remove(at)) {
                None => lemma_groundings_keep(s, cs, at, plan, cost, i, gs, g + 1, best, t),
                Some(next) => {
                    let (cand, t2) = regress_spec(s, next, seq![a] + plan, add_cost(cost, (s.price)(s.reg[i], a)), t);
                    lemma_keep_cheaper(best, cand);
                    lemma_groundings_keep(s, cs, at, plan, cost, i, gs, g + 1, keep_cheaper(best, cand), t2);
                },
            }
        }
    }
}

/// A grounding that is tried is never outbid: when grounding `g` is not
/// excluded, its guards admit it, and regressing through it finds a plan,
/// the plan kept after the groundings from `g` on costs no more than that
/// find.
pub proof fn lemma_grounding_find_bounds(
    s: SearchV,
    cs: Seq<ConditionV>,
    at: int,
    plan: Seq<GroundActionV>,
    cost: Cost,
    i: int,
    gs: Seq<Seq<(Seq<char>, ValueV)>>,
    g: nat,
    best: FoundV,
    t: TallyV,
    next: Seq<ConditionV>,
)
    requires
        plan.len() <= MAX_DEPTH,
        g < gs.len(),
        !s.excluded.contains(action_of(s.reg[i], s.actor, gs[g as int])),
        guards_next(
            s.reg[i].guard_items(),
            0,
            s.st,
            s.w,
            s.reg[i],
            action_of(s.reg[i], s.actor, gs[g as int]),
            gs[g as int],
            cs.remove(at),
        ) == Some(next),
    ensures
        ({
            let a = action_of(s.reg[i], s.actor, gs[g as int]);
            let cand = regress_spec(s, next, seq![a] + plan, add_cost(cost, (s.price)(s.reg[i], a)), t).0;
            cand matches Some(c) ==> (groundings_spec(s, cs, at, plan, cost, i, gs, g, best, t).0 matches Some(r)
                && r.0 <= c.0)
        }),
{
    let a = action_of(s.reg[i], s.actor, gs[g as int]);
    let (cand, t2) = regress_spec(s, next, seq![a] + plan, add_cost(cost, (s.price)(s.reg[i], a)), t);
    lemma_keep_cheaper(best, cand);
    lemma_groundings_keep(s, cs, at, plan, cost, i, gs, g + 1, keep_cheaper(best, cand), t2);
}

proof fn lemma_effects_keep(
    s: SearchV,
    cs: Seq<ConditionV>,
    at: int,
    plan: Seq<GroundActionV>,
    cost: Cost,
    i: int,
    j: nat,
    best: FoundV,
    t: TallyV,
)
    ensures
        keeps_cheaper(best, effects_spec(s, cs, at, plan, cost, i, j, best, t).0),
    decreases s.reg[i].effect_items().len() - j,
{
    if j < s.reg[i].effect_items().len() {
        match match_spec(s.reg[i].effect_items()[j as int], cs[at], s.actor) {
            None => lemma_effects_keep(s, cs, at, plan, cost, i, j + 1, best, t),
            Some(seed) => {
                let gs = inputs_from(
                    params_with_mode(s.reg[i].params(), ParameterMode::Input),
                    0,
                    candidates(s, cs),
                    seed,
                );
                let (b2, t2) = groundings_spec(s, cs, at, plan, cost, i, gs, 0, best, t);
                lemma_groundings_keep(s, cs, at, plan, cost, i, gs, 0, best, t);
                lemma_effects_keep(s, cs, at, plan, cost, i, j + 1, b2, t2);
            },
        }
    }
}

/// Trying the schemas from `i` on never loses the best find so far and never
/// trades it for a costlier one: whatever the regression finds along the
/// way, the kept plan costs no more than `best`.
pub proof fn lemma_schemas_keep_cheaper(
    s: SearchV,
    cs: Seq<ConditionV>,
    at: int,
    plan: Seq<GroundActionV>,
    cost: Cost,
    i: nat,
    best: FoundV,
    t: TallyV,
)
    ensures
        keeps_cheaper(best, schemas_spec(s, cs, at, plan, cost, i, best, t).0),
    decreases s.reg.len() - i,
{
    if i < s.reg.len() {
        if s.reg[i as int].resolution_view() == Resolution::Opaque {
            lemma_schemas_keep_cheaper(s, cs, at, plan, cost, i + 1, best, t);
        } else {
            let (b2, t2) = effects_spec(s, cs, at, plan, cost, i as int, 0, best, t);
            lemma_effects_keep(s, cs, at, plan, cost, i as int, 0, best, t);
            lemma_schemas_keep_cheaper(s, cs, at, plan, cost, i + 1, b2, t2);
        }
    }
}

/// The cost of a find; zero when there is none.
pub open spec fn found_cost(f: FoundV) -> Cost {
    match f {
        Some((c, _)) => c,
        None => 0,
    }
}

/// The settle count when the search starts on reading `k` of `goals`.
pub open spec fn reading_settled(s: SearchV, goals: Seq<Seq<ConditionV>>, k: nat) -> nat
    decreases k,
{
    if k == 0 {
        0
    } else {
        regress_spec(
            s,
            goals[k - 1],
            Seq::empty(),
            0,
            TallyV { settled: reading_settled(s, goals, (k - 1) as nat), visited: Map::empty() },
        ).1.settled
    }
}

/// What the search finds for reading `k` of `goals`, on its own.
pub open spec fn reading_find(s: SearchV, goals: Seq<Seq<ConditionV>>, k: nat) -> FoundV {
    regress_spec(
        s,
        goals[k as int],
        Seq::empty(),
        0,
        TallyV { settled: reading_settled(s, goals, k), visited: Map::empty() },
    ).0
}

proof fn lemma_readings_from(s: SearchV, goals: Seq<Seq<ConditionV>>, k: nat, best: FoundV)
    requires
        k <= goals.len(),
    ensures
        ({
            let r = readings_spec(s, goals, k, best, reading_settled(s, goals, k));
            &&& r is None <==> best is None && forall|j: nat| k <= j < goals.len() ==> #[trigger] reading_find(s, goals, j) is None
            &&& r matches Some(x) ==> {
                &&& r == best || exists|j: nat| k <= j < goals.len() && #[trigger] reading_find(s, goals, j) == r
                &&& best matches Some(b) ==> x.0 <= b.0
                &&& forall|j: nat| k <= j < goals.len() && #[trigger] reading_find(s, goals, j) is Some ==> x.0 <= found_cost(reading_find(s, goals, j))
            }
        }),
    decreases goals.len() - k,
{
    if k < goals.len() {
        let f = reading_find(s, goals, k);
        let nb = keep_cheaper(best, f);
        lemma_keep_cheaper(best, f);
        assert(reading_settled(s, goals, k + 1) == regress_spec(
            s,
            goals[k as int],
            Seq::empty(),
            0,
            TallyV { settled: reading_settled(s, goals, k), visited: Map::empty() },
        ).1.settled);
        lemma_readings_from(s, goals, k + 1, nb);
        let r = readings_spec(s, goals, k, best, reading_settled(s, goals, k));
        assert(r == readings_spec(s, goals, k + 1, nb, reading_settled(s, goals, k + 1)));
        if r is None {
            assert forall|j: nat| k <= j < goals.len() implies #[trigger] reading_find(s, goals, j) is None by {
                if j > k {
                }
            }
        }
        if let Some(x) = r {
            if r != best && r != nb {
                let j = choose|j: nat| k + 1 <= j < goals.len() && #[trigger] reading_find(s, goals, j) == r;
                assert(k <= j);
            }
            if r == nb && nb != best {
                assert(nb == f);
                assert(reading_find(s, goals, k) == r);
            }
            assert forall|j: nat| k <= j < goals.len() && #[trigger] reading_find(s, goals, j) is Some implies x.0
                <= found_cost(reading_find(s, goals, j)) by {
                if j == k {
                }
            }
        }
    }
}

/// The plan kept for a goal is the cheapest of the plans the search finds
/// over the goal's ground readings: some reading's find is the plan kept, at
/// no greater cost than any other reading's find, and nothing is kept only
/// when no reading finds a plan.
pub proof fn lemma_plan_is_cheapest_find(s: SearchV, goals: Seq<Seq<ConditionV>>)
    ensures
        readings_spec(s, goals, 0, None, 0) is None <==> forall|j: nat| j < goals.len() ==> #[trigger] reading_find(s, goals, j) is None,
        readings_spec(s, goals, 0, None, 0) matches Some((c, p)) ==> {
            &&& exists|j: nat| j < goals.len() && #[trigger] reading_find(s, goals, j) == Some((c, p))
            &&& forall|j: nat| j < goals.len() && #[trigger] reading_find(s, goals, j) is Some ==> c <= found_cost(reading_find(s, goals, j))
        },
{
    lemma_readings_from(s, goals, 0, None);
}

/// The model of a search result.
pub open spec fn found_view(r: Option<(Cost, Vec<GroundAction>)>) -> FoundV {
    match r {
        Some((c, p)) => Some((c, actions_view(p@))),
        None => None,
    }
}

/// The model of a search's settle count and visited states.
pub open spec fn tally_of(settled: usize, visited: Seq<(Vec<Condition>, Cost)>) -> TallyV {
    TallyV { settled: settled as nat, visited: visited_map(visited_view(visited)) }
}

/// The model of a returned plan.
pub open spec fn plan_view(r: Option<Vec<GroundAction>>) -> Option<Seq<GroundActionV>> {
    match r {
        Some(p) => Some(actions_view(p@)),
        None => None,
    }
}

/// A planner retains only cost policy. Registry and world are per-query
/// borrows, so a caller may release them before executing the returned plan.
pub struct Planner<'a, C: CostModel> {
    cost: &'a C,
}

impl<'a, C: CostModel> Planner<'a, C> {
    /// The cost model the planner prices steps with.
    pub closed spec fn cost_model(&self) -> &'a C {
        self.cost
    }

    pub fn new(cost: &'a C) -> (r: Self)
        ensures
            r.cost_model() == cost,
    {
        Planner { cost }
    }

    /// Plan toward `goal` for `actor`.
    pub fn plan(&self, registry: &AffordanceRegistry, actor: EntityId, goal: &Formula, known: &[EntityId], world: &WorldView) -> (r: Option<Vec<GroundAction>>)
        ensures
            r matches Some(p) ==> plan_ok(registry.schema_items(), actor.0, Seq::empty(), actions_view(p@), Seq::empty()),
            plan_view(r) == plan_spec(
                search_of(registry, actor.0, entities_view(known@), world@, Seq::empty(), self.cost_model()),
                goals_from(goal@, 0, entities_view(known@), Seq::empty()),
            ),
            r matches Some(p) ==> plan_reaches(
                registry.state_view(),
                world@,
                registry.schema_items(),
                actor.0,
                goals_from(goal@, 0, entities_view(known@), Seq::empty()),
                actions_view(p@),
            ),
            goals_from(goal@, 0, entities_view(known@), Seq::empty()).len() == 0 ==> r is None,
            (goals_from(goal@, 0, entities_view(known@), Seq::empty()).len() > 0 && all_hold(
                registry.state_view(),
                world@,
                actor.0,
                goals_from(goal@, 0, entities_view(known@), Seq::empty())[0],
            )) ==> (r matches Some(p) && p@.len() == 0),
    {
        let none: Vec<GroundAction> = Vec::new();
        assert(actions_view(none@) =~= Seq::<GroundActionV>::empty());
        self.plan_excluding(registry, actor, goal, known, world, none.as_slice())
    }

    /// Plan toward `goal` for `actor`, never proposing an action of
    /// `excluded`: over each ground reading of the goal (its locals bound to
    /// `known` entities), regress from the goal conditions and keep the first
    /// cheapest plan found.
    pub fn plan_excluding(
        &self,
        registry: &AffordanceRegistry,
        actor: EntityId,
        goal: &Formula,
        known: &[EntityId],
        world: &WorldView,
        excluded: &[GroundAction],
    ) -> (r: Option<Vec<GroundAction>>)
        ensures
            r matches Some(p) ==> plan_ok(registry.schema_items(), actor.0, actions_view(excluded@), actions_view(p@), Seq::empty()),
            plan_view(r) == plan_spec(
                search_of(registry, actor.0, entities_view(known@), world@, actions_view(excluded@), self.cost_model()),
                goals_from(goal@, 0, entities_view(known@), Seq::empty()),
            ),
            r matches Some(p) ==> plan_reaches(
                registry.state_view(),
                world@,
                registry.schema_items(),
                actor.0,
                goals_from(goal@, 0, entities_view(known@), Seq::empty()),
                actions_view(p@),
            ),
            goals_from(goal@, 0, entities_view(known@), Seq::empty()).len() == 0 ==> r is None,
            (goals_from(goal@, 0, entities_view(known@), Seq::empty()).len() > 0 && all_hold(
                registry.state_view(),
                world@,
                actor.0,
                goals_from(goal@, 0, entities_view(known@), Seq::empty())[0],
            )) ==> (r matches Some(p) && p@.len() == 0),
    {
        let groundings = ground_goals(goal, known);
        let ghost gs = goals_view(groundings@);
        let mut settled: usize = 0;
        let mut best: Option<(Cost, Vec<GroundAction>)> = None;
        let ghost ev = actions_view(excluded@);
        let ghost empty_plan = Seq::<GroundActionV>::empty();
        let ghost srch = search_of(registry, actor.0, entities_view(known@), world@, actions_view(excluded@), self.cost_model());
        let ghost goal_r = readings_spec(srch, gs, 0, None, 0);
        let mut k: usize = 0;
        while k < groundings.len()
            invariant
                k <= groundings@.len(),
                gs == goals_view(groundings@),
                gs == goals_from(goal@, 0, entities_view(known@), Seq::empty()),
                ev == actions_view(excluded@),
                srch == search_of(registry, actor.0, entities_view(known@), world@, actions_view(excluded@), self.cost_model()),
                readings_spec(srch, gs, k as nat, found_view(best), settled as nat) == goal_r,
                settled <= MAX_SETTLED,
                empty_plan == Seq::<GroundActionV>::empty(),
                best_ok(best, registry.schema_items(), actor.0, ev, empty_plan, 0),
                best matches Some((c, p)) ==> plan_reaches(registry.state_view(), world@, registry.schema_items(), actor.0, gs, actions_view(p@)),
                k == 0 ==> best is None && settled == 0,
                (k > 0 && all_hold(registry.state_view(), world@, actor.0, gs[0])) ==> (best matches Some((c, p)) && c == 0 && p@.len() == 0),
            decreases groundings.len() - k,
        {
            let conditions = copy_conds(groundings[k].as_slice());
            let mut visited: Vec<(Vec<Condition>, Cost)> = Vec::new();
            let empty: Vec<GroundAction> = Vec::new();
            proof {
                assert(visited_view(visited@) =~= Seq::<(Seq<ConditionV>, Cost)>::empty());
                assert(actions_view(empty@) =~= empty_plan);
                assert(conds_view(conditions@) == gs[k as int]);
                assert(visited_map(visited_view(visited@)) =~= Map::<Seq<ConditionV>, Cost>::empty());
                assert(self.cost == self.cost_model());
            }
            let ghost cv = conds_view(conditions@);
            let found = regress(registry, actor, known, world, excluded, self.cost, conditions, empty, 0, &mut settled, &mut visited);
            proof {
                if let Some((_, p)) = &found {
                    let q = choose|q: Seq<GroundActionV>|
                        #[trigger] regresses(registry.state_view(), world@, registry.schema_items(), actor.0, cv, q) && actions_view(p@) == q + empty_plan;
                    assert(q + empty_plan =~= q);
                    assert(cv == gs[k as int]);
                    assert(regresses(registry.state_view(), world@, registry.schema_items(), actor.0, gs[k as int], actions_view(p@)));
                }
            }
            match found {
                None => {},
                Some(candidate) => {
                    let better = match &best {
                        None => true,
                        Some(current) => candidate.0 < current.0,
                    };
                    if better {
                        best = Some(candidate);
                    }
                },
            }
            k = k + 1;
        }
        match best {
            Some((_, plan)) => Some(plan),
            None => None,
        }
    }

    /// Whether some ground reading of `goal` already holds for `actor`.
    pub fn goal_holds(&self, registry: &AffordanceRegistry, actor: EntityId, goal: &Formula, known: &[EntityId], world: &WorldView) -> (r: bool)
        ensures
            r == exists|i: int|
                0 <= i < goals_from(goal@, 0, entities_view(known@), Seq::empty()).len() && #[trigger] all_hold(
                    registry.state_view(),
                    world@,
                    actor.0,
                    goals_from(goal@, 0, entities_view(known@), Seq::empty())[i],
                ),
    {
        let groundings = ground_goals(goal, known);
        let ghost gs = goals_view(groundings@);
        let mut k: usize = 0;
        while k < groundings.len()
            invariant
                k <= groundings@.len(),
                gs == goals_view(groundings@),
                gs == goals_from(goal@, 0, entities_view(known@), Seq::empty()),
                forall|i: int| 0 <= i < k ==> !#[trigger] all_hold(registry.state_view(), world@, actor.0, gs[i]),
            decreases groundings.len() - k,
        {
            let conditions = &groundings[k];
            assert(gs[k as int] == conds_view(conditions@));
            let mut j: usize = 0;
            let mut all = true;
            while j < conditions.len()
                invariant
                    j <= conditions@.len(),
                    k < gs.len(),
                    gs[k as int] == conds_view(conditions@),
                    all == forall|m: int| 0 <= m < j ==> #[trigger] holds_spec(registry.state_view(), world@, actor.0, gs[k as int][m]),
                decreases conditions.len() - j,
            {
                assert(gs[k as int][j as int] == conditions@[j as int]@);
                if !holds(registry, actor, &conditions[j], world) {
                    all = false;
                }
                j = j + 1;
            }
            if all {
                assert(all_hold(registry.state_view(), world@, actor.0, gs[k as int]));
                return true;
            }
            k = k + 1;
        }
        false
    }
}

} // verus!
