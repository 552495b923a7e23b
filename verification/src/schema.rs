//! Canonical affordance schema and grounding values. Stable symbolic ids cross
//! process and wire boundaries; compact parameter slots index runtime
//! input/result arrays.

use vstd::prelude::*;
use crate::caps::Gate;
use crate::gauge::{GaugeDirection, GaugeId};
use crate::id::EntityId;
use crate::text::{is_valid_label, is_valid_name, valid_label, valid_name};

verus! {

/// A malformed stable symbolic identity or label.
#[derive(Debug, PartialEq, Eq)]
pub struct NameError {
    kind: String,
    value: String,
    rule: String,
}

impl NameError {
    pub closed spec fn kind_view(&self) -> Seq<char> {
        self.kind@
    }

    pub closed spec fn value_view(&self) -> Seq<char> {
        self.value@
    }

    pub closed spec fn rule_view(&self) -> Seq<char> {
        self.rule@
    }

    fn new(kind: &str, value: &str, rule: &str) -> (r: Self)
        ensures
            r.kind_view() == kind@,
            r.value_view() == value@,
            r.rule_view() == rule@,
    {
        NameError { kind: kind.to_owned(), value: value.to_owned(), rule: rule.to_owned() }
    }

    /// Which kind of identity was malformed.
    pub fn kind(&self) -> (r: &str)
        ensures
            r@ == self.kind_view(),
    {
        self.kind.as_str()
    }

    /// The rejected text.
    pub fn value(&self) -> (r: &str)
        ensures
            r@ == self.value_view(),
    {
        self.value.as_str()
    }

    /// The rule the text broke.
    pub fn rule(&self) -> (r: &str)
        ensures
            r@ == self.rule_view(),
    {
        self.rule.as_str()
    }
}

/// A stable symbolic affordance id: nonempty, with no whitespace or control characters.
#[derive(Debug, PartialEq, Eq, PartialOrd, Ord, Hash)]
pub struct AffordanceId(String);

impl View for AffordanceId {
    type V = Seq<char>;

    closed spec fn view(&self) -> Seq<char> {
        self.0@
    }
}

impl Clone for AffordanceId {
    fn clone(&self) -> (r: Self)
        ensures
            r == *self,
    {
        AffordanceId(self.0.clone())
    }
}

impl AffordanceId {
    /// The identity is a valid name.
    pub closed spec fn wf(&self) -> bool {
        valid_name(self.0@)
    }

    /// A validated affordance id, or the name rule it breaks.
    pub fn new(value: &str) -> (r: Result<Self, NameError>)
        ensures
            r is Ok <==> valid_name(value@),
            r matches Ok(id) ==> id@ == value@ && id.wf(),
            r matches Err(e) ==> e.kind_view() == "affordance id"@ && e.value_view() == value@
                && e.rule_view() == "names must be nonempty and contain no whitespace or control characters"@,
    {
        if is_valid_name(value) {
            Ok(AffordanceId(value.to_owned()))
        } else {
            Err(NameError::new("affordance id", value, "names must be nonempty and contain no whitespace or control characters"))
        }
    }

    pub fn as_str(&self) -> (r: &str)
        ensures
            r@ == self@,
    {
        self.0.as_str()
    }

    /// Whether two ids name the same thing.
    pub fn same(&self, other: &Self) -> (r: bool)
        ensures
            r == (self@ == other@),
    {
        self.0 == other.0
    }
}

/// A stable symbolic parameter id: nonempty, with no whitespace or control characters.
#[derive(Debug, PartialEq, Eq, PartialOrd, Ord, Hash)]
pub struct ParameterId(String);

impl View for ParameterId {
    type V = Seq<char>;

    closed spec fn view(&self) -> Seq<char> {
        self.0@
    }
}

impl Clone for ParameterId {
    fn clone(&self) -> (r: Self)
        ensures
            r == *self,
    {
        ParameterId(self.0.clone())
    }
}

impl ParameterId {
    /// The identity is a valid name.
    pub closed spec fn wf(&self) -> bool {
        valid_name(self.0@)
    }

    /// A validated parameter id, or the name rule it breaks.
    pub fn new(value: &str) -> (r: Result<Self, NameError>)
        ensures
            r is Ok <==> valid_name(value@),
            r matches Ok(id) ==> id@ == value@ && id.wf(),
            r matches Err(e) ==> e.kind_view() == "parameter id"@ && e.value_view() == value@
                && e.rule_view() == "names must be nonempty and contain no whitespace or control characters"@,
    {
        if is_valid_name(value) {
            Ok(ParameterId(value.to_owned()))
        } else {
            Err(NameError::new("parameter id", value, "names must be nonempty and contain no whitespace or control characters"))
        }
    }

    pub fn as_str(&self) -> (r: &str)
        ensures
            r@ == self@,
    {
        self.0.as_str()
    }

    /// Whether two ids name the same thing.
    pub fn same(&self, other: &Self) -> (r: bool)
        ensures
            r == (self@ == other@),
    {
        self.0 == other.0
    }
}

/// A stable symbolic local id: nonempty, with no whitespace or control characters.
#[derive(Debug, PartialEq, Eq, PartialOrd, Ord, Hash)]
pub struct LocalId(String);

impl View for LocalId {
    type V = Seq<char>;

    closed spec fn view(&self) -> Seq<char> {
        self.0@
    }
}

impl Clone for LocalId {
    fn clone(&self) -> (r: Self)
        ensures
            r == *self,
    {
        LocalId(self.0.clone())
    }
}

impl LocalId {
    /// The identity is a valid name.
    pub closed spec fn wf(&self) -> bool {
        valid_name(self.0@)
    }

    /// A validated local id, or the name rule it breaks.
    pub fn new(value: &str) -> (r: Result<Self, NameError>)
        ensures
            r is Ok <==> valid_name(value@),
            r matches Ok(id) ==> id@ == value@ && id.wf(),
            r matches Err(e) ==> e.kind_view() == "local id"@ && e.value_view() == value@
                && e.rule_view() == "names must be nonempty and contain no whitespace or control characters"@,
    {
        if is_valid_name(value) {
            Ok(LocalId(value.to_owned()))
        } else {
            Err(NameError::new("local id", value, "names must be nonempty and contain no whitespace or control characters"))
        }
    }

    pub fn as_str(&self) -> (r: &str)
        ensures
            r@ == self@,
    {
        self.0.as_str()
    }

    /// Whether two ids name the same thing.
    pub fn same(&self, other: &Self) -> (r: bool)
        ensures
            r == (self@ == other@),
    {
        self.0 == other.0
    }
}

/// A stable symbolic relation id: nonempty, with no whitespace or control characters.
#[derive(Debug, PartialEq, Eq, PartialOrd, Ord, Hash)]
pub struct RelationId(String);

impl View for RelationId {
    type V = Seq<char>;

    closed spec fn view(&self) -> Seq<char> {
        self.0@
    }
}

impl Clone for RelationId {
    fn clone(&self) -> (r: Self)
        ensures
            r == *self,
    {
        RelationId(self.0.clone())
    }
}

impl RelationId {
    /// The identity is a valid name.
    pub closed spec fn wf(&self) -> bool {
        valid_name(self.0@)
    }

    /// A validated relation id, or the name rule it breaks.
    pub fn new(value: &str) -> (r: Result<Self, NameError>)
        ensures
            r is Ok <==> valid_name(value@),
            r matches Ok(id) ==> id@ == value@ && id.wf(),
            r matches Err(e) ==> e.kind_view() == "relation id"@ && e.value_view() == value@
                && e.rule_view() == "names must be nonempty and contain no whitespace or control characters"@,
    {
        if is_valid_name(value) {
            Ok(RelationId(value.to_owned()))
        } else {
            Err(NameError::new("relation id", value, "names must be nonempty and contain no whitespace or control characters"))
        }
    }

    pub fn as_str(&self) -> (r: &str)
        ensures
            r@ == self@,
    {
        self.0.as_str()
    }

    /// Whether two ids name the same thing.
    pub fn same(&self, other: &Self) -> (r: bool)
        ensures
            r == (self@ == other@),
    {
        self.0 == other.0
    }
}

/// A stable symbolic component id: nonempty, with no whitespace or control characters.
#[derive(Debug, PartialEq, Eq, PartialOrd, Ord, Hash)]
pub struct ComponentId(String);

impl View for ComponentId {
    type V = Seq<char>;

    closed spec fn view(&self) -> Seq<char> {
        self.0@
    }
}

impl Clone for ComponentId {
    fn clone(&self) -> (r: Self)
        ensures
            r == *self,
    {
        ComponentId(self.0.clone())
    }
}

impl ComponentId {
    /// The identity is a valid name.
    pub closed spec fn wf(&self) -> bool {
        valid_name(self.0@)
    }

    /// A validated component id, or the name rule it breaks.
    pub fn new(value: &str) -> (r: Result<Self, NameError>)
        ensures
            r is Ok <==> valid_name(value@),
            r matches Ok(id) ==> id@ == value@ && id.wf(),
            r matches Err(e) ==> e.kind_view() == "component id"@ && e.value_view() == value@
                && e.rule_view() == "names must be nonempty and contain no whitespace or control characters"@,
    {
        if is_valid_name(value) {
            Ok(ComponentId(value.to_owned()))
        } else {
            Err(NameError::new("component id", value, "names must be nonempty and contain no whitespace or control characters"))
        }
    }

    pub fn as_str(&self) -> (r: &str)
        ensures
            r@ == self@,
    {
        self.0.as_str()
    }

    /// Whether two ids name the same thing.
    pub fn same(&self, other: &Self) -> (r: bool)
        ensures
            r == (self@ == other@),
    {
        self.0 == other.0
    }
}

/// A stable symbolic gauge region id: nonempty, with no whitespace or control characters.
#[derive(Debug, PartialEq, Eq, PartialOrd, Ord, Hash)]
pub struct GaugeRegionId(String);

impl View for GaugeRegionId {
    type V = Seq<char>;

    closed spec fn view(&self) -> Seq<char> {
        self.0@
    }
}

impl Clone for GaugeRegionId {
    fn clone(&self) -> (r: Self)
        ensures
            r == *self,
    {
        GaugeRegionId(self.0.clone())
    }
}

impl GaugeRegionId {
    /// The identity is a valid name.
    pub closed spec fn wf(&self) -> bool {
        valid_name(self.0@)
    }

    /// A validated gauge region id, or the name rule it breaks.
    pub fn new(value: &str) -> (r: Result<Self, NameError>)
        ensures
            r is Ok <==> valid_name(value@),
            r matches Ok(id) ==> id@ == value@ && id.wf(),
            r matches Err(e) ==> e.kind_view() == "gauge region id"@ && e.value_view() == value@
                && e.rule_view() == "names must be nonempty and contain no whitespace or control characters"@,
    {
        if is_valid_name(value) {
            Ok(GaugeRegionId(value.to_owned()))
        } else {
            Err(NameError::new("gauge region id", value, "names must be nonempty and contain no whitespace or control characters"))
        }
    }

    pub fn as_str(&self) -> (r: &str)
        ensures
            r@ == self@,
    {
        self.0.as_str()
    }

    /// Whether two ids name the same thing.
    pub fn same(&self, other: &Self) -> (r: bool)
        ensures
            r == (self@ == other@),
    {
        self.0 == other.0
    }
}

/// A stable symbolic symbol domain id: nonempty, with no whitespace or control characters.
#[derive(Debug, PartialEq, Eq, PartialOrd, Ord, Hash)]
pub struct SymbolDomainId(String);

impl View for SymbolDomainId {
    type V = Seq<char>;

    closed spec fn view(&self) -> Seq<char> {
        self.0@
    }
}

impl Clone for SymbolDomainId {
    fn clone(&self) -> (r: Self)
        ensures
            r == *self,
    {
        SymbolDomainId(self.0.clone())
    }
}

impl SymbolDomainId {
    /// The identity is a valid name.
    pub closed spec fn wf(&self) -> bool {
        valid_name(self.0@)
    }

    /// A validated symbol domain id, or the name rule it breaks.
    pub fn new(value: &str) -> (r: Result<Self, NameError>)
        ensures
            r is Ok <==> valid_name(value@),
            r matches Ok(id) ==> id@ == value@ && id.wf(),
            r matches Err(e) ==> e.kind_view() == "symbol domain id"@ && e.value_view() == value@
                && e.rule_view() == "names must be nonempty and contain no whitespace or control characters"@,
    {
        if is_valid_name(value) {
            Ok(SymbolDomainId(value.to_owned()))
        } else {
            Err(NameError::new("symbol domain id", value, "names must be nonempty and contain no whitespace or control characters"))
        }
    }

    pub fn as_str(&self) -> (r: &str)
        ensures
            r@ == self@,
    {
        self.0.as_str()
    }

    /// Whether two ids name the same thing.
    pub fn same(&self, other: &Self) -> (r: bool)
        ensures
            r == (self@ == other@),
    {
        self.0 == other.0
    }
}

/// A stable symbolic symbol id: nonempty, with no whitespace or control characters.
#[derive(Debug, PartialEq, Eq, PartialOrd, Ord, Hash)]
pub struct SymbolId(String);

impl View for SymbolId {
    type V = Seq<char>;

    closed spec fn view(&self) -> Seq<char> {
        self.0@
    }
}

impl Clone for SymbolId {
    fn clone(&self) -> (r: Self)
        ensures
            r == *self,
    {
        SymbolId(self.0.clone())
    }
}

impl SymbolId {
    /// The identity is a valid name.
    pub closed spec fn wf(&self) -> bool {
        valid_name(self.0@)
    }

    /// A validated symbol id, or the name rule it breaks.
    pub fn new(value: &str) -> (r: Result<Self, NameError>)
        ensures
            r is Ok <==> valid_name(value@),
            r matches Ok(id) ==> id@ == value@ && id.wf(),
            r matches Err(e) ==> e.kind_view() == "symbol id"@ && e.value_view() == value@
                && e.rule_view() == "names must be nonempty and contain no whitespace or control characters"@,
    {
        if is_valid_name(value) {
            Ok(SymbolId(value.to_owned()))
        } else {
            Err(NameError::new("symbol id", value, "names must be nonempty and contain no whitespace or control characters"))
        }
    }

    pub fn as_str(&self) -> (r: &str)
        ensures
            r@ == self@,
    {
        self.0.as_str()
    }

    /// Whether two ids name the same thing.
    pub fn same(&self, other: &Self) -> (r: bool)
        ensures
            r == (self@ == other@),
    {
        self.0 == other.0
    }
}

/// Model of a value sort.
pub enum ValueSortV {
    Entity,
    Text,
    Symbol(Seq<char>),
}

/// Model of a value.
pub enum ValueV {
    Entity(u64),
    Text(Seq<char>),
    Symbol(Seq<char>, Seq<char>),
}

pub open spec fn sort_of(v: ValueV) -> ValueSortV {
    match v {
        ValueV::Entity(_) => ValueSortV::Entity,
        ValueV::Text(_) => ValueSortV::Text,
        ValueV::Symbol(d, _) => ValueSortV::Symbol(d),
    }
}

/// The runtime kind of a canonical affordance value.
#[derive(Debug, PartialEq, Eq, Hash)]
pub enum ValueSort {
    Entity,
    Text,
    Symbol(SymbolDomainId),
}

impl View for ValueSort {
    type V = ValueSortV;

    open spec fn view(&self) -> ValueSortV {
        match self {
            ValueSort::Entity => ValueSortV::Entity,
            ValueSort::Text => ValueSortV::Text,
            ValueSort::Symbol(d) => ValueSortV::Symbol(d@),
        }
    }
}

impl Clone for ValueSort {
    fn clone(&self) -> (r: Self)
        ensures
            r == *self,
    {
        match self {
            ValueSort::Entity => ValueSort::Entity,
            ValueSort::Text => ValueSort::Text,
            ValueSort::Symbol(d) => ValueSort::Symbol(d.clone()),
        }
    }
}

impl ValueSort {
    /// Whether two sorts are the same sort.
    pub fn same(&self, other: &ValueSort) -> (r: bool)
        ensures
            r == (self@ == other@),
    {
        match (self, other) {
            (ValueSort::Entity, ValueSort::Entity) => true,
            (ValueSort::Text, ValueSort::Text) => true,
            (ValueSort::Symbol(a), ValueSort::Symbol(b)) => a.same(b),
            _ => false,
        }
    }

    pub fn is_entity(&self) -> (r: bool)
        ensures
            r == (self@ == ValueSortV::Entity),
    {
        match self {
            ValueSort::Entity => true,
            _ => false,
        }
    }

    pub fn is_text(&self) -> (r: bool)
        ensures
            r == (self@ == ValueSortV::Text),
    {
        match self {
            ValueSort::Text => true,
            _ => false,
        }
    }
}

/// One member of a registered finite symbolic domain.
#[derive(Debug, PartialEq, Eq, Hash)]
pub struct SymbolValue {
    domain: SymbolDomainId,
    value: SymbolId,
}

impl View for SymbolValue {
    type V = (Seq<char>, Seq<char>);

    closed spec fn view(&self) -> (Seq<char>, Seq<char>) {
        (self.domain@, self.value@)
    }
}

impl Clone for SymbolValue {
    fn clone(&self) -> (r: Self)
        ensures
            r == *self,
    {
        SymbolValue { domain: self.domain.clone(), value: self.value.clone() }
    }
}

impl SymbolValue {
    pub fn new(domain: SymbolDomainId, value: SymbolId) -> (r: Self)
        ensures
            r@ == (domain@, value@),
    {
        SymbolValue { domain, value }
    }

    pub fn domain(&self) -> (r: &SymbolDomainId)
        ensures
            r@ == self@.0,
    {
        &self.domain
    }

    pub fn value(&self) -> (r: &SymbolId)
        ensures
            r@ == self@.1,
    {
        &self.value
    }
}

/// A type-erased input, result, local, or constant value.
#[derive(Debug, PartialEq, Eq, Hash)]
pub enum Value {
    Entity(EntityId),
    Text(String),
    Symbol(SymbolValue),
}

impl View for Value {
    type V = ValueV;

    open spec fn view(&self) -> ValueV {
        match self {
            Value::Entity(e) => ValueV::Entity(e.0),
            Value::Text(t) => ValueV::Text(t@),
            Value::Symbol(s) => ValueV::Symbol(s@.0, s@.1),
        }
    }
}

impl Clone for Value {
    fn clone(&self) -> (r: Self)
        ensures
            r == *self,
    {
        match self {
            Value::Entity(e) => Value::Entity(*e),
            Value::Text(t) => Value::Text(t.clone()),
            Value::Symbol(s) => Value::Symbol(s.clone()),
        }
    }
}

impl Value {
    pub fn text(value: &str) -> (r: Self)
        ensures
            r@ == ValueV::Text(value@),
    {
        Value::Text(value.to_owned())
    }

    pub fn from_entity(value: EntityId) -> (r: Self)
        ensures
            r@ == ValueV::Entity(value.0),
    {
        Value::Entity(value)
    }

    pub fn sort(&self) -> (r: ValueSort)
        ensures
            r@ == sort_of(self@),
    {
        match self {
            Value::Entity(_) => ValueSort::Entity,
            Value::Text(_) => ValueSort::Text,
            Value::Symbol(value) => ValueSort::Symbol(value.domain.clone()),
        }
    }

    pub fn as_entity(&self) -> (r: Option<EntityId>)
        ensures
            match self@ {
                ValueV::Entity(e) => r == Some(EntityId(e)),
                _ => r is None,
            },
    {
        match self {
            Value::Entity(entity) => Some(*entity),
            _ => None,
        }
    }

    /// Whether two values are the same value.
    pub fn same(&self, other: &Value) -> (r: bool)
        ensures
            r == (self@ == other@),
    {
        match (self, other) {
            (Value::Entity(a), Value::Entity(b)) => a.0 == b.0,
            (Value::Text(a), Value::Text(b)) => *a == *b,
            (Value::Symbol(a), Value::Symbol(b)) => a.domain.same(&b.domain) && a.value.same(
                &b.value,
            ),
            _ => false,
        }
    }
}

/// Whether a parameter is supplied before execution or produced by it.
#[derive(Clone, Copy, Debug, PartialEq, Eq, Structural, Hash)]
pub enum ParameterMode {
    Input,
    Result,
}

/// Model of a parameter declaration.
pub struct ParameterV {
    pub id: Seq<char>,
    pub label: Seq<char>,
    pub sort: ValueSortV,
    pub mode: ParameterMode,
    pub slot: u16,
}

/// One action-local input or result declaration.
#[derive(Debug, PartialEq, Eq, Hash)]
pub struct Parameter {
    id: ParameterId,
    label: String,
    sort: ValueSort,
    mode: ParameterMode,
    slot: u16,
}

impl View for Parameter {
    type V = ParameterV;

    closed spec fn view(&self) -> ParameterV {
        ParameterV {
            id: self.id@,
            label: self.label@,
            sort: self.sort@,
            mode: self.mode,
            slot: self.slot,
        }
    }
}

impl Clone for Parameter {
    fn clone(&self) -> (r: Self)
        ensures
            r == *self,
    {
        Parameter {
            id: self.id.clone(),
            label: self.label.clone(),
            sort: self.sort.clone(),
            mode: self.mode,
            slot: self.slot,
        }
    }
}

impl Parameter {
    /// A parameter declaration, or the label rule its label breaks.
    pub fn new(id: ParameterId, label: &str, sort: ValueSort, mode: ParameterMode, slot: u16) -> (r:
        Result<Self, NameError>)
        ensures
            r is Ok <==> valid_label(label@),
            r matches Ok(p) ==> p@ == (ParameterV {
                id: id@,
                label: label@,
                sort: sort@,
                mode,
                slot,
            }),
            r matches Err(e) ==> e.kind_view() == "parameter label"@ && e.value_view() == label@
                && e.rule_view() == "labels must contain visible text and no control characters"@,
    {
        if !is_valid_label(label) {
            return Err(
                NameError::new(
                    "parameter label",
                    label,
                    "labels must contain visible text and no control characters",
                ),
            );
        }
        Ok(Parameter { id, label: label.to_owned(), sort, mode, slot })
    }

    pub fn id(&self) -> (r: &ParameterId)
        ensures
            r@ == self@.id,
    {
        &self.id
    }

    pub fn label(&self) -> (r: &str)
        ensures
            r@ == self@.label,
    {
        self.label.as_str()
    }

    pub fn sort(&self) -> (r: &ValueSort)
        ensures
            r@ == self@.sort,
    {
        &self.sort
    }

    pub fn mode(&self) -> (r: ParameterMode)
        ensures
            r == self@.mode,
    {
        self.mode
    }

    pub fn slot(&self) -> (r: u16)
        ensures
            r == self@.slot,
    {
        self.slot
    }
}

/// An existential value declaration scoped to one formula.
#[derive(Debug, PartialEq, Eq, Hash)]
pub struct Local {
    id: LocalId,
    sort: ValueSort,
}

impl View for Local {
    type V = (Seq<char>, ValueSortV);

    closed spec fn view(&self) -> (Seq<char>, ValueSortV) {
        (self.id@, self.sort@)
    }
}

impl Clone for Local {
    fn clone(&self) -> (r: Self)
        ensures
            r == *self,
    {
        Local { id: self.id.clone(), sort: self.sort.clone() }
    }
}

impl Local {
    pub fn new(id: LocalId, sort: ValueSort) -> (r: Self)
        ensures
            r@ == (id@, sort@),
    {
        Local { id, sort }
    }

    pub fn id(&self) -> (r: &LocalId)
        ensures
            r@ == self@.0,
    {
        &self.id
    }

    pub fn sort(&self) -> (r: &ValueSort)
        ensures
            r@ == self@.1,
    {
        &self.sort
    }
}

/// Model of a term.
pub enum TermV {
    Actor,
    Input(Seq<char>),
    Result(Seq<char>),
    Local(Seq<char>),
    Constant(ValueV),
}

/// A value reference inside a condition or effect.
#[derive(Debug, PartialEq, Eq, Hash)]
pub enum Term {
    Actor,
    Input(ParameterId),
    Result(ParameterId),
    Local(LocalId),
    Constant(Value),
}

impl View for Term {
    type V = TermV;

    open spec fn view(&self) -> TermV {
        match self {
            Term::Actor => TermV::Actor,
            Term::Input(p) => TermV::Input(p@),
            Term::Result(p) => TermV::Result(p@),
            Term::Local(l) => TermV::Local(l@),
            Term::Constant(v) => TermV::Constant(v@),
        }
    }
}

impl Clone for Term {
    fn clone(&self) -> (r: Self)
        ensures
            r == *self,
    {
        match self {
            Term::Actor => Term::Actor,
            Term::Input(p) => Term::Input(p.clone()),
            Term::Result(p) => Term::Result(p.clone()),
            Term::Local(l) => Term::Local(l.clone()),
            Term::Constant(v) => Term::Constant(v.clone()),
        }
    }
}

impl Term {
    /// Whether two terms are the same term.
    pub fn same(&self, other: &Term) -> (r: bool)
        ensures
            r == (self@ == other@),
    {
        match (self, other) {
            (Term::Actor, Term::Actor) => true,
            (Term::Input(a), Term::Input(b)) => a.same(b),
            (Term::Result(a), Term::Result(b)) => a.same(b),
            (Term::Local(a), Term::Local(b)) => a.same(b),
            (Term::Constant(a), Term::Constant(b)) => a.same(b),
            _ => false,
        }
    }
}

/// Model of an optional-entity constraint.
pub enum OptionalEntityV {
    Is(TermV),
    IsUnset,
    IsNot(TermV),
}

/// A constraint on an optional entity-valued functional slot.
#[derive(Debug, PartialEq, Eq, Hash)]
pub enum OptionalEntity {
    Is(Term),
    IsUnset,
    IsNot(Term),
}

impl View for OptionalEntity {
    type V = OptionalEntityV;

    open spec fn view(&self) -> OptionalEntityV {
        match self {
            OptionalEntity::Is(t) => OptionalEntityV::Is(t@),
            OptionalEntity::IsUnset => OptionalEntityV::IsUnset,
            OptionalEntity::IsNot(t) => OptionalEntityV::IsNot(t@),
        }
    }
}

impl Clone for OptionalEntity {
    fn clone(&self) -> (r: Self)
        ensures
            r == *self,
    {
        match self {
            OptionalEntity::Is(t) => OptionalEntity::Is(t.clone()),
            OptionalEntity::IsUnset => OptionalEntity::IsUnset,
            OptionalEntity::IsNot(t) => OptionalEntity::IsNot(t.clone()),
        }
    }
}

impl OptionalEntity {
    /// Whether two constraints are the same constraint.
    pub fn same(&self, other: &OptionalEntity) -> (r: bool)
        ensures
            r == (self@ == other@),
    {
        match (self, other) {
            (OptionalEntity::Is(a), OptionalEntity::Is(b)) => a.same(b),
            (OptionalEntity::IsUnset, OptionalEntity::IsUnset) => true,
            (OptionalEntity::IsNot(a), OptionalEntity::IsNot(b)) => a.same(b),
            _ => false,
        }
    }
}

/// Model of a condition.
pub enum ConditionV {
    RelationTarget { source: TermV, relation: Seq<char>, target: OptionalEntityV },
    ComponentPresent { entity: TermV, component: Seq<char>, present: bool },
    LocusOf { entity: TermV, locus: OptionalEntityV },
    GaugeAtLeast { entity: TermV, gauge: Seq<char>, region: Seq<char> },
    GaugeAtMost { entity: TermV, gauge: Seq<char>, region: Seq<char> },
    Exists { entity: TermV, exists: bool },
    Distinct { left: TermV, right: TermV },
}

/// One truth-valued member of the closed affordance state algebra.
#[derive(Debug, PartialEq, Eq, Hash)]
pub enum Condition {
    RelationTarget { source: Term, relation: RelationId, target: OptionalEntity },
    ComponentPresent { entity: Term, component: ComponentId, present: bool },
    LocusOf { entity: Term, locus: OptionalEntity },
    GaugeAtLeast { entity: Term, gauge: GaugeId, region: GaugeRegionId },
    GaugeAtMost { entity: Term, gauge: GaugeId, region: GaugeRegionId },
    Exists { entity: Term, exists: bool },
    Distinct { left: Term, right: Term },
}

impl View for Condition {
    type V = ConditionV;

    open spec fn view(&self) -> ConditionV {
        match self {
            Condition::RelationTarget { source, relation, target } => ConditionV::RelationTarget {
                source: source@,
                relation: relation@,
                target: target@,
            },
            Condition::ComponentPresent { entity, component, present } =>
                ConditionV::ComponentPresent {
                entity: entity@,
                component: component@,
                present: *present,
            },
            Condition::LocusOf { entity, locus } => ConditionV::LocusOf {
                entity: entity@,
                locus: locus@,
            },
            Condition::GaugeAtLeast { entity, gauge, region } => ConditionV::GaugeAtLeast {
                entity: entity@,
                gauge: gauge@,
                region: region@,
            },
            Condition::GaugeAtMost { entity, gauge, region } => ConditionV::GaugeAtMost {
                entity: entity@,
                gauge: gauge@,
                region: region@,
            },
            Condition::Exists { entity, exists } => ConditionV::Exists {
                entity: entity@,
                exists: *exists,
            },
            Condition::Distinct { left, right } => ConditionV::Distinct {
                left: left@,
                right: right@,
            },
        }
    }
}

impl Clone for Condition {
    fn clone(&self) -> (r: Self)
        ensures
            r == *self,
    {
        match self {
            Condition::RelationTarget { source, relation, target } => Condition::RelationTarget {
                source: source.clone(),
                relation: relation.clone(),
                target: target.clone(),
            },
            Condition::ComponentPresent { entity, component, present } =>
                Condition::ComponentPresent {
                entity: entity.clone(),
                component: component.clone(),
                present: *present,
            },
            Condition::LocusOf { entity, locus } => Condition::LocusOf {
                entity: entity.clone(),
                locus: locus.clone(),
            },
            Condition::GaugeAtLeast { entity, gauge, region } => Condition::GaugeAtLeast {
                entity: entity.clone(),
                gauge: gauge.clone(),
                region: region.clone(),
            },
            Condition::GaugeAtMost { entity, gauge, region } => Condition::GaugeAtMost {
                entity: entity.clone(),
                gauge: gauge.clone(),
                region: region.clone(),
            },
            Condition::Exists { entity, exists } => Condition::Exists {
                entity: entity.clone(),
                exists: *exists,
            },
            Condition::Distinct { left, right } => Condition::Distinct {
                left: left.clone(),
                right: right.clone(),
            },
        }
    }
}

impl Condition {
    /// Whether two conditions are the same condition.
    pub fn same(&self, other: &Condition) -> (r: bool)
        ensures
            r == (self@ == other@),
    {
        match (self, other) {
            (
                Condition::RelationTarget { source: s1, relation: r1, target: t1 },
                Condition::RelationTarget { source: s2, relation: r2, target: t2 },
            ) => s1.same(s2) && r1.same(r2) && t1.same(t2),
            (
                Condition::ComponentPresent { entity: e1, component: c1, present: p1 },
                Condition::ComponentPresent { entity: e2, component: c2, present: p2 },
            ) => e1.same(e2) && c1.same(c2) && *p1 == *p2,
            (Condition::LocusOf { entity: e1, locus: l1 }, Condition::LocusOf { entity: e2, locus: l2 }) =>
                e1.same(e2) && l1.same(l2),
            (
                Condition::GaugeAtLeast { entity: e1, gauge: g1, region: r1 },
                Condition::GaugeAtLeast { entity: e2, gauge: g2, region: r2 },
            ) => e1.same(e2) && g1.same(g2) && r1.same(r2),
            (
                Condition::GaugeAtMost { entity: e1, gauge: g1, region: r1 },
                Condition::GaugeAtMost { entity: e2, gauge: g2, region: r2 },
            ) => e1.same(e2) && g1.same(g2) && r1.same(r2),
            (Condition::Exists { entity: e1, exists: x1 }, Condition::Exists { entity: e2, exists: x2 }) =>
                e1.same(e2) && *x1 == *x2,
            (Condition::Distinct { left: l1, right: r1 }, Condition::Distinct { left: l2, right: r2 }) =>
                l1.same(l2) && r1.same(r2),
            _ => false,
        }
    }
}

/// Model of a formula: its locals and its conditions.
pub struct FormulaV {
    pub locals: Seq<(Seq<char>, ValueSortV)>,
    pub conditions: Seq<ConditionV>,
}

/// A conjunction with formula-local existential witnesses.
#[derive(Debug, PartialEq, Eq, Hash)]
pub struct Formula {
    locals: Vec<Local>,
    conditions: Vec<Condition>,
}

impl View for Formula {
    type V = FormulaV;

    closed spec fn view(&self) -> FormulaV {
        FormulaV {
            locals: self.locals@.map_values(|l: Local| l@),
            conditions: self.conditions@.map_values(|c: Condition| c@),
        }
    }
}

impl Clone for Formula {
    fn clone(&self) -> (r: Self)
        ensures
            r@ == self@,
    {
        Formula { locals: self.locals.clone(), conditions: self.conditions.clone() }
    }
}

impl Formula {
    pub closed spec fn local_items(&self) -> Seq<Local> {
        self.locals@
    }

    pub closed spec fn condition_items(&self) -> Seq<Condition> {
        self.conditions@
    }

    pub fn new(locals: Vec<Local>, conditions: Vec<Condition>) -> (r: Self)
        ensures
            r.local_items() == locals@,
            r.condition_items() == conditions@,
            r@ == (FormulaV {
                locals: locals@.map_values(|l: Local| l@),
                conditions: conditions@.map_values(|c: Condition| c@),
            }),
    {
        Formula { locals, conditions }
    }

    pub fn all(conditions: Vec<Condition>) -> (r: Self)
        ensures
            r.local_items() == Seq::<Local>::empty(),
            r.condition_items() == conditions@,
            r@ == (FormulaV {
                locals: Seq::empty(),
                conditions: conditions@.map_values(|c: Condition| c@),
            }),
    {
        let r = Formula { locals: Vec::new(), conditions };
        assert(r@.locals =~= Seq::empty());
        r
    }

    /// The formula with no locals and no conditions: trivially true.
    pub fn empty() -> (r: Self)
        ensures
            r.local_items() == Seq::<Local>::empty(),
            r.condition_items() == Seq::<Condition>::empty(),
            r@ == (FormulaV { locals: Seq::empty(), conditions: Seq::empty() }),
    {
        let r = Formula { locals: Vec::new(), conditions: Vec::new() };
        assert(r@.locals =~= Seq::empty());
        assert(r@.conditions =~= Seq::empty());
        r
    }

    pub fn locals(&self) -> (r: &[Local])
        ensures
            r@ == self.local_items(),
            r@.map_values(|l: Local| l@) == self@.locals,
    {
        self.locals.as_slice()
    }

    pub fn conditions(&self) -> (r: &[Condition])
        ensures
            r@ == self.condition_items(),
            r@.map_values(|c: Condition| c@) == self@.conditions,
    {
        self.conditions.as_slice()
    }
}

/// Model of an effect.
pub enum EffectV {
    SetRelation { source: TermV, relation: Seq<char>, target: TermV },
    ClearRelation { source: TermV, relation: Seq<char> },
    SetComponent { entity: TermV, component: Seq<char> },
    RemoveComponent { entity: TermV, component: Seq<char> },
    SetLocus { entity: TermV, locus: TermV },
    ClearLocus { entity: TermV },
    ShiftGauge { entity: TermV, gauge: Seq<char>, direction: GaugeDirection },
    Create { result: Seq<char> },
    Destroy { entity: TermV },
}

/// One unconditional successful transition promised by an affordance.
#[derive(Debug, PartialEq, Eq, Hash)]
pub enum Effect {
    SetRelation { source: Term, relation: RelationId, target: Term },
    ClearRelation { source: Term, relation: RelationId },
    SetComponent { entity: Term, component: ComponentId },
    RemoveComponent { entity: Term, component: ComponentId },
    SetLocus { entity: Term, locus: Term },
    ClearLocus { entity: Term },
    ShiftGauge { entity: Term, gauge: GaugeId, direction: GaugeDirection },
    Create { result: ParameterId },
    Destroy { entity: Term },
}

impl View for Effect {
    type V = EffectV;

    open spec fn view(&self) -> EffectV {
        match self {
            Effect::SetRelation { source, relation, target } => EffectV::SetRelation {
                source: source@,
                relation: relation@,
                target: target@,
            },
            Effect::ClearRelation { source, relation } => EffectV::ClearRelation {
                source: source@,
                relation: relation@,
            },
            Effect::SetComponent { entity, component } => EffectV::SetComponent {
                entity: entity@,
                component: component@,
            },
            Effect::RemoveComponent { entity, component } => EffectV::RemoveComponent {
                entity: entity@,
                component: component@,
            },
            Effect::SetLocus { entity, locus } => EffectV::SetLocus {
                entity: entity@,
                locus: locus@,
            },
            Effect::ClearLocus { entity } => EffectV::ClearLocus { entity: entity@ },
            Effect::ShiftGauge { entity, gauge, direction } => EffectV::ShiftGauge {
                entity: entity@,
                gauge: gauge@,
                direction: *direction,
            },
            Effect::Create { result } => EffectV::Create { result: result@ },
            Effect::Destroy { entity } => EffectV::Destroy { entity: entity@ },
        }
    }
}

/// What true guards promise about resolution.
#[derive(Clone, Copy, Debug, PartialEq, Eq, Structural, Hash)]
pub enum Resolution {
    Deterministic,
    Contested,
    Opaque,
}

/// One ordered player-facing applicability requirement.
#[derive(Debug, PartialEq, Eq, Hash)]
pub struct Guard {
    formula: Formula,
    reason: String,
}

impl Guard {
    pub closed spec fn formula_item(&self) -> Formula {
        self.formula
    }

    pub closed spec fn reason_view(&self) -> Seq<char> {
        self.reason@
    }

    pub fn new(formula: Formula, reason: &str) -> (r: Self)
        ensures
            r.formula_item() == formula,
            r.reason_view() == reason@,
    {
        Guard { formula, reason: reason.to_owned() }
    }

    pub fn formula(&self) -> (r: &Formula)
        ensures
            *r == self.formula_item(),
    {
        &self.formula
    }

    pub fn reason(&self) -> (r: &str)
        ensures
            r@ == self.reason_view(),
    {
        self.reason.as_str()
    }
}

/// The declarative, implementation-independent shape of one affordance.
#[derive(Debug)]
pub struct AffordanceSchema {
    id: AffordanceId,
    display_name: String,
    parameters: Vec<Parameter>,
    guards: Vec<Guard>,
    effects: Vec<Effect>,
    gate: Gate,
    resolution: Resolution,
}

/// The first parameter whose id is `id`, by position.
pub open spec fn param_index(ps: Seq<ParameterV>, id: Seq<char>) -> Option<int> {
    if exists|i: int| 0 <= i < ps.len() && ps[i].id == id {
        Some(
            choose|i: int|
                0 <= i < ps.len() && ps[i].id == id && forall|j: int|
                    0 <= j < i ==> ps[j].id != id,
        )
    } else {
        None
    }
}

/// Every sequence that holds an element with `id` has a first such element.
pub proof fn lemma_first_index_exists(ps: Seq<ParameterV>, id: Seq<char>, k: int)
    requires
        0 <= k < ps.len(),
        ps[k].id == id,
    ensures
        exists|i: int|
            0 <= i < ps.len() && ps[i].id == id && forall|j: int| 0 <= j < i ==> ps[j].id != id,
    decreases k,
{
    if exists|j: int| 0 <= j < k && ps[j].id == id {
        let j = choose|j: int| 0 <= j < k && ps[j].id == id;
        lemma_first_index_exists(ps, id, j);
    }
}

/// The input (or result) declarations of a parameter list, in declaration order.
pub open spec fn params_with_mode(ps: Seq<ParameterV>, mode: ParameterMode) -> Seq<ParameterV> {
    ps.filter(|p: ParameterV| p.mode == mode)
}

impl AffordanceSchema {
    pub closed spec fn id_view(&self) -> Seq<char> {
        self.id@
    }

    pub closed spec fn display_name_view(&self) -> Seq<char> {
        self.display_name@
    }

    pub closed spec fn params(&self) -> Seq<ParameterV> {
        self.parameters@.map_values(|p: Parameter| p@)
    }

    pub closed spec fn guard_items(&self) -> Seq<Guard> {
        self.guards@
    }

    pub closed spec fn effect_items(&self) -> Seq<EffectV> {
        self.effects@.map_values(|e: Effect| e@)
    }

    pub closed spec fn gate_view(&self) -> Gate {
        self.gate
    }

    pub closed spec fn resolution_view(&self) -> Resolution {
        self.resolution
    }

    pub fn new(
        id: AffordanceId,
        display_name: &str,
        parameters: Vec<Parameter>,
        guards: Vec<Guard>,
        effects: Vec<Effect>,
        gate: Gate,
        resolution: Resolution,
    ) -> (r: Self)
        ensures
            r.id_view() == id@,
            r.display_name_view() == display_name@,
            r.params() == parameters@.map_values(|p: Parameter| p@),
            r.guard_items() == guards@,
            r.effect_items() == effects@.map_values(|e: Effect| e@),
            r.gate_view() == gate,
            r.resolution_view() == resolution,
    {
        AffordanceSchema {
            id,
            display_name: display_name.to_owned(),
            parameters,
            guards,
            effects,
            gate,
            resolution,
        }
    }

    pub fn id(&self) -> (r: &AffordanceId)
        ensures
            r@ == self.id_view(),
    {
        &self.id
    }

    pub fn display_name(&self) -> (r: &str)
        ensures
            r@ == self.display_name_view(),
    {
        self.display_name.as_str()
    }

    pub fn parameters(&self) -> (r: &[Parameter])
        ensures
            r@.map_values(|p: Parameter| p@) == self.params(),
    {
        self.parameters.as_slice()
    }

    pub fn guards(&self) -> (r: &[Guard])
        ensures
            r@ == self.guard_items(),
    {
        self.guards.as_slice()
    }

    pub fn effects(&self) -> (r: &[Effect])
        ensures
            r@.map_values(|e: Effect| e@) == self.effect_items(),
    {
        self.effects.as_slice()
    }

    pub fn gate(&self) -> (r: Gate)
        ensures
            r == self.gate_view(),
    {
        self.gate
    }

    pub fn resolution(&self) -> (r: Resolution)
        ensures
            r == self.resolution_view(),
    {
        self.resolution
    }

    /// The first declared parameter named `id`.
    pub fn parameter(&self, id: &ParameterId) -> (r: Option<&Parameter>)
        ensures
            match param_index(self.params(), id@) {
                Some(i) => r matches Some(p) && p@ == self.params()[i],
                None => r is None,
            },
    {
        let mut i: usize = 0;
        while i < self.parameters.len()
            invariant
                i <= self.parameters@.len(),
                self.params() == self.parameters@.map_values(|p: Parameter| p@),
                forall|j: int| 0 <= j < i ==> self.params()[j].id != id@,
            decreases self.parameters.len() - i,
        {
            if self.parameters[i].id.same(id) {
                proof {
                    lemma_first_index_exists(self.params(), id@, i as int);
                    let k = param_index(self.params(), id@)->0;
                    assert(k == i) by {
                        if k < i {
                        } else if k > i {
                            assert(self.params()[i as int].id == id@);
                        }
                    }
                }
                return Some(&self.parameters[i]);
            }
            i = i + 1;
        }
        None
    }

    /// The input parameters, in declaration order.
    pub fn inputs(&self) -> (r: Vec<&Parameter>)
        ensures
            r@.map_values(|p: &Parameter| p@) == params_with_mode(self.params(), ParameterMode::Input),
    {
        self.with_mode(ParameterMode::Input)
    }

    /// The result parameters, in declaration order.
    pub fn results(&self) -> (r: Vec<&Parameter>)
        ensures
            r@.map_values(|p: &Parameter| p@) == params_with_mode(self.params(), ParameterMode::Result),
    {
        self.with_mode(ParameterMode::Result)
    }

    fn with_mode(&self, mode: ParameterMode) -> (r: Vec<&Parameter>)
        ensures
            r@.map_values(|p: &Parameter| p@) == params_with_mode(self.params(), mode),
    {
        let ghost pred = |p: ParameterV| p.mode == mode;
        let mut out: Vec<&Parameter> = Vec::new();
        let mut i: usize = 0;
        while i < self.parameters.len()
            invariant
                i <= self.parameters@.len(),
                pred == (|p: ParameterV| p.mode == mode),
                self.params() == self.parameters@.map_values(|p: Parameter| p@),
                out@.map_values(|p: &Parameter| p@) == self.params().take(i as int).filter(pred),
            decreases self.parameters.len() - i,
        {
            let ghost prev = out@.map_values(|p: &Parameter| p@);
            if self.parameters[i].mode == mode {
                out.push(&self.parameters[i]);
                assert(out@.map_values(|p: &Parameter| p@) =~= prev.push(self.params()[i as int]));
            }
            proof {
                assert(self.params().take(i + 1) =~= self.params().take(i as int).push(
                    self.params()[i as int],
                ));
                self.params().take(i as int).lemma_filter_push(self.params()[i as int], pred);
            }
            i = i + 1;
        }
        assert(self.params().take(self.parameters@.len() as int) =~= self.params());
        out
    }
}

/// One parameter/value pair used by partial grounding and the target wire.
#[derive(Debug, PartialEq, Eq, Hash)]
pub struct ParameterBinding {
    parameter: ParameterId,
    value: Value,
}

impl ParameterBinding {
    pub closed spec fn parameter_view(&self) -> Seq<char> {
        self.parameter@
    }

    pub closed spec fn value_view(&self) -> ValueV {
        self.value@
    }

    pub fn new(parameter: ParameterId, value: Value) -> (r: Self)
        ensures
            r.parameter_view() == parameter@,
            r.value_view() == value@,
    {
        ParameterBinding { parameter, value }
    }

    pub fn parameter(&self) -> (r: &ParameterId)
        ensures
            r@ == self.parameter_view(),
    {
        &self.parameter
    }

    pub fn value(&self) -> (r: &Value)
        ensures
            r@ == self.value_view(),
    {
        &self.value
    }
}

/// An affordance plus any input bindings a front end has supplied so far.
#[derive(Debug, PartialEq, Eq)]
pub struct PartialGrounding {
    affordance: AffordanceId,
    bindings: Vec<ParameterBinding>,
}

impl PartialGrounding {
    pub closed spec fn affordance_view(&self) -> Seq<char> {
        self.affordance@
    }

    pub closed spec fn binding_items(&self) -> Seq<ParameterBinding> {
        self.bindings@
    }

    pub fn new(affordance: AffordanceId, bindings: Vec<ParameterBinding>) -> (r: Self)
        ensures
            r.affordance_view() == affordance@,
            r.binding_items() == bindings@,
    {
        PartialGrounding { affordance, bindings }
    }

    pub fn affordance(&self) -> (r: &AffordanceId)
        ensures
            r@ == self.affordance_view(),
    {
        &self.affordance
    }

    pub fn bindings(&self) -> (r: &[ParameterBinding])
        ensures
            r@ == self.binding_items(),
    {
        self.bindings.as_slice()
    }
}

/// A complete action occurrence. The actor is privileged and never an input slot.
#[derive(Debug, PartialEq, Eq)]
pub struct GroundAction {
    affordance: AffordanceId,
    actor: EntityId,
    inputs: Vec<Value>,
}

/// Model of a ground action.
pub struct GroundActionV {
    pub affordance: Seq<char>,
    pub actor: u64,
    pub inputs: Seq<ValueV>,
}

impl View for GroundAction {
    type V = GroundActionV;

    closed spec fn view(&self) -> GroundActionV {
        GroundActionV {
            affordance: self.affordance@,
            actor: self.actor.0,
            inputs: self.inputs@.map_values(|v: Value| v@),
        }
    }
}

impl Clone for GroundAction {
    fn clone(&self) -> (r: Self)
        ensures
            r@ == self@,
    {
        GroundAction {
            affordance: self.affordance.clone(),
            actor: self.actor,
            inputs: self.inputs.clone(),
        }
    }
}

impl GroundAction {
    pub fn new(affordance: AffordanceId, actor: EntityId, inputs: Vec<Value>) -> (r: Self)
        ensures
            r@ == (GroundActionV {
                affordance: affordance@,
                actor: actor.0,
                inputs: inputs@.map_values(|v: Value| v@),
            }),
    {
        GroundAction { affordance, actor, inputs }
    }

    pub fn affordance(&self) -> (r: &AffordanceId)
        ensures
            r@ == self@.affordance,
    {
        &self.affordance
    }

    pub fn actor(&self) -> (r: EntityId)
        ensures
            r.0 == self@.actor,
    {
        self.actor
    }

    pub fn inputs(&self) -> (r: &[Value])
        ensures
            r@.map_values(|v: Value| v@) == self@.inputs,
    {
        self.inputs.as_slice()
    }

    /// Whether two actions are the same occurrence.
    pub fn same(&self, other: &GroundAction) -> (r: bool)
        ensures
            r == (self@ == other@),
    {
        if !self.affordance.same(&other.affordance) || self.actor.0 != other.actor.0 {
            return false;
        }
        if self.inputs.len() != other.inputs.len() {
            assert(self@.inputs.len() != other@.inputs.len());
            return false;
        }
        let mut i: usize = 0;
        while i < self.inputs.len()
            invariant
                i <= self.inputs@.len(),
                self.inputs@.len() == other.inputs@.len(),
                forall|j: int| 0 <= j < i ==> self.inputs@[j]@ == other.inputs@[j]@,
            decreases self.inputs.len() - i,
        {
            if !self.inputs[i].same(&other.inputs[i]) {
                assert(self@.inputs[i as int] != other@.inputs[i as int]);
                return false;
            }
            i = i + 1;
        }
        assert(self@.inputs =~= other@.inputs);
        assert(self@.affordance == other@.affordance);
        true
    }
}

/// Values produced by a successful action, ordered by result slot.
#[derive(Debug, PartialEq, Eq)]
pub struct ActionOutcome {
    results: Vec<Value>,
}

impl View for ActionOutcome {
    type V = Seq<ValueV>;

    closed spec fn view(&self) -> Seq<ValueV> {
        self.results@.map_values(|v: Value| v@)
    }
}

impl ActionOutcome {
    pub fn new(results: Vec<Value>) -> (r: Self)
        ensures
            r@ == results@.map_values(|v: Value| v@),
    {
        ActionOutcome { results }
    }

    pub fn empty() -> (r: Self)
        ensures
            r@ == Seq::<ValueV>::empty(),
    {
        let r = ActionOutcome { results: Vec::new() };
        assert(r@ =~= Seq::<ValueV>::empty());
        r
    }

    pub fn results(&self) -> (r: &[Value])
        ensures
            r@.map_values(|v: Value| v@) == self@,
    {
        self.results.as_slice()
    }
}

} // verus!
