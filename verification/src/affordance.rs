//! The affordance vocabulary: the symbolic shape a verb's precondition and
//! effect are written in. Relation kinds and component tags are game
//! vocabulary, carried as strings the engine never interprets.

use vstd::prelude::*;
use crate::id::EntityId;
use crate::text::str_eq;

verus! {

/// A planner variable, named within its clause.
#[derive(Debug, PartialEq, Eq, Hash)]
pub struct Var(pub String);

/// A predicate argument: a bound entity, or a variable the planner binds.
#[derive(Debug, PartialEq, Eq, Hash)]
pub enum Term {
    Const(EntityId),
    Var(Var),
}

/// The two chainable predicate kinds.
#[derive(Debug, PartialEq, Eq, Hash)]
pub enum Predicate {
    /// A relation of kind `kind` links `a` to `b`.
    Related { a: Term, b: Term, kind: String },
    /// `e` bears the component/marker `comp`.
    Tag { e: Term, comp: String },
}

/// A conjunction of predicates whose variables are existentially bound.
#[derive(Debug, PartialEq, Eq, Hash)]
pub struct Clause(pub Vec<Predicate>);

impl Default for Clause {
    /// The empty clause, which is trivially satisfied.
    fn default() -> (r: Self)
        ensures
            r.0@.len() == 0,
    {
        Clause(Vec::new())
    }
}

/// The case frame: which entities fill an affordance's roles.
#[derive(Debug, PartialEq, Eq)]
pub struct Frame {
    pub actor: EntityId,
    pub object: Option<EntityId>,
    pub target: Option<EntityId>,
    pub kind: Option<String>,
}

/// A grounded action's symbolic description: a by-name key, the predicates
/// that must hold for it to be plannable, and the predicates it makes true.
#[derive(Debug)]
pub struct Affordance {
    pub name: String,
    pub precondition: Clause,
    pub effect: Clause,
}

/// Mathematical model of a term.
pub enum TermV {
    Const(u64),
    Var(Seq<char>),
}

/// Mathematical model of a predicate.
pub enum PredicateV {
    Related { a: TermV, b: TermV, kind: Seq<char> },
    Tag { e: TermV, comp: Seq<char> },
}

/// Mathematical model of a frame's role bindings.
pub struct FrameV {
    pub actor: u64,
    pub object: Option<u64>,
    pub target: Option<u64>,
}

impl View for Term {
    type V = TermV;

    open spec fn view(&self) -> TermV {
        match self {
            Term::Const(id) => TermV::Const(id.0),
            Term::Var(v) => TermV::Var(v.0@),
        }
    }
}

impl View for Predicate {
    type V = PredicateV;

    open spec fn view(&self) -> PredicateV {
        match self {
            Predicate::Related { a, b, kind } => PredicateV::Related { a: a@, b: b@, kind: kind@ },
            Predicate::Tag { e, comp } => PredicateV::Tag { e: e@, comp: comp@ },
        }
    }
}

impl View for Clause {
    type V = Seq<PredicateV>;

    open spec fn view(&self) -> Seq<PredicateV> {
        self.0@.map_values(|p: Predicate| p@)
    }
}

impl View for Frame {
    type V = FrameV;

    open spec fn view(&self) -> FrameV {
        FrameV {
            actor: self.actor.0,
            object: match self.object {
                Some(e) => Some(e.0),
                None => None,
            },
            target: match self.target {
                Some(e) => Some(e.0),
                None => None,
            },
        }
    }
}

/// The entity a role name binds to in a frame: `actor`, `object`, `target`.
pub open spec fn role_of(f: FrameV, name: Seq<char>) -> Option<u64> {
    if name == "actor"@ {
        Some(f.actor)
    } else if name == "object"@ {
        f.object
    } else if name == "target"@ {
        f.target
    } else {
        None
    }
}

pub open spec fn bind_term(t: TermV, f: FrameV) -> TermV {
    match t {
        TermV::Var(v) => match role_of(f, v) {
            Some(id) => TermV::Const(id),
            None => t,
        },
        TermV::Const(_) => t,
    }
}

pub open spec fn subst_term(t: TermV, var: Seq<char>, id: u64) -> TermV {
    match t {
        TermV::Var(v) => if v == var {
            TermV::Const(id)
        } else {
            t
        },
        TermV::Const(_) => t,
    }
}

pub open spec fn bind_pred(p: PredicateV, f: FrameV) -> PredicateV {
    match p {
        PredicateV::Related { a, b, kind } => PredicateV::Related {
            a: bind_term(a, f),
            b: bind_term(b, f),
            kind,
        },
        PredicateV::Tag { e, comp } => PredicateV::Tag { e: bind_term(e, f), comp },
    }
}

pub open spec fn subst_pred(p: PredicateV, var: Seq<char>, id: u64) -> PredicateV {
    match p {
        PredicateV::Related { a, b, kind } => PredicateV::Related {
            a: subst_term(a, var, id),
            b: subst_term(b, var, id),
            kind,
        },
        PredicateV::Tag { e, comp } => PredicateV::Tag { e: subst_term(e, var, id), comp },
    }
}

/// Whether the variable `var` occurs in a predicate.
pub open spec fn pred_mentions(p: PredicateV, var: Seq<char>) -> bool {
    match p {
        PredicateV::Related { a, b, .. } => a == TermV::Var(var) || b == TermV::Var(var),
        PredicateV::Tag { e, .. } => e == TermV::Var(var),
    }
}

impl Clone for Var {
    fn clone(&self) -> (r: Self)
        ensures
            r == *self,
    {
        Var(self.0.clone())
    }
}

impl Clone for Term {
    fn clone(&self) -> (r: Self)
        ensures
            r == *self,
    {
        match self {
            Term::Const(id) => Term::Const(*id),
            Term::Var(v) => Term::Var(v.clone()),
        }
    }
}

impl Clone for Predicate {
    fn clone(&self) -> (r: Self)
        ensures
            r == *self,
    {
        match self {
            Predicate::Related { a, b, kind } => Predicate::Related {
                a: a.clone(),
                b: b.clone(),
                kind: kind.clone(),
            },
            Predicate::Tag { e, comp } => Predicate::Tag { e: e.clone(), comp: comp.clone() },
        }
    }
}

impl Clone for Clause {
    fn clone(&self) -> (r: Self)
        ensures
            r@ == self@,
    {
        let mut out: Vec<Predicate> = Vec::new();
        let mut i: usize = 0;
        while i < self.0.len()
            invariant
                i <= self.0@.len(),
                out@.len() == i,
                forall|j: int| 0 <= j < i ==> out@[j] == self.0@[j],
            decreases self.0.len() - i,
        {
            out.push(self.0[i].clone());
            i = i + 1;
        }
        let r = Clause(out);
        assert(r@ =~= self@);
        r
    }
}

impl Term {
    /// Whether two terms are the same term.
    pub fn same(&self, other: &Term) -> (r: bool)
        ensures
            r == (self@ == other@),
    {
        match (self, other) {
            (Term::Const(a), Term::Const(b)) => a.0 == b.0,
            (Term::Var(a), Term::Var(b)) => a.0 == b.0,
            _ => false,
        }
    }
}

impl Predicate {
    /// Whether two predicates are the same predicate.
    pub fn same(&self, other: &Predicate) -> (r: bool)
        ensures
            r == (self@ == other@),
    {
        match (self, other) {
            (Predicate::Related { a, b, kind }, Predicate::Related { a: a2, b: b2, kind: k2 }) =>
                a.same(a2) && b.same(b2) && *kind == *k2,
            (Predicate::Tag { e, comp }, Predicate::Tag { e: e2, comp: c2 }) => e.same(e2) && *comp
                == *c2,
            _ => false,
        }
    }
}

impl Clause {
    /// Whether two clauses are the same conjunction, predicate by predicate.
    pub fn same(&self, other: &Clause) -> (r: bool)
        ensures
            r == (self@ == other@),
    {
        if self.0.len() != other.0.len() {
            assert(self@.len() != other@.len());
            return false;
        }
        let mut i: usize = 0;
        while i < self.0.len()
            invariant
                i <= self.0@.len(),
                self.0@.len() == other.0@.len(),
                forall|j: int| 0 <= j < i ==> self@[j] == other@[j],
            decreases self.0.len() - i,
        {
            if !self.0[i].same(&other.0[i]) {
                assert(self@[i as int] != other@[i as int]);
                return false;
            }
            i = i + 1;
        }
        assert(self@ =~= other@);
        true
    }
}

impl Frame {
    /// The entity a role-var binds to, or `None` if the var names no role this
    /// frame fills.
    fn role(&self, v: &Var) -> (r: Option<EntityId>)
        ensures
            match r {
                Some(id) => role_of(self@, v.0@) == Some(id.0),
                None => role_of(self@, v.0@) is None,
            },
    {
        if str_eq(v.0.as_str(), "actor") {
            Some(self.actor)
        } else if str_eq(v.0.as_str(), "object") {
            self.object
        } else if str_eq(v.0.as_str(), "target") {
            self.target
        } else {
            None
        }
    }
}

impl Term {
    /// A planner variable term, by name.
    pub fn var(name: &str) -> (r: Term)
        ensures
            r@ == TermV::Var(name@),
    {
        Term::Var(Var(name.to_owned()))
    }

    /// Substitute a role-var with the entity a frame binds it to. A `Const`, or
    /// a `Var` that names no bound role, is returned unchanged.
    pub fn bind(&self, frame: &Frame) -> (r: Term)
        ensures
            r@ == bind_term(self@, frame@),
    {
        match self {
            Term::Var(v) => match frame.role(v) {
                Some(id) => Term::Const(id),
                None => self.clone(),
            },
            Term::Const(_) => self.clone(),
        }
    }

    /// Replace this term with `id` iff it is exactly `Term::Var(var)`.
    pub fn substitute(&self, var: &Var, id: EntityId) -> (r: Term)
        ensures
            r@ == subst_term(self@, var.0@, id.0),
    {
        match self {
            Term::Var(v) => {
                if v.0 == var.0 {
                    Term::Const(id)
                } else {
                    self.clone()
                }
            },
            _ => self.clone(),
        }
    }
}

impl Predicate {
    /// Substitute a frame's bound roles into this predicate's terms.
    pub fn bind(&self, frame: &Frame) -> (r: Predicate)
        ensures
            r@ == bind_pred(self@, frame@),
    {
        match self {
            Predicate::Related { a, b, kind } => Predicate::Related {
                a: a.bind(frame),
                b: b.bind(frame),
                kind: kind.clone(),
            },
            Predicate::Tag { e, comp } => Predicate::Tag { e: e.bind(frame), comp: comp.clone() },
        }
    }

    /// Substitute the named variable `var` with `id` throughout this predicate.
    pub fn substitute(&self, var: &Var, id: EntityId) -> (r: Predicate)
        ensures
            r@ == subst_pred(self@, var.0@, id.0),
    {
        match self {
            Predicate::Related { a, b, kind } => Predicate::Related {
                a: a.substitute(var, id),
                b: b.substitute(var, id),
                kind: kind.clone(),
            },
            Predicate::Tag { e, comp } => Predicate::Tag {
                e: e.substitute(var, id),
                comp: comp.clone(),
            },
        }
    }
}

impl Clause {
    /// Ground this clause against a frame: each role-var becomes the entity the
    /// frame fills it with; free variables are left for the planner.
    pub fn bind(&self, frame: &Frame) -> (r: Clause)
        ensures
            r@ == self@.map_values(|p: PredicateV| bind_pred(p, frame@)),
    {
        let mut out: Vec<Predicate> = Vec::new();
        let mut i: usize = 0;
        while i < self.0.len()
            invariant
                i <= self.0@.len(),
                out@.len() == i,
                forall|j: int| 0 <= j < i ==> out@[j]@ == bind_pred(self.0@[j]@, frame@),
            decreases self.0.len() - i,
        {
            out.push(self.0[i].bind(frame));
            i = i + 1;
        }
        let r = Clause(out);
        assert(r@ =~= self@.map_values(|p: PredicateV| bind_pred(p, frame@)));
        r
    }

    /// Substitute the named variable `var` with `id` throughout this clause.
    pub fn substitute(&self, var: &Var, id: EntityId) -> (r: Clause)
        ensures
            r@ == self@.map_values(|p: PredicateV| subst_pred(p, var.0@, id.0)),
    {
        let mut out: Vec<Predicate> = Vec::new();
        let mut i: usize = 0;
        while i < self.0.len()
            invariant
                i <= self.0@.len(),
                out@.len() == i,
                forall|j: int| 0 <= j < i ==> out@[j]@ == subst_pred(self.0@[j]@, var.0@, id.0),
            decreases self.0.len() - i,
        {
            out.push(self.0[i].substitute(var, id));
            i = i + 1;
        }
        let r = Clause(out);
        assert(r@ =~= self@.map_values(|p: PredicateV| subst_pred(p, var.0@, id.0)));
        r
    }
}

/// After substituting a variable, no predicate of the clause mentions it any
/// more, and every other predicate shape is kept in place.
pub proof fn lemma_substitute_eliminates(c: Seq<PredicateV>, var: Seq<char>, id: u64)
    ensures
        forall|i: int|
            0 <= i < c.len() ==> !pred_mentions(subst_pred(#[trigger] c[i], var, id), var),
{
}

/// Substitution is idempotent: substituting the same variable twice is the same
/// as substituting it once.
pub proof fn lemma_substitute_idempotent(c: Seq<PredicateV>, var: Seq<char>, id: u64)
    ensures
        c.map_values(|p: PredicateV| subst_pred(p, var, id)).map_values(
            |p: PredicateV| subst_pred(p, var, id),
        ) == c.map_values(|p: PredicateV| subst_pred(p, var, id)),
{
    assert(c.map_values(|p: PredicateV| subst_pred(p, var, id)).map_values(
        |p: PredicateV| subst_pred(p, var, id),
    ) =~= c.map_values(|p: PredicateV| subst_pred(p, var, id)));
}

/// Binding against a frame is idempotent: a bound clause has no role variable
/// the frame could fill again.
pub proof fn lemma_bind_idempotent(c: Seq<PredicateV>, f: FrameV)
    ensures
        c.map_values(|p: PredicateV| bind_pred(p, f)).map_values(|p: PredicateV| bind_pred(p, f))
            == c.map_values(|p: PredicateV| bind_pred(p, f)),
{
    assert(c.map_values(|p: PredicateV| bind_pred(p, f)).map_values(
        |p: PredicateV| bind_pred(p, f),
    ) =~= c.map_values(|p: PredicateV| bind_pred(p, f)));
}

} // verus!
