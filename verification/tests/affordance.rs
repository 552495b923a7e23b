use musce::affordance::{Clause, Frame, Predicate, Term};
use musce::id::EntityId;

fn var(name: &str) -> Term {
    Term::var(name)
}

#[test]
fn expresses_have_food_goal() {
    let goal = Clause(vec![
        Predicate::Related { a: var("self"), b: var("x"), kind: "contains".into() },
        Predicate::Tag { e: var("x"), comp: "food".into() },
    ]);
    assert_eq!(goal.0.len(), 2);
}

#[test]
fn expresses_wearing_armor_goal() {
    let goal = Clause(vec![
        Predicate::Related { a: var("self"), b: var("x"), kind: "worn".into() },
        Predicate::Tag { e: var("x"), comp: "armor".into() },
    ]);
    assert!(goal.0.contains(&Predicate::Tag { e: var("x"), comp: "armor".into() }));
}

#[test]
fn const_and_var_terms_are_distinct() {
    let king = Term::Const(EntityId(7));
    assert_ne!(king, var("x"));
}

#[test]
fn frame_binds_role_vars_to_consts() {
    let effect = Clause(vec![Predicate::Related {
        a: var("object"),
        b: var("actor"),
        kind: "contained_by".into(),
    }]);
    let frame = Frame { actor: EntityId(1), object: Some(EntityId(2)), target: None, kind: None };
    assert_eq!(
        effect.bind(&frame),
        Clause(vec![Predicate::Related {
            a: Term::Const(EntityId(2)),
            b: Term::Const(EntityId(1)),
            kind: "contained_by".into(),
        }])
    );
}

#[test]
fn binding_leaves_free_vars_for_the_planner() {
    let c = Clause(vec![Predicate::Tag { e: var("x"), comp: "food".into() }]);
    let frame = Frame { actor: EntityId(1), object: None, target: None, kind: None };
    assert_eq!(c.bind(&frame), c);
}

#[test]
fn substitution_eliminates_the_variable() {
    let c = Clause(vec![
        Predicate::Related { a: var("x"), b: var("y"), kind: "contains".into() },
        Predicate::Tag { e: var("x"), comp: "food".into() },
    ]);
    let x = musce::affordance::Var("x".to_string());
    let bound = c.substitute(&x, EntityId(5));
    assert_eq!(
        bound,
        Clause(vec![
            Predicate::Related { a: Term::Const(EntityId(5)), b: var("y"), kind: "contains".into() },
            Predicate::Tag { e: Term::Const(EntityId(5)), comp: "food".into() },
        ])
    );
    assert_eq!(bound.substitute(&x, EntityId(6)), bound);
}

#[test]
fn binding_twice_changes_nothing_more() {
    let c = Clause(vec![Predicate::Related { a: var("actor"), b: var("target"), kind: "at".into() }]);
    let frame = Frame { actor: EntityId(3), object: None, target: Some(EntityId(4)), kind: None };
    let once = c.bind(&frame);
    assert_eq!(once.bind(&frame), once);
    assert_eq!(
        once,
        Clause(vec![Predicate::Related { a: Term::Const(EntityId(3)), b: Term::Const(EntityId(4)), kind: "at".into() }])
    );
}

#[test]
fn the_default_clause_is_empty() {
    assert!(Clause::default().0.is_empty());
}
