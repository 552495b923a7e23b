use musce::affordance::{Clause, Predicate, Term};
use musce::arbiter::{Arbiter, Goal, Urgency};

fn want(tag: &str, urgency: Urgency) -> Goal {
    Goal { predicate: Clause(vec![Predicate::Tag { e: Term::var("actor"), comp: tag.into() }]), urgency }
}

fn tag_of(goal: &Goal) -> String {
    match &goal.predicate.0[0] {
        Predicate::Tag { comp, .. } => comp.clone(),
        _ => unreachable!(),
    }
}

#[test]
fn picks_the_highest_urgency_goal() {
    let mut a = Arbiter::new(0);
    let chosen = a.select(&[want("eat", 3), want("flee", 7), want("rest", 1)]);
    assert_eq!(tag_of(&chosen.unwrap()), "flee");
}

#[test]
fn empty_candidate_set_commits_to_nothing() {
    let mut a = Arbiter::new(0);
    assert!(a.select(&[]).is_none());
    assert!(a.committed().is_none());
}

#[test]
fn commitment_survives_a_near_equal_challenger() {
    let mut a = Arbiter::new(3);
    assert_eq!(tag_of(&a.select(&[want("eat", 5)]).unwrap()), "eat");
    let held = a.select(&[want("eat", 5), want("flee", 6)]).unwrap();
    assert_eq!(tag_of(&held), "eat");
}

#[test]
fn a_challenger_clearing_the_band_steals_commitment() {
    let mut a = Arbiter::new(3);
    a.select(&[want("eat", 5)]);
    let stolen = a.select(&[want("eat", 5), want("flee", 9)]).unwrap();
    assert_eq!(tag_of(&stolen), "flee");
}

#[test]
fn the_incumbents_own_urgency_is_refreshed_each_tick() {
    let mut a = Arbiter::new(1);
    a.select(&[want("eat", 5)]);
    let now = a.select(&[want("eat", 1), want("flee", 3)]).unwrap();
    assert_eq!(tag_of(&now), "flee");
}

#[test]
fn a_retired_incumbent_is_dropped_and_the_field_re_picked() {
    let mut a = Arbiter::new(100);
    a.select(&[want("eat", 9)]);
    let next = a.select(&[want("flee", 2), want("rest", 4)]).unwrap();
    assert_eq!(tag_of(&next), "rest");
}

#[test]
fn release_drops_a_commitment_the_band_would_have_held() {
    let mut a = Arbiter::new(100);
    a.select(&[want("eat", 9)]);
    a.release();
    assert!(a.committed().is_none());
    let next = a.select(&[want("eat", 1), want("rest", 4)]).unwrap();
    assert_eq!(tag_of(&next), "rest");
}

#[test]
fn ties_go_to_the_last_highest_goal() {
    let mut a = Arbiter::new(0);
    let chosen = a.select(&[want("eat", 4), want("flee", 4)]).unwrap();
    assert_eq!(tag_of(&chosen), "flee");
    assert_eq!(tag_of(a.committed().unwrap()), "flee");
}
