use musce::caps::Gate;
use musce::driver::{Beat, Driver, Next, Progress};
use musce::id::EntityId;
use musce::perform::{AffordanceRegistry, AffordanceRegistryBuilder};
use musce::planner::{Planner, UnitCost};
use musce::schema::{
    AffordanceId, AffordanceSchema, ComponentId, Condition, Effect, Formula, Guard, OptionalEntity,
    Parameter, ParameterId, ParameterMode, RelationId, Resolution, Term, Value, ValueSort,
};
use musce::state::StateRegistry;
use musce::world_view::WorldView;

struct Fixture {
    world: WorldView,
    registry: AffordanceRegistry,
    actor: EntityId,
    first: EntityId,
    second: EntityId,
    goal: Formula,
}

fn goal(marker: &ComponentId) -> Formula {
    Formula::all(vec![Condition::ComponentPresent { entity: Term::Actor, component: marker.clone(), present: true }])
}

fn fixture(held: bool) -> Fixture {
    let actor = EntityId(1);
    let first = EntityId(2);
    let second = EntityId(3);
    let mut world = WorldView::new();
    world.register_relation_type("musce_core::Containment");
    world.register_component_type("musce_core::Locus");
    for e in [actor, first, second] {
        world.add_entity(e);
    }
    if held {
        world.set_relation("contained_by", first, actor);
        world.set_relation("contained_by", second, actor);
    }

    let relation = RelationId::new("contained_by").unwrap();
    let marker = ComponentId::new("locus").unwrap();
    let item = ParameterId::new("item").unwrap();
    let food = ParameterId::new("food").unwrap();

    let take = AffordanceSchema::new(
        AffordanceId::new("take").unwrap(),
        "take",
        vec![Parameter::new(item.clone(), "item", ValueSort::Entity, ParameterMode::Input, 0).unwrap()],
        Vec::new(),
        vec![Effect::SetRelation { source: Term::Input(item), relation: relation.clone(), target: Term::Actor }],
        Gate::Open,
        Resolution::Deterministic,
    );
    let eat = AffordanceSchema::new(
        AffordanceId::new("eat").unwrap(),
        "eat",
        vec![Parameter::new(food.clone(), "food", ValueSort::Entity, ParameterMode::Input, 0).unwrap()],
        vec![Guard::new(
            Formula::all(vec![Condition::RelationTarget {
                source: Term::Input(food),
                relation,
                target: OptionalEntity::Is(Term::Actor),
            }]),
            "not held",
        )],
        vec![Effect::SetComponent { entity: Term::Actor, component: marker.clone() }],
        Gate::Open,
        Resolution::Contested,
    );

    let mut state = StateRegistry::new();
    state.register_relation("contained_by", "musce_core::Containment").unwrap();
    state.register_component("locus", "musce_core::Locus").unwrap();
    let mut builder = AffordanceRegistryBuilder::new(state);
    builder.register(take).unwrap();
    builder.register(eat).unwrap();
    let registry = builder.build(&world).unwrap();
    let goal = goal(&marker);

    Fixture { world, registry, actor, first, second, goal }
}

#[test]
fn regression_emits_canonical_ground_actions() {
    let fixture = fixture(false);
    let costs = UnitCost;
    let plan = Planner::new(&costs)
        .plan(&fixture.registry, fixture.actor, &fixture.goal, &[fixture.first], &fixture.world)
        .unwrap();

    assert_eq!(plan.len(), 2);
    assert_eq!(plan[0].affordance().as_str(), "take");
    assert_eq!(plan[1].affordance().as_str(), "eat");
    assert_eq!(plan[0].inputs(), &[Value::Entity(fixture.first)]);
    assert_eq!(plan[1].inputs(), &[Value::Entity(fixture.first)]);
}

#[test]
fn excluding_one_grounding_preserves_another() {
    let fixture = fixture(true);
    let costs = UnitCost;
    let planner = Planner::new(&costs);
    let first_plan = planner
        .plan(&fixture.registry, fixture.actor, &fixture.goal, &[fixture.first, fixture.second], &fixture.world)
        .unwrap();
    let replacement = planner
        .plan_excluding(
            &fixture.registry,
            fixture.actor,
            &fixture.goal,
            &[fixture.first, fixture.second],
            &fixture.world,
            &first_plan,
        )
        .unwrap();

    assert_eq!(replacement.len(), 1);
    assert_ne!(replacement[0].inputs(), first_plan[0].inputs());
}

#[test]
fn a_goal_that_already_holds_needs_an_empty_plan() {
    let mut fixture = fixture(false);
    fixture.world.set_component("locus", fixture.actor);
    let costs = UnitCost;
    let planner = Planner::new(&costs);
    assert!(planner.goal_holds(&fixture.registry, fixture.actor, &fixture.goal, &[fixture.first], &fixture.world));
    let plan = planner.plan(&fixture.registry, fixture.actor, &fixture.goal, &[fixture.first], &fixture.world).unwrap();
    assert!(plan.is_empty());
}

#[test]
fn no_known_entity_means_no_plan() {
    let fixture = fixture(false);
    let costs = UnitCost;
    let plan = Planner::new(&costs).plan(&fixture.registry, fixture.actor, &fixture.goal, &[], &fixture.world);
    assert!(plan.is_none());
}

#[test]
fn refusal_excludes_the_exact_pending_grounding_and_discards_the_stale_tail() {
    let fixture = fixture(false);
    let costs = UnitCost;
    let planner = Planner::new(&costs);
    let mut pursuit = Driver::new(fixture.actor, fixture.goal.clone());
    let refused = match pursuit.next(&planner, &fixture.registry, &[fixture.first], &fixture.world) {
        Next::Action(action) => action,
        other => panic!("expected an action, got {other:?}"),
    };
    assert_eq!(refused.affordance().as_str(), "take");
    assert_eq!(pursuit.remaining().len(), 1);

    pursuit.record(Beat::Refused);

    assert_eq!(pursuit.excluded(), [refused]);
    assert!(pursuit.remaining().is_empty());
    assert!(pursuit.pending().is_none());
}

#[test]
fn commitment_preserves_the_remaining_plan() {
    let fixture = fixture(false);
    let costs = UnitCost;
    let planner = Planner::new(&costs);
    let mut pursuit = Driver::new(fixture.actor, fixture.goal.clone());
    let pending = match pursuit.next(&planner, &fixture.registry, &[fixture.first], &fixture.world) {
        Next::Action(action) => action,
        other => panic!("expected an action, got {other:?}"),
    };
    assert_eq!(pursuit.pending(), Some(&pending));
    let next = pursuit.remaining()[0].clone();
    assert_eq!(next.affordance().as_str(), "eat");

    pursuit.record(Beat::Committed);

    assert!(pursuit.excluded().is_empty());
    assert_eq!(pursuit.remaining(), [next]);
}

#[test]
fn a_pursuit_whose_goal_holds_completes() {
    let mut fixture = fixture(false);
    fixture.world.set_component("locus", fixture.actor);
    let costs = UnitCost;
    let planner = Planner::new(&costs);
    let mut pursuit = Driver::new(fixture.actor, fixture.goal.clone());
    assert_eq!(
        pursuit.next(&planner, &fixture.registry, &[fixture.first], &fixture.world),
        Next::Complete(Progress::Achieved)
    );
}

#[test]
fn a_pursuit_with_no_plan_is_abandoned() {
    let fixture = fixture(false);
    let costs = UnitCost;
    let planner = Planner::new(&costs);
    let mut pursuit = Driver::new(fixture.actor, fixture.goal.clone());
    assert_eq!(pursuit.next(&planner, &fixture.registry, &[], &fixture.world), Next::Complete(Progress::Abandoned));
}
