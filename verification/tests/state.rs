use musce::caps::Gate;
use musce::gauge::{GaugeId, GaugeLevel, GaugeTarget};
use musce::id::EntityId;
use musce::schema::{
    AffordanceId, AffordanceSchema, ComponentId, Condition, Formula, GaugeRegionId, GroundAction,
    Guard, Local, LocalId, OptionalEntity, Parameter, ParameterId, ParameterMode, Resolution, Term,
    Value, ValueSort,
};
use musce::state::{EvaluationError, GaugeRegion, StateRegistrationError, StateRegistry};
use musce::world_view::WorldView;

fn schema(parameters: Vec<Parameter>) -> AffordanceSchema {
    AffordanceSchema::new(
        AffordanceId::new("test").unwrap(),
        "Test",
        parameters,
        Vec::<Guard>::new(),
        Vec::new(),
        Gate::Open,
        Resolution::Deterministic,
    )
}

fn input(name: &str, slot: u16) -> Parameter {
    Parameter::new(ParameterId::new(name).unwrap(), name, ValueSort::Entity, ParameterMode::Input, slot).unwrap()
}

#[test]
fn evaluates_relations_components_locus_and_existence() {
    let room = EntityId(1);
    let bag = EntityId(2);
    let coin = EntityId(3);
    let mut world = WorldView::new();
    world.register_relation_type("musce_core::Containment");
    world.register_component_type("musce_core::Locus");
    for e in [room, bag, coin] {
        world.add_entity(e);
    }
    world.set_component("locus", room);
    world.set_relation("contained_by", bag, room);
    world.set_relation("contained_by", coin, bag);
    world.set_locus(bag, room);
    world.set_locus(coin, room);

    let mut state = StateRegistry::new();
    let containment = state.register_relation("contained_by", "musce_core::Containment").unwrap();
    let locus = state.register_component("locus", "musce_core::Locus").unwrap();
    state.validate_world(&world).unwrap();

    let item = ParameterId::new("item").unwrap();
    let schema = schema(vec![input("item", 0)]);
    let action = GroundAction::new(AffordanceId::new("test").unwrap(), bag, vec![Value::Entity(coin)]);
    let witness = LocalId::new("room").unwrap();
    let formula = Formula::new(
        vec![Local::new(witness.clone(), ValueSort::Entity)],
        vec![
            Condition::RelationTarget {
                source: Term::Input(item.clone()),
                relation: containment,
                target: OptionalEntity::Is(Term::Actor),
            },
            Condition::LocusOf {
                entity: Term::Input(item.clone()),
                locus: OptionalEntity::Is(Term::Local(witness.clone())),
            },
            Condition::ComponentPresent { entity: Term::Local(witness), component: locus, present: true },
            Condition::Exists { entity: Term::Input(item), exists: true },
        ],
    );

    assert!(state.evaluate(&formula, &schema, &action, None, &world).unwrap());
}

#[test]
fn gauge_thresholds_use_registered_region_order() {
    let actor = EntityId(1);
    let mut world = WorldView::new();
    world.add_entity(actor);
    // The reader measures the length of the actor's description, "1234567890".
    world.set_gauge("description_length", actor, 10);
    let gauge = GaugeId::from_str("description_length");
    let short = GaugeRegionId::new("short").unwrap();
    let long = GaugeRegionId::new("long").unwrap();
    let mut state = StateRegistry::new();
    state
        .register_gauge(
            gauge.clone(),
            vec![
                GaugeRegion::new(short.clone(), GaugeTarget::at_most(GaugeLevel::new(9))),
                GaugeRegion::new(long.clone(), GaugeTarget::at_least(GaugeLevel::new(10))),
            ],
        )
        .unwrap();
    let schema = schema(Vec::new());
    let action = GroundAction::new(AffordanceId::new("test").unwrap(), actor, Vec::new());

    assert!(state
        .evaluate(
            &Formula::all(vec![Condition::GaugeAtLeast { entity: Term::Actor, gauge: gauge.clone(), region: long.clone() }]),
            &schema,
            &action,
            None,
            &world,
        )
        .unwrap());
    assert!(!state
        .evaluate(
            &Formula::all(vec![Condition::GaugeAtMost { entity: Term::Actor, gauge, region: short }]),
            &schema,
            &action,
            None,
            &world,
        )
        .unwrap());
}

#[test]
fn gauge_regions_must_form_a_total_nonoverlapping_cover() {
    let mut state = StateRegistry::new();
    let result = state.register_gauge(
        GaugeId::from_str("broken"),
        vec![GaugeRegion::new(
            GaugeRegionId::new("middle").unwrap(),
            GaugeTarget::between(GaugeLevel::new(10), GaugeLevel::new(20)).unwrap(),
        )],
    );
    assert!(matches!(result, Err(StateRegistrationError::InvalidGauge { .. })));

    let result = state.register_gauge(
        GaugeId::from_str("overlap_at_max"),
        vec![
            GaugeRegion::new(
                GaugeRegionId::new("all").unwrap(),
                GaugeTarget::between(GaugeLevel::min_level(), GaugeLevel::max_level()).unwrap(),
            ),
            GaugeRegion::new(GaugeRegionId::new("extra").unwrap(), GaugeTarget::at(GaugeLevel::max_level())),
        ],
    );
    assert!(matches!(result, Err(StateRegistrationError::InvalidGauge { .. })));
}

#[test]
fn activation_fails_when_the_world_omits_a_typed_reader() {
    let world = WorldView::new();
    let mut state = StateRegistry::new();
    state.register_relation("unregistered", "musce_action::Unregistered").unwrap();
    let error = state.validate_world(&world).unwrap_err();
    assert!(error.missing()[0].contains("unregistered"));
}

#[test]
fn unknown_vocabulary_is_an_error_not_false() {
    let world = WorldView::new();
    let actor = EntityId(1);
    let schema = schema(Vec::new());
    let action = GroundAction::new(AffordanceId::new("test").unwrap(), actor, Vec::new());
    let formula = Formula::all(vec![Condition::ComponentPresent {
        entity: Term::Actor,
        component: ComponentId::new("typo").unwrap(),
        present: true,
    }]);
    assert!(matches!(
        StateRegistry::new().evaluate(&formula, &schema, &action, None, &world),
        Err(EvaluationError::UnknownComponent(_))
    ));
}

#[test]
fn a_registered_reader_type_activates_cleanly() {
    let mut world = WorldView::new();
    world.register_relation_type("musce_core::Containment");
    let mut state = StateRegistry::new();
    state.register_relation("contained_by", "musce_core::Containment").unwrap();
    assert!(state.validate_world(&world).is_ok());
    // Re-registering the same id under the same type is idempotent; another type collides.
    assert!(state.register_relation("contained_by", "musce_core::Containment").is_ok());
    assert!(matches!(
        state.register_relation("contained_by", "other::Type"),
        Err(StateRegistrationError::IdCollision { .. })
    ));
}

#[test]
fn missing_readers_are_reported_sorted() {
    let world = WorldView::new();
    let mut state = StateRegistry::new();
    state.register_relation("zeta", "z::Zeta").unwrap();
    state.register_component("alpha", "a::Alpha").unwrap();
    let error = state.validate_world(&world).unwrap_err();
    assert_eq!(error.missing(), ["component alpha (a::Alpha)".to_string(), "relation zeta (z::Zeta)".to_string()]);
}
