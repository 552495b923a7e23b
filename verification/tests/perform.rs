use musce::audience::{ConnectionId, Event, EventKind, Outbound};
use std::cell::Cell;

use musce::caps::{CapSet, Gate, Verdict};
use musce::id::EntityId;
use musce::perform::{
    AffordanceRegistryBuilder, EffectKind, HandlerOutcome, PerformError, PerformOutcome, Refusal,
    RegistryError,
};
use musce::registry::CapRegistry;
use musce::schema::{
    ActionOutcome, AffordanceId, AffordanceSchema, ComponentId, Condition, Effect, Formula, GroundAction,
    Guard, OptionalEntity, Parameter, ParameterId, ParameterMode, Resolution, Term, Value, ValueSort,
};
use musce::state::StateRegistry;
use musce::world_view::WorldView;

fn id(value: &str) -> AffordanceId {
    AffordanceId::new(value).unwrap()
}

fn parameter(value: &str, mode: ParameterMode, sort: ValueSort, slot: u16) -> Parameter {
    Parameter::new(ParameterId::new(value).unwrap(), value, sort, mode, slot).unwrap()
}

fn schema(
    name: &str,
    parameters: Vec<Parameter>,
    guards: Vec<Guard>,
    effects: Vec<Effect>,
    gate: Gate,
    resolution: Resolution,
) -> AffordanceSchema {
    AffordanceSchema::new(id(name), name, parameters, guards, effects, gate, resolution)
}

fn world_with_actor() -> (WorldView, EntityId) {
    let mut world = WorldView::new();
    let actor = EntityId(1);
    world.add_entity(actor);
    (world, actor)
}

fn empty_handler(_action: &GroundAction) -> HandlerOutcome {
    HandlerOutcome::committed(ActionOutcome::empty())
}

fn locus_state() -> (StateRegistry, ComponentId) {
    let mut state = StateRegistry::new();
    let locus = state.register_component("locus", "musce_core::Locus").unwrap();
    (state, locus)
}

fn locus_world(world: &mut WorldView) {
    world.register_component_type("musce_core::Locus");
}

#[test]
fn registration_rejects_malformed_and_unknown_schema_state() {
    let world = WorldView::new();
    let mut builder = AffordanceRegistryBuilder::new(StateRegistry::new());
    let bad_slot = schema(
        "bad_slot",
        vec![parameter("item", ParameterMode::Input, ValueSort::Entity, 1)],
        Vec::new(),
        Vec::new(),
        Gate::Open,
        Resolution::Deterministic,
    );
    assert!(matches!(builder.register(bad_slot), Err(RegistryError::InvalidSchema(_))));

    let unknown_component = schema(
        "unknown_component",
        Vec::new(),
        vec![Guard::new(
            Formula::all(vec![Condition::ComponentPresent {
                entity: Term::Actor,
                component: ComponentId::new("typo").unwrap(),
                present: true,
            }]),
            "No.",
        )],
        Vec::new(),
        Gate::Open,
        Resolution::Deterministic,
    );
    assert!(matches!(builder.register(unknown_component), Err(RegistryError::InvalidSchema(_))));
    assert!(builder.build(&world).is_ok());
}

#[test]
fn registration_rejects_guard_results_and_conflicting_effects() {
    let (state, locus) = locus_state();
    let result = ParameterId::new("made").unwrap();
    let result_in_guard = schema(
        "result_guard",
        vec![parameter("made", ParameterMode::Result, ValueSort::Entity, 0)],
        vec![Guard::new(Formula::all(vec![Condition::Exists { entity: Term::Result(result), exists: false }]), "No.")],
        Vec::new(),
        Gate::Open,
        Resolution::Deterministic,
    );
    let mut builder = AffordanceRegistryBuilder::new(state);
    assert!(matches!(builder.register(result_in_guard), Err(RegistryError::InvalidSchema(_))));

    let conflicting = schema(
        "conflicting",
        Vec::new(),
        Vec::new(),
        vec![
            Effect::SetComponent { entity: Term::Actor, component: locus.clone() },
            Effect::RemoveComponent { entity: Term::Actor, component: locus },
        ],
        Gate::Open,
        Resolution::Deterministic,
    );
    assert!(matches!(builder.register(conflicting), Err(RegistryError::InvalidSchema(_))));
}

#[test]
fn registration_rejects_positive_liveness_guards_on_entity_inputs() {
    let item = ParameterId::new("item").unwrap();
    let schema = schema(
        "redundant_liveness",
        vec![parameter("item", ParameterMode::Input, ValueSort::Entity, 0)],
        vec![Guard::new(Formula::all(vec![Condition::Exists { entity: Term::Input(item), exists: true }]), "Gone.")],
        Vec::new(),
        Gate::Open,
        Resolution::Deterministic,
    );
    assert!(matches!(
        AffordanceRegistryBuilder::new(StateRegistry::new()).register(schema),
        Err(RegistryError::InvalidSchema(_))
    ));
}

#[test]
fn grounding_and_gate_checks_run_before_guards_and_handler() {
    let (world, actor) = world_with_actor();
    let dead = EntityId(999);
    let mut caps = CapRegistry::new();
    let cap = caps.register("touch");
    let called = Cell::new(0usize);
    let schema = schema(
        "touch",
        vec![parameter("item", ParameterMode::Input, ValueSort::Entity, 0)],
        Vec::new(),
        Vec::new(),
        Gate::Cap(cap),
        Resolution::Deterministic,
    );
    let mut builder = AffordanceRegistryBuilder::new(StateRegistry::new());
    builder.register(schema).unwrap();
    let registry = builder.build(&world).unwrap();
    let action = GroundAction::new(id("touch"), actor, vec![Value::Entity(dead)]);

    let result = registry.perform(&world, &Verdict::guest(), &action, |_action| {
        called.set(called.get() + 1);
        HandlerOutcome::committed(ActionOutcome::empty())
    });
    assert!(matches!(result, Err(PerformError::DeadInput { .. })));
    assert_eq!(called.get(), 0);
}

#[test]
fn gate_precedes_ordered_guard_refusal() {
    let (mut world, actor) = world_with_actor();
    locus_world(&mut world);
    let (state, locus) = locus_state();
    let mut caps = CapRegistry::new();
    let cap = caps.register("enter");
    let guards = vec![
        Guard::new(
            Formula::all(vec![Condition::ComponentPresent { entity: Term::Actor, component: locus.clone(), present: true }]),
            "First failure.",
        ),
        Guard::new(
            Formula::all(vec![Condition::ComponentPresent { entity: Term::Actor, component: locus, present: true }]),
            "Second failure.",
        ),
    ];
    let mut builder = AffordanceRegistryBuilder::new(state);
    builder
        .register(schema("enter", Vec::new(), guards, Vec::new(), Gate::Cap(cap), Resolution::Deterministic))
        .unwrap();
    let registry = builder.build(&world).unwrap();
    let action = GroundAction::new(id("enter"), actor, Vec::new());

    assert_eq!(
        registry.perform(&world, &Verdict::guest(), &action, empty_handler).unwrap(),
        PerformOutcome::Refused(Refusal::Gate)
    );
    let granted = Verdict::new(CapSet::from_ids(vec![cap]), false);
    assert_eq!(
        registry.perform(&world, &granted, &action, empty_handler).unwrap(),
        PerformOutcome::Refused(Refusal::Guard { index: 0, reason: "First failure.".into() })
    );
}

#[test]
fn deterministic_refusal_is_contract_drift_but_contested_refusal_is_normal() {
    let (world, actor) = world_with_actor();
    let mut builder = AffordanceRegistryBuilder::new(StateRegistry::new());
    builder
        .register(schema("certain", Vec::new(), Vec::new(), Vec::new(), Gate::Open, Resolution::Deterministic))
        .unwrap();
    builder
        .register(schema("contest", Vec::new(), Vec::new(), Vec::new(), Gate::Open, Resolution::Contested))
        .unwrap();
    let registry = builder.build(&world).unwrap();

    assert!(matches!(
        registry.perform(&world, &Verdict::guest(), &GroundAction::new(id("certain"), actor, Vec::new()), |_a| {
            HandlerOutcome::refused("late veto")
        }),
        Err(PerformError::DeterministicRefusal { .. })
    ));
    assert!(matches!(
        registry.perform(&world, &Verdict::guest(), &GroundAction::new(id("contest"), actor, Vec::new()), |_a| {
            HandlerOutcome::refused("lost")
        }),
        Ok(PerformOutcome::Refused(Refusal::Resolution { .. }))
    ));
}

#[test]
fn committed_results_are_checked_and_self_output_is_entity_addressed() {
    let (world, actor) = world_with_actor();
    let mut builder = AffordanceRegistryBuilder::new(StateRegistry::new());
    builder
        .register(schema(
            "speak",
            vec![parameter("echo", ParameterMode::Result, ValueSort::Text, 0)],
            Vec::new(),
            Vec::new(),
            Gate::Open,
            Resolution::Deterministic,
        ))
        .unwrap();
    let registry = builder.build(&world).unwrap();
    let outcome = registry
        .perform(&world, &Verdict::guest(), &GroundAction::new(id("speak"), actor, Vec::new()), |_a| {
            HandlerOutcome::committed(ActionOutcome::new(vec![Value::text("hello")]))
        })
        .unwrap();
    assert_eq!(outcome, PerformOutcome::Committed(ActionOutcome::new(vec![Value::text("hello")])));
}

#[test]
fn malformed_handler_results_are_contract_errors() {
    let (world, actor) = world_with_actor();
    let mut builder = AffordanceRegistryBuilder::new(StateRegistry::new());
    builder
        .register(schema(
            "bad_result",
            vec![parameter("text", ParameterMode::Result, ValueSort::Text, 0)],
            Vec::new(),
            Vec::new(),
            Gate::Open,
            Resolution::Deterministic,
        ))
        .unwrap();
    let registry = builder.build(&world).unwrap();
    assert!(matches!(
        registry.perform(&world, &Verdict::guest(), &GroundAction::new(id("bad_result"), actor, Vec::new()), |_a| {
            HandlerOutcome::committed(ActionOutcome::new(vec![Value::Entity(EntityId(4))]))
        }),
        Err(PerformError::WrongResultSort { .. })
    ));
    assert!(matches!(
        registry.perform(&world, &Verdict::guest(), &GroundAction::new(id("bad_result"), actor, Vec::new()), |_a| {
            HandlerOutcome::committed(ActionOutcome::empty())
        }),
        Err(PerformError::ResultCount { expected: 1, actual: 0 })
    ));
}

#[test]
fn duplicate_affordance_ids_are_rejected() {
    let mut builder = AffordanceRegistryBuilder::new(StateRegistry::new());
    for first in [true, false] {
        let result = builder.register(schema("same", Vec::new(), Vec::new(), Vec::new(), Gate::Open, Resolution::Deterministic));
        assert_eq!(result.is_ok(), first);
        if !first {
            assert!(matches!(result, Err(RegistryError::DuplicateAffordance(_))));
        }
    }
}

#[test]
fn player_context_cannot_substitute_another_actor() {
    let (mut world, caller_actor) = world_with_actor();
    let other_actor = EntityId(2);
    world.add_entity(other_actor);
    let mut builder = AffordanceRegistryBuilder::new(StateRegistry::new());
    builder
        .register(schema("wait", Vec::new(), Vec::new(), Vec::new(), Gate::Open, Resolution::Deterministic))
        .unwrap();
    let registry = builder.build(&world).unwrap();
    assert!(matches!(
        registry.perform_as(
            caller_actor,
            &world,
            &Verdict::guest(),
            &GroundAction::new(id("wait"), other_actor, Vec::new()),
            empty_handler
        ),
        Err(PerformError::ActorMismatch { .. })
    ));
    assert!(registry
        .perform_as(caller_actor, &world, &Verdict::guest(), &GroundAction::new(id("wait"), caller_actor, Vec::new()), empty_handler)
        .is_ok());
}

#[test]
fn system_context_requires_an_explicit_verdict_for_autonomous_actions() {
    let (world, actor) = world_with_actor();
    let mut caps = CapRegistry::new();
    let cap = caps.register("autonomous");
    let mut builder = AffordanceRegistryBuilder::new(StateRegistry::new());
    builder
        .register(schema("autonomous", Vec::new(), Vec::new(), Vec::new(), Gate::Cap(cap), Resolution::Deterministic))
        .unwrap();
    let registry = builder.build(&world).unwrap();
    let action = GroundAction::new(id("autonomous"), actor, Vec::new());
    let granted = Verdict::new(CapSet::from_ids(vec![cap]), false);

    assert_eq!(
        registry.perform(&world, &Verdict::guest(), &action, empty_handler).unwrap(),
        PerformOutcome::Refused(Refusal::Gate)
    );
    assert!(matches!(
        registry.perform(&world, &granted, &action, |_a| {
            assert!(granted.permits(cap));
            HandlerOutcome::committed(ActionOutcome::empty())
        }),
        Ok(PerformOutcome::Committed(_))
    ));
}

#[test]
fn effect_index_excludes_opaque_and_fresh_result_effects() {
    let (world, actor) = world_with_actor();
    let mut builder = AffordanceRegistryBuilder::new(StateRegistry::new());
    builder
        .register(schema(
            "move",
            vec![parameter("destination", ParameterMode::Input, ValueSort::Entity, 0)],
            Vec::new(),
            vec![Effect::SetLocus { entity: Term::Actor, locus: Term::Input(ParameterId::new("destination").unwrap()) }],
            Gate::Open,
            Resolution::Deterministic,
        ))
        .unwrap();
    builder
        .register(schema(
            "teleport_secretly",
            vec![parameter("destination", ParameterMode::Input, ValueSort::Entity, 0)],
            Vec::new(),
            vec![Effect::SetLocus { entity: Term::Actor, locus: Term::Input(ParameterId::new("destination").unwrap()) }],
            Gate::Open,
            Resolution::Opaque,
        ))
        .unwrap();
    builder
        .register(schema(
            "make",
            vec![parameter("made", ParameterMode::Result, ValueSort::Entity, 0)],
            Vec::new(),
            vec![Effect::Create { result: ParameterId::new("made").unwrap() }],
            Gate::Open,
            Resolution::Deterministic,
        ))
        .unwrap();
    let registry = builder.build(&world).unwrap();

    assert_eq!(registry.affordances_affecting(&EffectKind::Locus), [id("move")]);
    assert!(registry.affordances_affecting(&EffectKind::Existence).is_empty());
    assert_eq!(registry.schema(&id("move")).unwrap().id(), &id("move"));
    assert_eq!(
        registry.schemas().iter().map(|schema| schema.id().as_str()).collect::<Vec<_>>(),
        ["make", "move", "teleport_secretly"]
    );
    assert!(world.contains(actor));
}

#[test]
fn optional_entity_terms_are_sort_checked_at_registration() {
    let bad = schema(
        "bad_optional",
        vec![parameter("text", ParameterMode::Input, ValueSort::Text, 0)],
        vec![Guard::new(
            Formula::all(vec![Condition::LocusOf {
                entity: Term::Actor,
                locus: OptionalEntity::Is(Term::Input(ParameterId::new("text").unwrap())),
            }]),
            "No.",
        )],
        Vec::new(),
        Gate::Open,
        Resolution::Deterministic,
    );
    assert!(matches!(
        AffordanceRegistryBuilder::new(StateRegistry::new()).register(bad),
        Err(RegistryError::InvalidSchema(_))
    ));
}

#[test]
fn unknown_affordance_and_bad_input_counts_are_perform_errors() {
    let (world, actor) = world_with_actor();
    let mut builder = AffordanceRegistryBuilder::new(StateRegistry::new());
    builder
        .register(schema(
            "touch",
            vec![parameter("item", ParameterMode::Input, ValueSort::Entity, 0)],
            Vec::new(),
            Vec::new(),
            Gate::Open,
            Resolution::Deterministic,
        ))
        .unwrap();
    let registry = builder.build(&world).unwrap();
    assert!(matches!(
        registry.perform(&world, &Verdict::guest(), &GroundAction::new(id("nope"), actor, Vec::new()), empty_handler),
        Err(PerformError::UnknownAffordance(_))
    ));
    assert!(matches!(
        registry.perform(&world, &Verdict::guest(), &GroundAction::new(id("touch"), actor, Vec::new()), empty_handler),
        Err(PerformError::InputCount { expected: 1, actual: 0 })
    ));
    assert!(matches!(
        registry.perform(&world, &Verdict::guest(), &GroundAction::new(id("touch"), EntityId(50), vec![Value::Entity(actor)]), empty_handler),
        Err(PerformError::DeadActor(EntityId(50)))
    ));
    assert!(matches!(
        registry.perform(&world, &Verdict::guest(), &GroundAction::new(id("touch"), actor, vec![Value::text("x")]), empty_handler),
        Err(PerformError::WrongInputSort { slot: 0, .. })
    ));
}

#[test]
fn build_refuses_a_world_missing_a_reader_type() {
    let world = WorldView::new();
    let (state, _locus) = locus_state();
    let builder = AffordanceRegistryBuilder::new(state);
    assert!(matches!(builder.build(&world), Err(RegistryError::StateActivation(_))));
}

#[test]
fn a_slot_gap_names_the_first_missing_slot() {
    let mut builder = AffordanceRegistryBuilder::new(StateRegistry::new());
    let bad_slot = schema(
        "bad_slot",
        vec![parameter("item", ParameterMode::Input, ValueSort::Entity, 1)],
        Vec::new(),
        Vec::new(),
        Gate::Open,
        Resolution::Deterministic,
    );
    match builder.register(bad_slot) {
        Err(RegistryError::InvalidSchema(e)) => {
            assert_eq!(e.issue(), "Input slots must be dense from zero; missing 0");
            assert_eq!(e.affordance().as_str(), "bad_slot");
        }
        _ => panic!("expected a schema error"),
    }
    let result_gap = schema(
        "result_gap",
        vec![
            parameter("item", ParameterMode::Input, ValueSort::Entity, 0),
            parameter("made", ParameterMode::Result, ValueSort::Entity, 0),
            parameter("also", ParameterMode::Result, ValueSort::Entity, 2),
        ],
        Vec::new(),
        Vec::new(),
        Gate::Open,
        Resolution::Deterministic,
    );
    match builder.register(result_gap) {
        Err(RegistryError::InvalidSchema(e)) => {
            assert_eq!(e.issue(), "Result slots must be dense from zero; missing 1");
        }
        _ => panic!("expected a schema error"),
    }
}

#[test]
fn contradicting_effects_name_the_slot() {
    let dest = ParameterId::new("dest").unwrap();
    let go = schema(
        "go",
        vec![parameter("dest", ParameterMode::Input, ValueSort::Entity, 0)],
        Vec::new(),
        vec![
            Effect::SetLocus { entity: Term::Actor, locus: Term::Input(dest) },
            Effect::ClearLocus { entity: Term::Actor },
        ],
        Gate::Open,
        Resolution::Deterministic,
    );
    let mut builder = AffordanceRegistryBuilder::new(StateRegistry::new());
    match builder.register(go) {
        Err(RegistryError::InvalidSchema(e)) => {
            assert_eq!(e.issue(), "effects make incompatible assignments to Locus(Actor)");
        }
        _ => panic!("expected a schema error"),
    }

    let (state, locus) = locus_state();
    let conflicting = schema(
        "conflicting",
        vec![parameter("dest", ParameterMode::Input, ValueSort::Entity, 0)],
        Vec::new(),
        vec![
            Effect::SetComponent { entity: Term::Input(ParameterId::new("dest").unwrap()), component: locus.clone() },
            Effect::RemoveComponent { entity: Term::Input(ParameterId::new("dest").unwrap()), component: locus },
        ],
        Gate::Open,
        Resolution::Deterministic,
    );
    let mut builder = AffordanceRegistryBuilder::new(state);
    match builder.register(conflicting) {
        Err(RegistryError::InvalidSchema(e)) => {
            assert_eq!(
                e.issue(),
                "effects make incompatible assignments to Component(Input(ParameterId(\"dest\")), ComponentId(\"locus\"))"
            );
        }
        _ => panic!("expected a schema error"),
    }
}

#[test]
fn a_result_created_twice_is_named() {
    let made = ParameterId::new("made").unwrap();
    let twice = schema(
        "twice",
        vec![parameter("made", ParameterMode::Result, ValueSort::Entity, 0)],
        Vec::new(),
        vec![Effect::Create { result: made.clone() }, Effect::Create { result: made }],
        Gate::Open,
        Resolution::Deterministic,
    );
    let mut builder = AffordanceRegistryBuilder::new(StateRegistry::new());
    match builder.register(twice) {
        Err(RegistryError::InvalidSchema(e)) => {
            assert_eq!(e.issue(), "result made is created more than once");
        }
        _ => panic!("expected a schema error"),
    }
}

#[test]
fn guard_and_parameter_issues_name_what_is_wrong() {
    let mut builder = AffordanceRegistryBuilder::new(StateRegistry::new());
    let unknown_component = schema(
        "unknown_component",
        Vec::new(),
        vec![Guard::new(
            Formula::all(vec![Condition::ComponentPresent {
                entity: Term::Actor,
                component: ComponentId::new("typo").unwrap(),
                present: true,
            }]),
            "No.",
        )],
        Vec::new(),
        Gate::Open,
        Resolution::Deterministic,
    );
    match builder.register(unknown_component) {
        Err(RegistryError::InvalidSchema(e)) => assert_eq!(e.issue(), "unknown component typo"),
        _ => panic!("expected a schema error"),
    }
    let twice = schema(
        "twice",
        vec![
            parameter("item", ParameterMode::Input, ValueSort::Entity, 0),
            parameter("item", ParameterMode::Input, ValueSort::Entity, 1),
        ],
        Vec::new(),
        Vec::new(),
        Gate::Open,
        Resolution::Deterministic,
    );
    match builder.register(twice) {
        Err(RegistryError::InvalidSchema(e)) => assert_eq!(e.issue(), "duplicate parameter id item"),
        _ => panic!("expected a schema error"),
    }
    let same_slot = schema(
        "same_slot",
        vec![
            parameter("a", ParameterMode::Input, ValueSort::Entity, 0),
            parameter("b", ParameterMode::Input, ValueSort::Entity, 0),
        ],
        Vec::new(),
        Vec::new(),
        Gate::Open,
        Resolution::Deterministic,
    );
    match builder.register(same_slot) {
        Err(RegistryError::InvalidSchema(e)) => assert_eq!(e.issue(), "duplicate Input slot 0"),
        _ => panic!("expected a schema error"),
    }
}

#[test]
fn staged_output_is_delivered_only_on_commit() {
    let (world, actor) = world_with_actor();
    let mut builder = AffordanceRegistryBuilder::new(StateRegistry::new());
    builder
        .register(schema("contest", Vec::new(), Vec::new(), Vec::new(), Gate::Open, Resolution::Contested))
        .unwrap();
    let registry = builder.build(&world).unwrap();
    let action = GroundAction::new(id("contest"), actor, Vec::new());
    let line = || vec![Outbound::new(Event::to_connection(ConnectionId(1), EventKind::Feedback, "done"))];

    let mut out = Vec::new();
    let refused = registry.perform_emitting(&world, &mut out, &Verdict::guest(), &action, |_a| {
        (HandlerOutcome::refused("lost"), line())
    });
    assert!(matches!(refused, Ok(PerformOutcome::Refused(Refusal::Resolution { .. }))));
    assert!(out.is_empty());

    let committed = registry.perform_emitting(&world, &mut out, &Verdict::guest(), &action, |_a| {
        (HandlerOutcome::committed(ActionOutcome::empty()), line())
    });
    assert!(matches!(committed, Ok(PerformOutcome::Committed(_))));
    assert_eq!(out.len(), 1);
    assert_eq!(out[0].event.text, "done");
}

#[test]
fn term_and_effect_issues_name_what_is_wrong() {
    let mut builder = AffordanceRegistryBuilder::new(StateRegistry::new());
    let ghost_input = schema(
        "ghost_input",
        Vec::new(),
        vec![Guard::new(
            Formula::all(vec![Condition::Exists { entity: Term::Input(ParameterId::new("who").unwrap()), exists: false }]),
            "No.",
        )],
        Vec::new(),
        Gate::Open,
        Resolution::Deterministic,
    );
    match builder.register(ghost_input) {
        Err(RegistryError::InvalidSchema(e)) => assert_eq!(e.issue(), "undeclared input who"),
        _ => panic!("expected a schema error"),
    }
    let text_subject = schema(
        "text_subject",
        vec![parameter("word", ParameterMode::Input, ValueSort::Text, 0)],
        Vec::new(),
        vec![Effect::Destroy { entity: Term::Input(ParameterId::new("word").unwrap()) }],
        Gate::Open,
        Resolution::Deterministic,
    );
    match builder.register(text_subject) {
        Err(RegistryError::InvalidSchema(e)) => assert_eq!(e.issue(), "state position requires Entity, got Text"),
        _ => panic!("expected a schema error"),
    }
    let blank_reason = schema(
        "blank_reason",
        Vec::new(),
        vec![Guard::new(Formula::all(Vec::new()), " ")],
        Vec::new(),
        Gate::Open,
        Resolution::Deterministic,
    );
    match builder.register(blank_reason) {
        Err(RegistryError::InvalidSchema(e)) => {
            assert_eq!(e.issue(), "guard 0 reason must contain visible text and no control characters")
        }
        _ => panic!("expected a schema error"),
    }
}
