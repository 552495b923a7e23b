use musce::caps::{Gate, Verdict};
use musce::id::EntityId;
use musce::offers::{GroundingError, InputCandidates, OfferProposal, OfferStatus};
use musce::perform::{AffordanceRegistry, AffordanceRegistryBuilder};
use musce::registry::CapRegistry;
use musce::schema::{
    AffordanceId, AffordanceSchema, ComponentId, Condition, Formula, Guard, OptionalEntity, Parameter,
    ParameterBinding, ParameterId, ParameterMode, PartialGrounding, RelationId, Resolution, Term, Value,
    ValueSort,
};
use musce::state::StateRegistry;
use musce::world_view::WorldView;

fn id(value: &str) -> ParameterId {
    ParameterId::new(value).unwrap()
}

const ACTOR: EntityId = EntityId(1);
const ITEM: EntityId = EntityId(2);
const RECIPIENT: EntityId = EntityId(3);

fn fixture(gate: Gate) -> (WorldView, AffordanceRegistry, EntityId, EntityId, EntityId) {
    let mut world = WorldView::new();
    world.register_relation_type("musce_core::Containment");
    world.register_component_type("musce_core::Locus");
    for e in [ACTOR, ITEM, RECIPIENT] {
        world.add_entity(e);
    }
    world.set_component("locus", RECIPIENT);
    world.set_relation("contained_by", ITEM, ACTOR);

    let mut state = StateRegistry::new();
    let containment: RelationId = state.register_relation("contained_by", "musce_core::Containment").unwrap();
    let recipient_component: ComponentId = state.register_component("locus", "musce_core::Locus").unwrap();
    let item_id = id("item");
    let recipient_id = id("recipient");
    let schema = AffordanceSchema::new(
        AffordanceId::new("give").unwrap(),
        "Give",
        vec![
            // Declaration order is intentionally not dense-slot order.
            Parameter::new(recipient_id.clone(), "recipient", ValueSort::Entity, ParameterMode::Input, 1).unwrap(),
            Parameter::new(item_id.clone(), "item", ValueSort::Entity, ParameterMode::Input, 0).unwrap(),
        ],
        vec![
            Guard::new(
                Formula::all(vec![Condition::RelationTarget {
                    source: Term::Input(item_id),
                    relation: containment,
                    target: OptionalEntity::Is(Term::Actor),
                }]),
                "not held",
            ),
            Guard::new(
                Formula::all(vec![Condition::ComponentPresent {
                    entity: Term::Input(recipient_id),
                    component: recipient_component,
                    present: true,
                }]),
                "not a recipient",
            ),
        ],
        Vec::new(),
        gate,
        Resolution::Deterministic,
    );
    let mut builder = AffordanceRegistryBuilder::new(state);
    builder.register(schema).unwrap();
    let registry = builder.build(&world).unwrap();
    (world, registry, ACTOR, ITEM, RECIPIENT)
}

fn partial(bindings: Vec<ParameterBinding>) -> PartialGrounding {
    PartialGrounding::new(AffordanceId::new("give").unwrap(), bindings)
}

#[test]
fn a_ground_guard_can_veto_while_an_earlier_guard_is_unbound() {
    let (mut world, registry, actor, _item, recipient) = fixture(Gate::Open);
    let wrong = EntityId(4);
    world.add_entity(wrong);

    let vetoed = registry
        .classify_offer(
            &world,
            &Verdict::guest(),
            actor,
            OfferProposal::new(partial(vec![ParameterBinding::new(id("recipient"), Value::Entity(wrong))]), Vec::new()),
        )
        .unwrap();
    assert!(matches!(vetoed.status(), OfferStatus::Vetoed { reason } if reason == "not a recipient"));

    let needs = registry
        .classify_offer(
            &world,
            &Verdict::guest(),
            actor,
            OfferProposal::new(partial(vec![ParameterBinding::new(id("recipient"), Value::Entity(recipient))]), Vec::new()),
        )
        .unwrap();
    assert!(matches!(needs.status(), OfferStatus::Needs { parameters } if parameters.as_slice() == [id("item")]));
}

#[test]
fn complete_grounding_is_dense_and_available() {
    let (world, registry, actor, item, recipient) = fixture(Gate::Open);
    let offer = registry
        .classify_offer(
            &world,
            &Verdict::guest(),
            actor,
            OfferProposal::new(
                partial(vec![
                    ParameterBinding::new(id("recipient"), Value::Entity(recipient)),
                    ParameterBinding::new(id("item"), Value::Entity(item)),
                ]),
                Vec::new(),
            ),
        )
        .unwrap();
    assert_eq!(offer.status(), &OfferStatus::Available);

    let grounding = partial(vec![
        ParameterBinding::new(id("recipient"), Value::Entity(recipient)),
        ParameterBinding::new(id("item"), Value::Entity(item)),
    ]);
    let action = registry.ground_action(&world, actor, &grounding).unwrap();
    assert_eq!(action.inputs(), &[Value::Entity(item), Value::Entity(recipient)]);
}

#[test]
fn candidate_sets_are_typed_live_and_only_for_missing_inputs() {
    let (world, registry, actor, item, recipient) = fixture(Gate::Open);
    // Never added to the world, so it is not live.
    let dead = EntityId(99);

    let valid = OfferProposal::new(
        partial(vec![ParameterBinding::new(id("recipient"), Value::Entity(recipient))]),
        vec![InputCandidates::new(id("item"), vec![Value::Entity(item)])],
    );
    assert!(registry.classify_offer(&world, &Verdict::guest(), actor, valid).is_ok());

    let bound_candidates = OfferProposal::new(
        partial(vec![ParameterBinding::new(id("recipient"), Value::Entity(recipient))]),
        vec![InputCandidates::new(id("recipient"), vec![Value::Entity(recipient)])],
    );
    assert!(matches!(
        registry.classify_offer(&world, &Verdict::guest(), actor, bound_candidates),
        Err(GroundingError::CandidatesForBoundInput(_))
    ));

    let dead_candidates = OfferProposal::new(
        partial(vec![ParameterBinding::new(id("recipient"), Value::Entity(recipient))]),
        vec![InputCandidates::new(id("item"), vec![Value::Entity(dead)])],
    );
    assert!(matches!(
        registry.classify_offer(&world, &Verdict::guest(), actor, dead_candidates),
        Err(GroundingError::DeadEntity { .. })
    ));
}

#[test]
fn account_gate_precedes_missing_inputs() {
    let mut caps = CapRegistry::new();
    let cap = caps.register("give");
    let (world, registry, actor, _item, _recipient) = fixture(Gate::Cap(cap));
    let offer = registry
        .classify_offer(&world, &Verdict::guest(), actor, OfferProposal::new(partial(Vec::new()), Vec::new()))
        .unwrap();
    assert!(matches!(offer.status(), OfferStatus::Vetoed { .. }));
}

#[test]
fn grounding_errors_name_the_offending_input() {
    let (world, registry, actor, item, _recipient) = fixture(Gate::Open);
    // A dead actor is refused before anything else.
    assert!(matches!(
        registry.classify_offer(&world, &Verdict::guest(), EntityId(77), OfferProposal::new(partial(Vec::new()), Vec::new())),
        Err(GroundingError::DeadActor(EntityId(77)))
    ));
    // Binding the same input twice is a duplicate.
    let twice = partial(vec![
        ParameterBinding::new(id("item"), Value::Entity(item)),
        ParameterBinding::new(id("item"), Value::Entity(item)),
    ]);
    assert!(matches!(
        registry.classify_offer(&world, &Verdict::guest(), actor, OfferProposal::new(twice, Vec::new())),
        Err(GroundingError::DuplicateBinding(_))
    ));
    // An unknown parameter name is reported as such.
    let unknown = partial(vec![ParameterBinding::new(id("nonesuch"), Value::Entity(item))]);
    assert!(matches!(
        registry.classify_offer(&world, &Verdict::guest(), actor, OfferProposal::new(unknown, Vec::new())),
        Err(GroundingError::UnknownParameter(_))
    ));
    // A text value where an entity is declared is a sort error.
    let wrong_sort = partial(vec![ParameterBinding::new(id("item"), Value::text("coin"))]);
    assert!(matches!(
        registry.classify_offer(&world, &Verdict::guest(), actor, OfferProposal::new(wrong_sort, Vec::new())),
        Err(GroundingError::WrongSort { .. })
    ));
    // Grounding an incomplete partial names every missing input, in declaration order.
    assert!(matches!(
        registry.ground_action(&world, actor, &partial(Vec::new())),
        Err(GroundingError::MissingInputs(missing)) if missing == vec![id("recipient"), id("item")]
    ));
    // An unregistered affordance.
    let other = PartialGrounding::new(AffordanceId::new("juggle").unwrap(), Vec::new());
    assert!(matches!(
        registry.ground_action(&world, actor, &other),
        Err(GroundingError::UnknownAffordance(_))
    ));
}
