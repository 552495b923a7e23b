use musce::id::EntityId;
use musce::schema::{
    AffordanceId, GroundAction, Parameter, ParameterBinding, ParameterId, ParameterMode,
    PartialGrounding, SymbolDomainId, SymbolId, SymbolValue, Value, ValueSort,
};

fn id(value: &str) -> ParameterId {
    ParameterId::new(value).unwrap()
}

#[test]
fn stable_ids_reject_ambiguous_names() {
    assert!(AffordanceId::new("").is_err());
    assert!(AffordanceId::new("two words").is_err());
    assert!(AffordanceId::new("core:take").is_ok());
    assert!(ParameterId::new("destination").is_ok());
}

#[test]
fn symbol_values_retain_their_domain() {
    let direction = SymbolDomainId::new("direction").unwrap();
    let north = SymbolId::new("north").unwrap();
    let value = Value::Symbol(SymbolValue::new(direction.clone(), north));
    assert_eq!(value.sort(), ValueSort::Symbol(direction));
}

#[test]
fn actor_is_not_an_input_slot() {
    let action = GroundAction::new(AffordanceId::new("take").unwrap(), EntityId(7), vec![Value::Entity(EntityId(9))]);
    assert_eq!(action.actor(), EntityId(7));
    assert_eq!(action.inputs(), [Value::Entity(EntityId(9))]);
}

#[test]
fn parameter_identity_and_dense_slot_are_independent() {
    let parameter = Parameter::new(id("destination"), "Destination room", ValueSort::Entity, ParameterMode::Input, 2).unwrap();
    assert_eq!(parameter.id().as_str(), "destination");
    assert_eq!(parameter.label(), "Destination room");
    assert_eq!(parameter.slot(), 2);
}

#[test]
fn partial_grounding_names_each_binding() {
    let partial = PartialGrounding::new(
        AffordanceId::new("put").unwrap(),
        vec![ParameterBinding::new(id("container"), Value::Entity(EntityId(4)))],
    );
    assert_eq!(partial.bindings()[0].parameter().as_str(), "container");
}

#[test]
fn names_reject_control_and_whitespace_and_report_the_value() {
    let err = ParameterId::new("bad\tname").unwrap_err();
    assert_eq!(err.value(), "bad\tname");
    assert!(ParameterId::new("\u{7}").is_err());
    assert!(Parameter::new(id("x"), "   ", ValueSort::Entity, ParameterMode::Input, 0).is_err());
    assert!(Parameter::new(id("x"), "Label\u{0}", ValueSort::Entity, ParameterMode::Input, 0).is_err());
}

#[test]
fn ground_actions_compare_by_affordance_actor_and_inputs() {
    let a = GroundAction::new(AffordanceId::new("take").unwrap(), EntityId(1), vec![Value::Entity(EntityId(2))]);
    let b = GroundAction::new(AffordanceId::new("take").unwrap(), EntityId(1), vec![Value::Entity(EntityId(2))]);
    let c = GroundAction::new(AffordanceId::new("take").unwrap(), EntityId(1), vec![Value::Entity(EntityId(3))]);
    assert!(a.same(&b));
    assert!(!a.same(&c));
}
