use musce::authority::{AccountError, AccountId, AuthError};
use musce::store::StoreError;
use musce::gauge::{GaugeId, GaugeLevel};
use musce::id::EntityId;
use musce::offers::GroundingError;
use musce::perform::PerformError;
use musce::relation::{LoadError, RelationError, RelationRole};
use musce::control::FocusError;
use musce::schema::{ParameterId, ParameterMode, RelationId, SymbolDomainId, ValueSort};
use musce::state::{EvaluationError, StateRegistrationError};

fn pid(s: &str) -> ParameterId {
    ParameterId::new(s).unwrap()
}

#[test]
fn evaluation_errors_read_like_their_cause() {
    let e = EvaluationError::UnknownRelation(RelationId::new("contained_by").unwrap());
    assert_eq!(e.to_text(), "unknown relation id contained_by");
    let e = EvaluationError::WrongParameterMode {
        parameter: pid("target"),
        expected: ParameterMode::Input,
        actual: ParameterMode::Result,
    };
    assert_eq!(e.to_text(), "parameter target has mode Result, expected Input");
    let e = EvaluationError::MissingParameterValue { parameter: pid("target"), mode: ParameterMode::Input, slot: 3 };
    assert_eq!(e.to_text(), "missing Input value for parameter target at slot 3");
    let e = EvaluationError::WrongValueSort {
        parameter: pid("p"),
        expected: ValueSort::Entity,
        actual: ValueSort::Symbol(SymbolDomainId::new("colour").unwrap()),
    };
    assert_eq!(e.to_text(), "parameter p has value sort Symbol(SymbolDomainId(\"colour\")), expected Entity");
    let e = EvaluationError::ExpectedEntity(ValueSort::Text);
    assert_eq!(e.to_text(), "state position requires Entity, got Text");
    let e = EvaluationError::GaugeLevelOutsideRegions { gauge: GaugeId::from_str("hunger"), level: GaugeLevel::max_level() };
    assert_eq!(e.to_text(), "gauge hunger returned level 255 outside its registered regions");
}

#[test]
fn perform_errors_read_like_their_cause() {
    let e = PerformError::ActorMismatch { caller: EntityId(1), action: EntityId(22) };
    assert_eq!(e.to_text(), "caller actor EntityId(1) cannot perform as EntityId(22)");
    let e = PerformError::InputCount { expected: 2, actual: 10 };
    assert_eq!(e.to_text(), "grounding has 10 inputs, expected 2");
    let e = PerformError::WrongResultSort { slot: 0, expected: ValueSort::Text, actual: ValueSort::Entity };
    assert_eq!(e.to_text(), "result slot 0 has sort Entity, expected Text");
    let e = PerformError::Evaluation(EvaluationError::UndeclaredLocal(musce::schema::LocalId::new("x").unwrap()));
    assert_eq!(e.to_text(), "undeclared local x");
}

#[test]
fn grounding_errors_list_missing_inputs() {
    let e = GroundingError::MissingInputs(vec![pid("a"), pid("b"), pid("c")]);
    assert_eq!(e.to_text(), "grounding is missing inputs a, b, c");
    let e = GroundingError::MissingInputs(vec![pid("only")]);
    assert_eq!(e.to_text(), "grounding is missing inputs only");
    let e = GroundingError::DeadEntity { parameter: pid("item"), entity: EntityId(9) };
    assert_eq!(e.to_text(), "input item names dead entity EntityId(9)");
}

#[test]
fn name_and_registration_errors_quote_the_offending_text() {
    let e = ParameterId::new("two words").unwrap_err();
    assert_eq!(
        e.to_text(),
        "invalid parameter id \"two words\": names must be nonempty and contain no whitespace or control characters"
    );
    let e = StateRegistrationError::IdCollision {
        kind: "relation".into(),
        id: "focus".into(),
        existing: "Focus".into(),
        attempted: "Other".into(),
    };
    assert_eq!(e.to_text(), "relation id \"focus\" is already bound to Focus, not Other");
    let e = StateRegistrationError::InvalidGauge { gauge: "say \"hi\"".into(), reason: "no regions".into() };
    assert_eq!(e.to_text(), "invalid gauge \"say \\\"hi\\\"\": no regions");
}

#[test]
fn load_and_focus_errors_name_entities() {
    let e = LoadError::RelationCycle { kind: "contained_by".into(), cycle: vec![EntityId(1), EntityId(2)] };
    assert_eq!(e.to_text(), "relation contained_by contains cycle [EntityId(1), EntityId(2)]");
    let e = LoadError::DanglingRelation { kind: "focus".into(), source: EntityId(3), target: EntityId(4) };
    assert_eq!(e.to_text(), "relation focus from EntityId(3) points to missing target EntityId(4)");
    assert_eq!(FocusError::NotControlled.to_text(), "target is not in the controller's control chain");
    let inner = RelationError::NoSuchEntity { kind: "focus".into(), role: RelationRole::Source, entity: EntityId(5) };
    assert_eq!(FocusError::Relation(inner).to_text(), "relation focus has no source entity EntityId(5)");
}

#[test]
fn account_errors_name_the_account_and_capability() {
    let e = AuthError::UnknownGrant { account: AccountId(7), name: "fly".into() };
    assert_eq!(e.to_text(), "account AccountId(7) grants unknown capability \"fly\"");
    assert_eq!(AuthError::NoSuperuser.to_text(), "account store has accounts but no superuser");
    assert_eq!(AccountError::NoSuchAccount(AccountId(3)).to_text(), "no such account AccountId(3)");
    assert_eq!(AccountError::UnknownCap("x".into()).to_text(), "no such capability \"x\"");
    assert_eq!(
        StoreError::SchemaVersion { stored: 9, current: 2 }.to_text(),
        "account store schema version 9 is unknown to this build (current 2)"
    );
}

#[test]
fn index_errors_quote_the_name_and_tag() {
    use_index_errors();
}

fn use_index_errors() {
    let e = musce::indexes::IndexLookupError::UnknownName { name: "missing".into() };
    assert_eq!(e.to_text(), "unknown index \"missing\"");
    let e = musce::indexes::IndexLookupError::WrongKeyType {
        name: "cell".into(),
        requested_type: "String".into(),
        registered_type: "i64".into(),
    };
    assert_eq!(e.to_text(), "index \"cell\" uses key type i64, not requested type String");
    let e = musce::indexes::IndexBuildError::UnregisteredSource { tag: "cell".into() };
    assert_eq!(e.to_text(), "index source component \"cell\" is not registered in the world");
}
