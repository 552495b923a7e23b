use musce::fact::{DestroyCause, Fact};
use musce::id::EntityId;
use musce::index::{Cardinality, Index};
use musce::indexes::{IndexBuildError, IndexLookupError, IndexRegistry};

const A: EntityId = EntityId(1);
const B: EntityId = EntityId(2);
const C: EntityId = EntityId(3);

fn changed(entity: EntityId, tag: &str) -> Fact {
    Fact::ComponentChanged { entity, tag: tag.to_string() }
}

fn destroyed(entity: EntityId) -> Fact {
    Fact::Destroyed { entity, last_locus: None, name: None, cause: DestroyCause::Direct }
}

fn types() -> Vec<String> {
    vec!["Cell".to_string(), "Level".to_string()]
}

fn cell_index() -> IndexRegistry {
    let mut reg = IndexRegistry::new();
    reg.register_many("cell", "cell", "Cell", "i64");
    reg
}

/// Apply a fact the way a host does: reread the key of every index over a
/// changed component, then hand the fact over.
fn apply(reg: &mut IndexRegistry, fact: &Fact, read: impl Fn(usize, EntityId) -> Option<i64>) {
    let keys: Vec<Option<i64>> = match fact {
        Fact::ComponentChanged { entity, tag } => reg.readers_of(tag).into_iter().map(|i| read(i, *entity)).collect(),
        _ => Vec::new(),
    };
    reg.apply(fact, &keys);
}

fn cell(reg: &IndexRegistry) -> &Index {
    reg.index("cell", "i64").unwrap()
}

#[test]
fn baseline_indexes_existing_entities() {
    let mut reg = cell_index();
    reg.baseline(&types(), &[vec![(A, Some(1)), (B, Some(1)), (C, Some(2))]]).unwrap();
    let idx = cell(&reg);
    assert_eq!(idx.get(1), vec![A, B]);
    assert_eq!(idx.get(2), vec![C]);
    assert!(idx.get(3).is_empty());
    assert_eq!(idx.source_tag(), "cell");
}

#[test]
fn lookup_distinguishes_unknown_name_from_wrong_key_type() {
    let reg = cell_index();
    assert_eq!(reg.index("missing", "i64").err().unwrap(), IndexLookupError::UnknownName { name: "missing".into() });
    assert_eq!(
        reg.index("cell", "String").err().unwrap(),
        IndexLookupError::WrongKeyType {
            name: "cell".into(),
            requested_type: "String".into(),
            registered_type: "i64".into(),
        }
    );
}

#[test]
fn baseline_rejects_an_unregistered_source_by_tag() {
    let mut reg = cell_index();
    assert_eq!(
        reg.baseline(&["Level".to_string()], &[vec![]]),
        Err(IndexBuildError::UnregisteredSource { tag: "cell".into() })
    );
    // Nothing was built and registration stays open.
    assert!(reg.can_register("level", "level", "Level"));
}

#[test]
fn registration_refuses_a_second_type_for_one_tag() {
    let reg = cell_index();
    assert!(!reg.can_register("alias_cell", "cell", "AliasCell"));
    assert!(reg.can_register("cell_band", "cell", "Cell"));
    assert!(!reg.can_register("cell", "level", "Level"));
}

#[test]
fn registration_closes_with_the_first_baseline() {
    let mut reg = cell_index();
    reg.baseline(&types(), &[vec![]]).unwrap();
    assert!(!reg.can_register("late_level", "level", "Level"));
}

#[test]
fn an_activated_registry_can_repeat_its_baseline() {
    let mut reg = cell_index();
    reg.baseline(&types(), &[vec![(A, Some(1))]]).unwrap();
    reg.baseline(&types(), &[vec![(A, Some(2))]]).unwrap();
    assert_eq!(cell(&reg).get(2), vec![A]);
    assert!(cell(&reg).get(1).is_empty());
}

#[test]
fn changed_moves_between_buckets() {
    let mut reg = cell_index();
    reg.baseline(&types(), &[vec![(A, Some(1))]]).unwrap();
    apply(&mut reg, &changed(A, "cell"), |_, _| Some(2));
    let idx = cell(&reg);
    assert!(idx.get(1).is_empty());
    assert_eq!(idx.get(2), vec![A]);
    assert_eq!(idx.key_of(A), Some(2));
}

#[test]
fn duplicate_triggers_are_idempotent() {
    let mut reg = cell_index();
    reg.baseline(&types(), &[vec![(A, Some(1))]]).unwrap();
    apply(&mut reg, &changed(A, "cell"), |_, _| Some(2));
    apply(&mut reg, &changed(A, "cell"), |_, _| Some(2));
    assert_eq!(cell(&reg).get(2), vec![A]);
    assert!(cell(&reg).get(1).is_empty());
}

#[test]
fn removed_component_drops_entity() {
    let mut reg = cell_index();
    reg.baseline(&types(), &[vec![(A, Some(1))]]).unwrap();
    apply(&mut reg, &changed(A, "cell"), |_, _| None);
    assert!(cell(&reg).get(1).is_empty());
    assert_eq!(cell(&reg).key_of(A), None);
}

#[test]
fn destroyed_evicts_from_index() {
    let mut reg = cell_index();
    reg.baseline(&types(), &[vec![(A, Some(1))]]).unwrap();
    apply(&mut reg, &destroyed(A), |_, _| None);
    assert!(cell(&reg).get(1).is_empty());
}

#[test]
fn change_then_destroy_same_batch_converges() {
    let mut reg = cell_index();
    reg.baseline(&types(), &[vec![(A, Some(1))]]).unwrap();
    // The entity is already gone from the world, so its reread finds no key.
    apply(&mut reg, &changed(A, "cell"), |_, _| None);
    apply(&mut reg, &destroyed(A), |_, _| None);
    assert!(cell(&reg).get(1).is_empty());
    assert_eq!(cell(&reg).key_of(A), None);
}

#[test]
fn destroy_then_change_same_batch_converges() {
    let mut reg = cell_index();
    reg.baseline(&types(), &[vec![(A, Some(1))]]).unwrap();
    apply(&mut reg, &destroyed(A), |_, _| None);
    apply(&mut reg, &changed(A, "cell"), |_, _| None);
    assert!(cell(&reg).get(1).is_empty());
    assert_eq!(cell(&reg).key_of(A), None);
}

#[test]
fn one_change_fans_out_to_every_index_over_the_component() {
    let mut reg = IndexRegistry::new();
    reg.register_many("cell_exact", "cell", "Cell", "i64");
    reg.register_many("cell_band", "cell", "Cell", "i64");
    reg.baseline(&types(), &[vec![(A, Some(1))], vec![(A, Some(0))]]).unwrap();
    // The cell becomes 25: the exact index keys it 25, the band index 25 / 10.
    apply(&mut reg, &changed(A, "cell"), |i, _| Some(if i == 0 { 25 } else { 25 / 10 }));
    assert_eq!(reg.index("cell_exact", "i64").unwrap().get(25), vec![A]);
    assert_eq!(reg.index("cell_band", "i64").unwrap().get(2), vec![A]);
}

#[test]
fn indexes_over_distinct_components_do_not_cross_react() {
    let mut reg = IndexRegistry::new();
    reg.register_many("cell", "cell", "Cell", "i64");
    reg.register_many("level", "level", "Level", "i64");
    reg.baseline(&types(), &[vec![(A, Some(1))], vec![(A, Some(7))]]).unwrap();
    assert_eq!(reg.readers_of("cell"), vec![0]);
    // A "cell" change must not disturb the "level" index.
    apply(&mut reg, &changed(A, "cell"), |_, _| Some(9));
    assert_eq!(reg.index("cell", "i64").unwrap().get(9), vec![A]);
    assert_eq!(reg.index("level", "i64").unwrap().get(7), vec![A]);
}

#[test]
fn movement_facts_leave_the_indexes_alone() {
    let mut reg = cell_index();
    reg.baseline(&types(), &[vec![(A, Some(1))]]).unwrap();
    apply(&mut reg, &Fact::Moved { entity: A, from: None, to: Some(B) }, |_, _| None);
    assert_eq!(cell(&reg).get(1), vec![A]);
}

#[test]
fn unique_conflicts_borrow_the_key_and_complete_bucket() {
    let mut reg = IndexRegistry::new();
    reg.register_unique("cell", "cell", "Cell", "i64");
    reg.baseline(&types(), &[vec![(A, Some(1)), (B, Some(1)), (C, Some(2))]]).unwrap();
    let idx = cell(&reg);
    assert_eq!(idx.cardinality(), Cardinality::Unique);
    let conflicts = idx.conflicts();
    assert_eq!(conflicts.len(), 1);
    assert_eq!(conflicts[0].0, 1);
    assert_eq!(conflicts[0].1, vec![A, B]);
}

#[test]
fn many_valued_shared_buckets_are_not_conflicts() {
    let mut reg = cell_index();
    reg.baseline(&types(), &[vec![(A, Some(1)), (B, Some(1))]]).unwrap();
    let idx = cell(&reg);
    assert_eq!(idx.cardinality(), Cardinality::Many);
    assert_eq!(idx.get(1).len(), 2);
    assert!(idx.conflicts().is_empty());
}

#[test]
fn a_moved_entity_joins_the_end_of_its_new_bucket() {
    let mut idx = Index::new(Cardinality::Many, "cell");
    idx.rebuild(&[(A, Some(1)), (B, Some(2)), (C, Some(2))]);
    idx.place(A, Some(2));
    assert_eq!(idx.get(2), vec![B, C, A]);
    // Unkeyed entities in a scan are simply absent.
    idx.rebuild(&[(A, None), (B, Some(-4))]);
    assert_eq!(idx.key_of(A), None);
    assert_eq!(idx.get(-4), vec![B]);
}
