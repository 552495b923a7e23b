use musce::fact::{move_entity, movement_facts, DestroyCause, Fact};
use musce::id::EntityId;
use musce::relation::{enclosing_locus, Containment, RelationError, RelationGraph, RelationRole};
use musce::walk::Walk;

fn ids(n: u64) -> Vec<EntityId> {
    (1..=n).map(EntityId).collect()
}

fn sorted(mut v: Vec<EntityId>) -> Vec<EntityId> {
    v.sort_by_key(|e| e.0);
    v
}

fn visited(v: &[(EntityId, Walk)]) -> Vec<EntityId> {
    sorted(v.iter().map(|(e, _)| *e).collect())
}

#[test]
fn containment_basic() {
    let live = ids(2);
    let (hall, sword) = (EntityId(1), EntityId(2));
    let mut g = RelationGraph::new(Containment::kind());
    move_entity(&mut g, &live, &[hall], sword, hall).unwrap();
    assert_eq!(g.target_of(sword), Some(hall));
    assert_eq!(g.sources_of(hall), vec![sword]);
}

#[test]
fn enclosing_locus_walks_up() {
    let live = ids(3);
    let (hall, bag, coin) = (EntityId(1), EntityId(2), EntityId(3));
    let loci = [hall];
    let mut g = RelationGraph::new(Containment::kind());
    move_entity(&mut g, &live, &loci, bag, hall).unwrap();
    move_entity(&mut g, &live, &loci, coin, bag).unwrap();
    assert_eq!(g.target_of(coin), Some(bag));
    assert_eq!(enclosing_locus(&g, &loci, coin), Some(hall));
}

#[test]
fn ancestors_stream_immediate_first_and_can_stop_early_or_collect() {
    let live = ids(4);
    let (root, middle, leaf, detached) = (EntityId(1), EntityId(2), EntityId(3), EntityId(4));
    let mut g = RelationGraph::new(Containment::kind());
    move_entity(&mut g, &live, &[], middle, root).unwrap();
    move_entity(&mut g, &live, &[], leaf, middle).unwrap();
    assert_eq!(g.ancestors(leaf), [middle, root]);
    assert_eq!(g.ancestors(leaf).first().copied(), Some(middle));
    assert_eq!(g.ancestors(detached).first().copied(), None);
}

#[test]
fn moving_reparents() {
    let live = ids(3);
    let (hall, chest, gem) = (EntityId(1), EntityId(2), EntityId(3));
    let mut g = RelationGraph::new(Containment::kind());
    move_entity(&mut g, &live, &[hall], gem, hall).unwrap();
    move_entity(&mut g, &live, &[hall], gem, chest).unwrap();
    assert_eq!(g.target_of(gem), Some(chest));
    assert!(g.sources_of(hall).is_empty());
    assert_eq!(g.sources_of(chest), vec![gem]);
}

#[test]
fn descendant_walk_descends_prunes_and_stops() {
    let live = ids(4);
    let (hall, bag, coin, pebble) = (EntityId(1), EntityId(2), EntityId(3), EntityId(4));
    let mut g = RelationGraph::new(Containment::kind());
    move_entity(&mut g, &live, &[hall], bag, hall).unwrap();
    move_entity(&mut g, &live, &[hall], coin, bag).unwrap();
    move_entity(&mut g, &live, &[hall], pebble, hall).unwrap();

    let all = g.walk_descendants(hall, |_| Walk::Descend);
    assert_eq!(visited(&all), sorted(vec![bag, coin, pebble]));

    let pruned = g.walk_descendants(hall, |entity| if entity == bag { Walk::Prune } else { Walk::Descend });
    assert_eq!(visited(&pruned), sorted(vec![bag, pebble]));

    let stopped = g.walk_descendants(hall, |_| Walk::Stop);
    assert_eq!(stopped.len(), 1);
}

#[test]
fn cycles_rejected() {
    let live = ids(2);
    let (a, b) = (EntityId(1), EntityId(2));
    let mut g = RelationGraph::new(Containment::kind());
    move_entity(&mut g, &live, &[], b, a).unwrap();
    assert!(matches!(move_entity(&mut g, &live, &[], a, b), Err(RelationError::Cycle { .. })));
    assert!(matches!(move_entity(&mut g, &live, &[], a, a), Err(RelationError::Cycle { .. })));
}

#[test]
fn move_within_a_locus_emits_moved_but_not_locus_changed() {
    let live = ids(3);
    let (hall, bag, coin) = (EntityId(1), EntityId(2), EntityId(3));
    let loci = [hall];
    let mut g = RelationGraph::new(Containment::kind());
    move_entity(&mut g, &live, &loci, bag, hall).unwrap();
    move_entity(&mut g, &live, &loci, coin, hall).unwrap();

    let facts = move_entity(&mut g, &live, &loci, coin, bag).unwrap();
    assert_eq!(facts.len(), 1, "same-locus reparent is Moved only: {facts:?}");
    assert!(matches!(
        facts[0],
        Fact::Moved { entity, from: Some(f), to: Some(t) } if entity == coin && f == hall && t == bag
    ));
}

#[test]
fn move_across_loci_emits_moved_and_locus_changed() {
    let live = ids(3);
    let (hall, garden, mover) = (EntityId(1), EntityId(2), EntityId(3));
    let loci = [hall, garden];
    let mut g = RelationGraph::new(Containment::kind());
    move_entity(&mut g, &live, &loci, mover, hall).unwrap();

    let facts = move_entity(&mut g, &live, &loci, mover, garden).unwrap();
    assert_eq!(facts.len(), 2, "Moved + LocusChanged: {facts:?}");
    assert!(matches!(
        facts[0],
        Fact::Moved { entity, from: Some(f), to: Some(t) } if entity == mover && f == hall && t == garden
    ));
    assert!(matches!(
        facts[1],
        Fact::LocusChanged { entity, from: Some(f), to: Some(t) } if entity == mover && f == hall && t == garden
    ));
}

#[test]
fn a_carried_subtree_emits_no_movement_facts_of_its_own() {
    let live = ids(4);
    let (hall, garden, character, coin) = (EntityId(1), EntityId(2), EntityId(3), EntityId(4));
    let loci = [hall, garden];
    let mut g = RelationGraph::new(Containment::kind());
    move_entity(&mut g, &live, &loci, character, hall).unwrap();
    move_entity(&mut g, &live, &loci, coin, character).unwrap();

    let facts = move_entity(&mut g, &live, &loci, character, garden).unwrap();
    assert_eq!(facts.len(), 2, "only the character's facts: {facts:?}");
    assert!(facts.iter().all(|f| match f {
        Fact::Moved { entity, .. } | Fact::LocusChanged { entity, .. } => *entity == character,
        _ => false,
    }));
    assert_eq!(enclosing_locus(&g, &loci, coin), Some(garden));
}

#[test]
fn a_first_placement_reports_the_arrival() {
    let live = ids(2);
    let (hall, coin) = (EntityId(1), EntityId(2));
    let mut g = RelationGraph::new(Containment::kind());
    let facts = move_entity(&mut g, &live, &[hall], coin, hall).unwrap();
    assert_eq!(
        facts,
        vec![
            Fact::Moved { entity: coin, from: None, to: Some(hall) },
            Fact::LocusChanged { entity: coin, from: None, to: Some(hall) },
        ]
    );
    // Moving into the same container again changes nothing and reports nothing.
    assert!(move_entity(&mut g, &live, &[hall], coin, hall).unwrap().is_empty());
}

#[test]
fn movement_facts_skip_locus_change_when_the_locus_holds() {
    let e = EntityId(5);
    let r = EntityId(1);
    assert_eq!(
        movement_facts(e, None, Some(r), Some(r), Some(r)),
        vec![Fact::Moved { entity: e, from: None, to: Some(r) }]
    );
    assert_eq!(movement_facts(e, Some(r), None, Some(r), None).len(), 2);
}

#[test]
fn relation_errors_retain_kind_endpoint_role_and_cycle_edge() {
    let live_ids = ids(1);
    let live = EntityId(1);
    let missing = EntityId(99_999);
    let tag = Containment::kind().tag().to_string();
    let mut g = RelationGraph::new(Containment::kind());

    let source_error = move_entity(&mut g, &live_ids, &[], missing, live).unwrap_err();
    assert!(matches!(
        &source_error,
        RelationError::NoSuchEntity { kind, role: RelationRole::Source, entity } if *kind == tag && *entity == missing
    ));
    assert!(source_error.to_text().contains("source"));

    let target_error = move_entity(&mut g, &live_ids, &[], live, missing).unwrap_err();
    assert!(matches!(
        &target_error,
        RelationError::NoSuchEntity { kind, role: RelationRole::Target, entity } if *kind == tag && *entity == missing
    ));
    assert!(target_error.to_text().contains("target"));

    let cycle_error = move_entity(&mut g, &live_ids, &[], live, live).unwrap_err();
    assert!(matches!(
        &cycle_error,
        RelationError::Cycle { kind, source, target } if *kind == tag && *source == live && *target == live
    ));
    let display = cycle_error.to_text();
    assert!(display.contains(&tag));
    assert!(display.contains(&format!("{live:?}")));
}

#[test]
fn relation_error_messages_read_in_full() {
    let e = RelationError::NoSuchEntity { kind: "contained_by".into(), role: RelationRole::Target, entity: EntityId(42) };
    assert_eq!(e.to_text(), "relation contained_by has no target entity EntityId(42)");
    let c = RelationError::Cycle { kind: "contained_by".into(), source: EntityId(1), target: EntityId(20) };
    assert_eq!(c.to_text(), "relation contained_by from EntityId(1) to EntityId(20) would create a cycle");
    assert_eq!(RelationError::UnknownKind("x".into()).to_text(), "unknown relation kind: x");
}
