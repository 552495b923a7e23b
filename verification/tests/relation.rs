use musce::control::{control_root, set_focus, FocusError};
use musce::id::EntityId;
use musce::relation::{
    check_load_identities, enclosing_locus, Cascade, Containment, Controls, Focus, LeadsFrom, LeadsTo, LoadError, RelationError,
    RelationGraph, RelationRole,
};

fn ids(n: u64) -> Vec<EntityId> {
    (1..=n).map(EntityId).collect()
}

fn sorted(mut v: Vec<EntityId>) -> Vec<EntityId> {
    v.sort_by_key(|e| e.0);
    v
}

#[test]
fn relate_points_a_source_at_its_target_and_indexes_the_reverse() {
    let live = ids(3);
    let mut g = RelationGraph::new(Containment::kind());
    g.relate(&live, EntityId(2), EntityId(1)).unwrap();
    g.relate(&live, EntityId(3), EntityId(1)).unwrap();
    assert_eq!(g.target_of(EntityId(2)), Some(EntityId(1)));
    assert_eq!(sorted(g.sources_of(EntityId(1))), vec![EntityId(2), EntityId(3)]);
    // Re-pointing replaces the old link on both sides.
    g.relate(&live, EntityId(3), EntityId(2)).unwrap();
    assert_eq!(g.sources_of(EntityId(1)), vec![EntityId(2)]);
    assert_eq!(g.sources_of(EntityId(2)), vec![EntityId(3)]);
}

#[test]
fn move_cycle_is_refused() {
    let live = ids(2);
    let mut g = RelationGraph::new(Containment::kind());
    g.relate(&live, EntityId(2), EntityId(1)).unwrap();
    assert_eq!(
        g.relate(&live, EntityId(1), EntityId(2)),
        Err(RelationError::Cycle { kind: "contained_by".into(), source: EntityId(1), target: EntityId(2) })
    );
    // Nothing changed, and a self-link is a cycle too.
    assert_eq!(g.target_of(EntityId(1)), None);
    assert!(matches!(g.relate(&live, EntityId(1), EntityId(1)), Err(RelationError::Cycle { .. })));
}

#[test]
fn move_missing_entity_is_refused() {
    let live = ids(2);
    let mut g = RelationGraph::new(Containment::kind());
    assert_eq!(
        g.relate(&live, EntityId(9999), EntityId(1)),
        Err(RelationError::NoSuchEntity { kind: "contained_by".into(), role: RelationRole::Source, entity: EntityId(9999) })
    );
    assert_eq!(
        g.relate(&live, EntityId(1), EntityId(9999)),
        Err(RelationError::NoSuchEntity { kind: "contained_by".into(), role: RelationRole::Target, entity: EntityId(9999) })
    );
}

#[test]
fn a_cyclic_kind_may_loop() {
    let live = ids(2);
    let mut g = RelationGraph::new(LeadsTo::kind());
    g.relate(&live, EntityId(1), EntityId(2)).unwrap();
    g.relate(&live, EntityId(2), EntityId(1)).unwrap();
    assert_eq!(g.target_of(EntityId(2)), Some(EntityId(1)));
}

#[test]
fn ancestors_walk_nearest_first_to_the_root() {
    let live = ids(4);
    let mut g = RelationGraph::new(Containment::kind());
    g.relate(&live, EntityId(4), EntityId(3)).unwrap();
    g.relate(&live, EntityId(3), EntityId(2)).unwrap();
    g.relate(&live, EntityId(2), EntityId(1)).unwrap();
    assert_eq!(g.ancestors(EntityId(4)), vec![EntityId(3), EntityId(2), EntityId(1)]);
    assert!(g.ancestors(EntityId(1)).is_empty());
}

#[test]
fn destroy_reparents_contents_to_the_dying_container() {
    let live = ids(4);
    let mut g = RelationGraph::new(Containment::kind());
    // room 1 holds bag 2, which holds coins 3 and 4.
    g.relate(&live, EntityId(2), EntityId(1)).unwrap();
    g.relate(&live, EntityId(3), EntityId(2)).unwrap();
    g.relate(&live, EntityId(4), EntityId(2)).unwrap();
    assert!(g.despawn(EntityId(2)).is_empty());
    assert_eq!(g.target_of(EntityId(2)), None);
    assert_eq!(g.target_of(EntityId(3)), Some(EntityId(1)));
    assert_eq!(sorted(g.sources_of(EntityId(1))), vec![EntityId(3), EntityId(4)]);
    // A root's contents become roots.
    assert!(g.despawn(EntityId(1)).is_empty());
    assert_eq!(g.target_of(EntityId(3)), None);
}

#[test]
fn controller_death_detaches_controlled() {
    let live = ids(2);
    let character = EntityId(1);
    let robot = EntityId(2);
    let mut controls = RelationGraph::new(Controls::kind());
    controls.relate(&live, robot, character).unwrap();
    assert!(controls.despawn(character).is_empty());
    assert_eq!(controls.target_of(robot), None);
}

#[test]
fn destroying_a_room_takes_its_incoming_and_outgoing_exits() {
    let hall = EntityId(1);
    let garden = EntityId(2);
    let out = EntityId(3);
    let back = EntityId(4);
    let live = vec![hall, garden, out, back];
    let mut from = RelationGraph::new(LeadsFrom::kind());
    let mut to = RelationGraph::new(LeadsTo::kind());
    from.relate(&live, out, hall).unwrap();
    to.relate(&live, out, garden).unwrap();
    from.relate(&live, back, garden).unwrap();
    to.relate(&live, back, hall).unwrap();

    let mut doomed = from.despawn(hall);
    doomed.extend(to.despawn(hall));
    assert_eq!(sorted(doomed.clone()), vec![out, back]);
    for exit in doomed {
        from.despawn(exit);
        to.despawn(exit);
    }
    assert!(from.sources_of(garden).is_empty());
    assert!(to.sources_of(garden).is_empty());
}

#[test]
fn unrelate_clears_only_that_link() {
    let live = ids(3);
    let mut g = RelationGraph::new(Containment::kind());
    g.relate(&live, EntityId(2), EntityId(1)).unwrap();
    g.relate(&live, EntityId(3), EntityId(1)).unwrap();
    g.unrelate(EntityId(2));
    g.unrelate(EntityId(2));
    assert_eq!(g.target_of(EntityId(2)), None);
    assert_eq!(g.sources_of(EntityId(1)), vec![EntityId(3)]);
}

#[test]
fn load_rejects_dangling_links_and_cycles() {
    let live = ids(3);
    let dangling = RelationGraph::load(Containment::kind(), vec![(EntityId(1), EntityId(2)), (EntityId(3), EntityId(9))], &live);
    assert!(matches!(
        dangling,
        Err(LoadError::DanglingRelation { source: EntityId(3), target: EntityId(9), .. })
    ));

    let cyclic = RelationGraph::load(
        Containment::kind(),
        vec![(EntityId(1), EntityId(2)), (EntityId(2), EntityId(3)), (EntityId(3), EntityId(2))],
        &live,
    );
    match cyclic {
        Err(LoadError::RelationCycle { kind, cycle }) => {
            assert_eq!(kind, "contained_by");
            assert_eq!(cycle, vec![EntityId(2), EntityId(3)]);
        }
        other => panic!("expected a cycle, got {other:?}"),
    }

    // A kind that may loop loads the same links.
    let looping = RelationGraph::load(
        LeadsTo::kind(),
        vec![(EntityId(1), EntityId(2)), (EntityId(2), EntityId(3)), (EntityId(3), EntityId(2))],
        &live,
    )
    .unwrap();
    assert_eq!(looping.target_of(EntityId(3)), Some(EntityId(2)));

    let tree = RelationGraph::load(Containment::kind(), vec![(EntityId(2), EntityId(1)), (EntityId(3), EntityId(2))], &live).unwrap();
    assert_eq!(tree.ancestors(EntityId(3)), vec![EntityId(2), EntityId(1)]);
}

#[test]
fn enclosing_locus_is_the_nearest_marked_container() {
    let live = ids(4);
    let mut g = RelationGraph::new(Containment::kind());
    // world 1 (a locus) > room 2 (a locus) > bag 3 > coin 4
    g.relate(&live, EntityId(2), EntityId(1)).unwrap();
    g.relate(&live, EntityId(3), EntityId(2)).unwrap();
    g.relate(&live, EntityId(4), EntityId(3)).unwrap();
    let loci = vec![EntityId(1), EntityId(2)];
    assert_eq!(enclosing_locus(&g, &loci, EntityId(4)), Some(EntityId(2)));
    assert_eq!(enclosing_locus(&g, &loci, EntityId(2)), Some(EntityId(1)));
    assert_eq!(enclosing_locus(&g, &loci, EntityId(1)), None);
}

#[test]
fn kinds_carry_their_fixed_behavior() {
    assert_eq!(Containment::kind().on_target_despawn(), Cascade::Reparent);
    assert!(Containment::kind().emits_movement());
    assert_eq!(Controls::kind().tag(), "controlled_by");
    assert_eq!(Focus::kind().on_target_despawn(), Cascade::Detach);
    assert!(!LeadsFrom::kind().acyclic());
    assert_eq!(LeadsTo::kind().on_target_despawn(), Cascade::DespawnSources);
}

#[test]
fn focus_set_and_clear() {
    let live = ids(2);
    let character = EntityId(1);
    let robot = EntityId(2);
    let mut controls = RelationGraph::new(Controls::kind());
    let mut focus = RelationGraph::new(Focus::kind());
    controls.relate(&live, robot, character).unwrap();

    assert_eq!(focus.target_of(character), None);
    set_focus(&controls, &mut focus, &live, character, robot).unwrap();
    assert_eq!(focus.target_of(character), Some(robot));
    focus.unrelate(character);
    assert_eq!(focus.target_of(character), None);
}

#[test]
fn set_focus_rejects_an_uncontrolled_target() {
    let live = ids(2);
    let character = EntityId(1);
    let stranger = EntityId(2);
    let controls = RelationGraph::new(Controls::kind());
    let mut focus = RelationGraph::new(Focus::kind());
    assert_eq!(set_focus(&controls, &mut focus, &live, character, stranger), Err(FocusError::NotControlled));
    assert_eq!(focus.target_of(character), None);
    assert_eq!(set_focus(&controls, &mut focus, &live, character, character), Err(FocusError::NotControlled));
}

#[test]
fn control_root_walks_to_the_top() {
    let live = ids(3);
    let character = EntityId(1);
    let mech = EntityId(2);
    let drone = EntityId(3);
    let mut controls = RelationGraph::new(Controls::kind());
    controls.relate(&live, mech, character).unwrap();
    controls.relate(&live, drone, mech).unwrap();
    assert_eq!(control_root(&controls, drone), character);
    assert_eq!(control_root(&controls, mech), character);
    assert_eq!(control_root(&controls, character), character);
}

#[test]
fn despawning_puppet_resets_focus() {
    let live = ids(2);
    let character = EntityId(1);
    let robot = EntityId(2);
    let mut controls = RelationGraph::new(Controls::kind());
    let mut focus = RelationGraph::new(Focus::kind());
    controls.relate(&live, robot, character).unwrap();
    set_focus(&controls, &mut focus, &live, character, robot).unwrap();
    assert_eq!(focus.target_of(character), Some(robot));

    focus.despawn(robot);
    controls.despawn(robot);
    assert_eq!(focus.target_of(character), None);
}

#[test]
fn focus_on_a_dead_target_is_a_relation_error() {
    let character = EntityId(1);
    let robot = EntityId(2);
    let mut controls = RelationGraph::new(Controls::kind());
    let mut focus = RelationGraph::new(Focus::kind());
    controls.relate(&[character, robot], robot, character).unwrap();
    assert!(matches!(
        set_focus(&controls, &mut focus, &[character], character, robot),
        Err(FocusError::Relation(RelationError::NoSuchEntity { role: RelationRole::Target, .. }))
    ));
}

#[test]
fn load_identities_resume_past_the_highest_id() {
    let ids = [EntityId(3), EntityId(7), EntityId(5)];
    let comps = [Some(EntityId(3)), Some(EntityId(7)), Some(EntityId(5))];
    assert_eq!(check_load_identities(&ids, &comps, 2), Ok(8));
    assert_eq!(check_load_identities(&ids, &comps, 20), Ok(20));
    assert_eq!(check_load_identities(&[], &[], 0), Ok(1));
    assert_eq!(check_load_identities(&[], &[], 9), Ok(9));
}

#[test]
fn load_identities_refuse_the_first_faulty_blob() {
    let ids = [EntityId(3), EntityId(4), EntityId(3), EntityId(6)];
    let comps = [Some(EntityId(3)), Some(EntityId(4)), Some(EntityId(3)), None];
    assert_eq!(check_load_identities(&ids, &comps, 1), Err(LoadError::DuplicateEntity(EntityId(3))));

    let ids = [EntityId(3), EntityId(4)];
    let comps = [Some(EntityId(3)), Some(EntityId(9))];
    assert_eq!(
        check_load_identities(&ids, &comps, 1),
        Err(LoadError::IdMismatch { blob_id: EntityId(4), component_id: Some(EntityId(9)) })
    );
    let comps = [None, Some(EntityId(4))];
    let refused = check_load_identities(&ids, &comps, 1);
    assert_eq!(refused, Err(LoadError::IdMismatch { blob_id: EntityId(3), component_id: None }));
    assert_eq!(refused.unwrap_err().to_text(), "blob id EntityId(3) disagrees with Id component None");
}

#[test]
fn load_identities_refuse_an_exhausted_id_space() {
    let ids = [EntityId(1), EntityId(u64::MAX)];
    let comps = [Some(EntityId(1)), Some(EntityId(u64::MAX))];
    let refused = check_load_identities(&ids, &comps, 1);
    assert_eq!(refused, Err(LoadError::IdSpaceExhausted { highest_id: EntityId(u64::MAX) }));
    assert_eq!(
        refused.unwrap_err().to_text(),
        "loaded entity id EntityId(18446744073709551615) leaves no successor for identity allocation"
    );
}
