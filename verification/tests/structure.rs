use musce::fact::{DestroyCause, Fact};
use musce::id::EntityId;
use musce::relation::{LeadsFrom, LeadsTo, RelationError, RelationRole};
use musce::structure::Structure;
use musce::walk::Walk;

fn locus(w: &mut Structure, name: &str) -> EntityId {
    w.spawn(Some(name.to_string()), true)
}

fn thing(w: &mut Structure, name: &str) -> EntityId {
    w.spawn(Some(name.to_string()), false)
}

fn container_of(w: &Structure, e: EntityId) -> Option<EntityId> {
    w.containment().target_of(e)
}

fn sorted(mut v: Vec<EntityId>) -> Vec<EntityId> {
    v.sort_by_key(|e| e.0);
    v
}

#[test]
fn spawned_ids_count_up_from_one() {
    let mut w = Structure::new();
    assert_eq!(w.spawn(None, false), EntityId(1));
    assert_eq!(w.spawn(None, true), EntityId(2));
    assert!(w.contains(EntityId(1)) && w.contains(EntityId(2)));
    assert!(!w.contains(EntityId(3)));
}

#[test]
fn despawn_reparents_contents() {
    let mut w = Structure::new();
    let hall = locus(&mut w, "hall");
    let bag = thing(&mut w, "bag");
    let coin = thing(&mut w, "coin");
    w.relate_tag(bag, hall, "contained_by").unwrap();
    w.relate_tag(coin, bag, "contained_by").unwrap();

    w.despawn(bag);

    assert_eq!(container_of(&w, coin), Some(hall));
    assert_eq!(w.enclosing_locus(coin), Some(hall));
    assert!(!w.contains(bag));
    assert_eq!(sorted(w.containment().sources_of(hall)), vec![coin]);
}

#[test]
fn despawn_located_named_entity_captures_locus_and_name() {
    let mut w = Structure::new();
    let hall = locus(&mut w, "hall");
    let coin = thing(&mut w, "a gold coin");
    w.relate_tag(coin, hall, "contained_by").unwrap();
    let _ = w.take_facts();

    w.despawn(coin);
    let facts = w.take_facts();

    assert_eq!(facts.len(), 1);
    let Fact::Destroyed { entity, last_locus, name, cause } = &facts[0] else {
        panic!("expected Destroyed, got {:?}", facts[0]);
    };
    assert_eq!(*entity, coin);
    assert_eq!(*last_locus, Some(hall));
    assert_eq!(name.as_deref(), Some("a gold coin"));
    assert_eq!(*cause, DestroyCause::Direct);
}

#[test]
fn despawn_unnamed_entity_has_no_name() {
    let mut w = Structure::new();
    let bare = w.spawn(None, false);

    w.despawn(bare);
    let facts = w.take_facts();

    assert_eq!(facts.len(), 1);
    let Fact::Destroyed { name, cause, .. } = &facts[0] else {
        panic!("expected Destroyed, got {:?}", facts[0]);
    };
    assert!(name.is_none(), "no Name or Description means no name");
    assert_eq!(*cause, DestroyCause::Direct);
}

#[test]
fn reparent_cascade_emits_movement_for_surviving_children() {
    let mut w = Structure::new();
    let hall = locus(&mut w, "hall");
    let bag = thing(&mut w, "bag");
    let coin = thing(&mut w, "coin");
    w.relate_tag(bag, hall, "contained_by").unwrap();
    w.relate_tag(coin, bag, "contained_by").unwrap();
    let _ = w.take_facts();

    w.despawn(bag);
    let facts = w.take_facts();

    assert!(
        facts.iter().any(|f| matches!(
            f,
            Fact::Moved { entity, from: Some(f), to: Some(t) } if *entity == coin && *f == bag && *t == hall
        )),
        "coin moved bag->hall: {facts:?}"
    );
    assert!(facts.iter().any(|f| matches!(f, Fact::Destroyed { entity, .. } if *entity == bag)));
    assert!(!facts.iter().any(|f| matches!(f, Fact::LocusChanged { .. })));
}

#[test]
fn destroying_a_room_cascades_through_the_structure() {
    let mut w = Structure::new();
    w.register_relation(LeadsFrom::kind());
    w.register_relation(LeadsTo::kind());
    let hall = locus(&mut w, "hall");
    let garden = locus(&mut w, "garden");
    let out = thing(&mut w, "north");
    w.relate_tag(out, hall, "leads_from").unwrap();
    w.relate_tag(out, garden, "leads_to").unwrap();
    let back = thing(&mut w, "south");
    w.relate_tag(back, garden, "leads_from").unwrap();
    w.relate_tag(back, hall, "leads_to").unwrap();
    let _ = w.take_facts();

    w.despawn(hall);

    assert!(!w.contains(out));
    assert!(!w.contains(back));
    assert!(w.contains(garden));
    assert!(w.relation("leads_from").unwrap().sources_of(garden).is_empty());
    assert!(w.relation("leads_to").unwrap().sources_of(garden).is_empty());
    let facts = w.take_facts();
    let cascaded: Vec<EntityId> = facts
        .iter()
        .filter_map(|f| match f {
            Fact::Destroyed { entity, cause: DestroyCause::Cascade, .. } => Some(*entity),
            _ => None,
        })
        .collect();
    assert_eq!(sorted(cascaded), vec![out, back]);
    assert!(matches!(facts.last(), Some(Fact::Destroyed { entity, cause: DestroyCause::Direct, .. }) if *entity == hall));
}

#[test]
fn a_dead_controller_lets_go_of_its_puppet_in_the_structure() {
    let mut w = Structure::new();
    let character = thing(&mut w, "a pilot");
    let robot = thing(&mut w, "a robot");
    w.relate_tag(robot, character, "controlled_by").unwrap();

    w.despawn(character);

    assert!(w.contains(robot));
    assert_eq!(w.relation("controlled_by").unwrap().target_of(robot), None);
}

#[test]
fn a_dead_puppet_clears_the_focus_in_the_structure() {
    let mut w = Structure::new();
    let character = thing(&mut w, "a pilot");
    let robot = thing(&mut w, "a robot");
    w.relate_tag(robot, character, "controlled_by").unwrap();
    w.set_focus(character, robot).unwrap();
    assert_eq!(w.focus_of(character), Some(robot));

    w.despawn(robot);

    assert!(w.contains(character));
    assert_eq!(w.focus_of(character), None);
}

#[test]
fn relate_and_unrelate_wire_a_relation_through_the_tag() {
    let mut w = Structure::new();
    let controller = thing(&mut w, "controller");
    let puppet = thing(&mut w, "puppet");
    w.relate_tag(puppet, controller, "controlled_by").unwrap();
    assert_eq!(w.relation("controlled_by").unwrap().target_of(puppet), Some(controller));
    w.unrelate_tag(puppet, "controlled_by").unwrap();
    assert_eq!(w.relation("controlled_by").unwrap().target_of(puppet), None);
    // Clearing a link that is not set is fine; a dead source is not.
    w.unrelate_tag(puppet, "controlled_by").unwrap();
    assert_eq!(
        w.unrelate_tag(EntityId(99), "controlled_by"),
        Err(RelationError::NoSuchEntity { kind: "controlled_by".into(), role: RelationRole::Source, entity: EntityId(99) })
    );
}

#[test]
fn relate_unknown_kind_is_refused() {
    let mut w = Structure::new();
    let a = thing(&mut w, "a");
    let b = thing(&mut w, "b");
    assert_eq!(w.relate_tag(a, b, "no_such_relation"), Err(RelationError::UnknownKind("no_such_relation".into())));
    assert_eq!(w.unrelate_tag(a, "no_such_relation"), Err(RelationError::UnknownKind("no_such_relation".into())));
}

#[test]
fn unrelating_a_containment_link_moves_to_the_root() {
    let mut w = Structure::new();
    let hall = locus(&mut w, "hall");
    let coin = thing(&mut w, "coin");
    w.relate_tag(coin, hall, "contained_by").unwrap();
    let _ = w.take_facts();
    w.unrelate_tag(coin, "contained_by").unwrap();
    assert_eq!(
        w.take_facts(),
        vec![
            Fact::Moved { entity: coin, from: Some(hall), to: None },
            Fact::LocusChanged { entity: coin, from: Some(hall), to: None },
        ]
    );
}

#[test]
fn a_walk_over_the_structure_reaches_every_descendant() {
    let mut w = Structure::new();
    let hall = locus(&mut w, "hall");
    let bag = thing(&mut w, "bag");
    let coin = thing(&mut w, "coin");
    w.relate_tag(bag, hall, "contained_by").unwrap();
    w.relate_tag(coin, bag, "contained_by").unwrap();
    let seen: Vec<EntityId> = w.containment().walk_descendants(hall, |_| Walk::Descend).into_iter().map(|(e, _)| e).collect();
    assert_eq!(sorted(seen), vec![bag, coin]);
}

#[test]
fn despawning_what_is_not_live_changes_nothing() {
    let mut w = Structure::new();
    let a = thing(&mut w, "a");
    w.despawn(a);
    let _ = w.take_facts();
    w.despawn(a);
    assert!(w.take_facts().is_empty());
}

#[test]
fn the_structure_steers_focus_within_the_control_chain() {
    let mut w = Structure::new();
    let character = thing(&mut w, "a pilot");
    let mech = thing(&mut w, "a mech");
    let drone = thing(&mut w, "a drone");
    let stranger = thing(&mut w, "a stranger");
    w.relate_tag(mech, character, "controlled_by").unwrap();
    w.relate_tag(drone, mech, "controlled_by").unwrap();

    assert_eq!(w.control_root(drone), character);
    assert_eq!(w.control_root(character), character);

    assert!(matches!(w.set_focus(character, stranger), Err(musce::control::FocusError::NotControlled)));
    assert!(matches!(w.set_focus(character, character), Err(musce::control::FocusError::NotControlled)));
    assert_eq!(w.focus_of(character), None);

    w.set_focus(character, drone).unwrap();
    assert_eq!(w.focus_of(character), Some(drone));
    w.clear_focus(character);
    assert_eq!(w.focus_of(character), None);
}

#[test]
fn despawn_spares_what_does_not_fall_with_it() {
    let mut w = Structure::new();
    w.register_relation(LeadsFrom::kind());
    let hall = locus(&mut w, "hall");
    let garden = locus(&mut w, "garden");
    let out = thing(&mut w, "north");
    let stray = thing(&mut w, "stone");
    let gate = thing(&mut w, "gate");
    w.relate_tag(out, hall, "leads_from").unwrap();
    w.relate_tag(gate, garden, "leads_from").unwrap();

    w.despawn(hall);

    assert!(!w.contains(out));
    assert!(w.contains(garden));
    assert!(w.contains(stray));
    assert!(w.contains(gate));
}

#[test]
fn registering_a_relation_again_changes_nothing() {
    let mut w = Structure::new();
    w.register_relation(LeadsFrom::kind());
    w.register_relation(LeadsFrom::kind());
    let hall = locus(&mut w, "hall");
    let out = thing(&mut w, "north");
    w.relate_tag(out, hall, "leads_from").unwrap();
    w.despawn(hall);
    assert!(!w.contains(out));
    assert!(w.relation("leads_from").is_some());
}
