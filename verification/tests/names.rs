use musce::id::EntityId;
use musce::names::{resolve, scope_container, Scope};

const ROOM: EntityId = EntityId(1);
const ACTOR: EntityId = EntityId(2);

fn described(e: u64, name: &str) -> (EntityId, Option<String>) {
    (EntityId(e), Some(name.to_string()))
}

#[test]
fn finds_item_in_room() {
    let key = EntityId(3);
    // The hall holds the actor and a brass key.
    let floor = vec![described(2, "an adventurer"), described(3, "a brass key")];
    assert_eq!(scope_container(Scope::Room, ACTOR, Some(ROOM)), Some(ROOM));
    assert_eq!(resolve(&floor, ACTOR, "brass"), Some(key));
    assert_eq!(resolve(&floor, ACTOR, "key"), Some(key));
}

#[test]
fn finds_item_in_inventory() {
    let coin = EntityId(4);
    let held = vec![described(4, "a gold coin")];
    let floor = vec![described(2, "an adventurer")];
    assert_eq!(scope_container(Scope::Inventory, ACTOR, Some(ROOM)), Some(ACTOR));
    assert_eq!(resolve(&held, ACTOR, "coin"), Some(coin));
    // Not in the room scope: it is held, not on the floor.
    assert_eq!(resolve(&floor, ACTOR, "coin"), None);
}

#[test]
fn miss_returns_none() {
    let floor = vec![described(2, "an adventurer")];
    assert_eq!(resolve(&floor, ACTOR, "dragon"), None);
}

#[test]
fn matching_ignores_case_and_surrounding_space_but_never_the_actor() {
    let floor = vec![described(2, "an adventurer"), (EntityId(5), None), described(3, "A Brass Key")];
    assert_eq!(resolve(&floor, ACTOR, "  BRASS  "), Some(EntityId(3)));
    // The actor's own description matches but the actor is skipped.
    assert_eq!(resolve(&floor, ACTOR, "adventurer"), None);
    // A blank query names nothing, even though "" occurs in every name.
    assert_eq!(resolve(&floor, ACTOR, "   "), None);
    // First match wins.
    let two = vec![described(6, "a red ball"), described(7, "a red box")];
    assert_eq!(resolve(&two, ACTOR, "red"), Some(EntityId(6)));
    // Without a room there is nothing to search.
    assert_eq!(scope_container(Scope::Room, ACTOR, None), None);
}
