use musce::audience::{resolve, Actors, ConnectionId, Delivery, Event, EventKind, Outbound};
use musce::id::EntityId;
use musce::structure::Structure;

fn collect(world: &Structure, actors: &Actors, out: Outbound) -> Vec<Delivery> {
    resolve(world, actors, out)
}

fn player(w: &mut Structure) -> EntityId {
    w.spawn(None, false)
}

fn room_with(w: &mut Structure, n: usize) -> (EntityId, Vec<EntityId>) {
    let locus = w.spawn(None, true);
    let mut ps = Vec::new();
    for _ in 0..n {
        let p = player(w);
        w.relate_tag(p, locus, "contained_by").unwrap();
        ps.push(p);
    }
    (locus, ps)
}

#[test]
fn locus_event_reaches_every_connected_actor() {
    let mut w = Structure::new();
    let (locus, ps) = room_with(&mut w, 2);
    let (alice, bob) = (ps[0], ps[1]);

    let mut actors = Actors::new();
    actors.bind(ConnectionId(1), alice);
    actors.bind(ConnectionId(2), bob);

    let out = Outbound::new(Event::to_locus(locus, EventKind::Narration, "a bell rings"));
    let events = collect(&w, &actors, out);

    assert_eq!(events.len(), 2);
    let conns: Vec<ConnectionId> = events.iter().map(|d| d.to).collect();
    assert!(conns.contains(&ConnectionId(1)));
    assert!(conns.contains(&ConnectionId(2)));
    assert!(events.iter().all(|d| d.text == "a bell rings" && d.kind == EventKind::Narration));
}

#[test]
fn exclude_drops_the_actor() {
    let mut w = Structure::new();
    let (locus, ps) = room_with(&mut w, 2);
    let (alice, bob) = (ps[0], ps[1]);

    let mut actors = Actors::new();
    actors.bind(ConnectionId(1), alice);
    actors.bind(ConnectionId(2), bob);

    let out = Outbound::excluding(Event::to_locus(locus, EventKind::Narration, "Alice waves"), vec![alice]);
    let events = collect(&w, &actors, out);

    assert_eq!(events.len(), 1);
    assert_eq!(events[0].to, ConnectionId(2));
}

#[test]
fn exclude_drops_a_set() {
    let mut w = Structure::new();
    let (locus, ps) = room_with(&mut w, 3);
    let (alice, bob) = (ps[0], ps[1]);

    let mut actors = Actors::new();
    actors.bind(ConnectionId(1), alice);
    actors.bind(ConnectionId(2), bob);
    actors.bind(ConnectionId(3), ps[2]);

    let out = Outbound::excluding(Event::to_locus(locus, EventKind::Narration, "Alice waves at Bob"), vec![alice, bob]);
    let events = collect(&w, &actors, out);

    assert_eq!(events.len(), 1);
    assert_eq!(events[0].to, ConnectionId(3));
}

#[test]
fn entity_and_connection_audiences() {
    let mut w = Structure::new();
    let (_locus, ps) = room_with(&mut w, 2);
    let mut actors = Actors::new();
    actors.bind(ConnectionId(1), ps[0]);
    actors.bind(ConnectionId(2), ps[0]);
    actors.bind(ConnectionId(3), ps[1]);

    let mut to_first: Vec<ConnectionId> =
        collect(&w, &actors, Outbound::new(Event::to_entity(ps[0], EventKind::Feedback, "hi"))).iter().map(|d| d.to).collect();
    to_first.sort_by_key(|c| c.0);
    assert_eq!(to_first, vec![ConnectionId(1), ConnectionId(2)]);

    let direct = collect(&w, &actors, Outbound::new(Event::to_connection(ConnectionId(9), EventKind::System, "notice")));
    assert_eq!(direct, vec![Delivery { to: ConnectionId(9), kind: EventKind::System, text: "notice".to_string() }]);

    // Rebinding a connection moves it to the new actor.
    actors.bind(ConnectionId(2), ps[1]);
    let to_first = collect(&w, &actors, Outbound::new(Event::to_entity(ps[0], EventKind::Feedback, "hi")));
    assert_eq!(to_first.len(), 1);
    assert_eq!(to_first[0].to, ConnectionId(1));
}
