use musce::caps::{CapSet, Gate, Verdict};
use musce::dispatch::{dispatch_command, CommandTable, Dispatch};
use musce::registry::CapRegistry;

/// Verbs stand in for app content by naming what they would say. `ping` is
/// registered first so the `p` prefix resolves to it; `petal` precedes `pet`
/// so the exact-name test has a real competing prefix.
fn table() -> CommandTable<&'static str> {
    let mut t = CommandTable::new();
    t.register("ping", Gate::Open, "pong");
    t.register("petal", Gate::Open, "petals");
    t.register("pet", Gate::Open, "purr");
    t
}

fn run(t: &CommandTable<&'static str>, verdict: &Verdict, line: &str) -> Option<(&'static str, String)> {
    match dispatch_command(t, verdict, line) {
        Dispatch::Run { verb, rest } => Some((*t.handler(verb), rest)),
        _ => None,
    }
}

#[test]
fn exact_name_beats_prefix() {
    let t = table();
    assert_eq!(run(&t, &Verdict::guest(), "pet").unwrap().0, "purr");
}

#[test]
fn prefix_resolves_in_registration_order() {
    let t = table();
    assert_eq!(run(&t, &Verdict::guest(), "p").unwrap().0, "pong");
    assert_eq!(run(&t, &Verdict::guest(), "pe").unwrap().0, "petals");
}

#[test]
fn unknown_verb_feeds_back() {
    let t = table();
    match dispatch_command(&t, &Verdict::guest(), "frobnicate") {
        Dispatch::Feedback(text) => {
            assert!(text.contains("I don't understand"));
            assert_eq!(text, "I don't understand \"frobnicate\".");
        }
        other => panic!("expected feedback, got {other:?}"),
    }
}

#[test]
fn empty_line_is_a_noop() {
    let t = table();
    assert_eq!(dispatch_command(&t, &Verdict::guest(), ""), Dispatch::Nothing);
    assert_eq!(dispatch_command(&t, &Verdict::guest(), "   "), Dispatch::Nothing);
}

#[test]
fn cap_gate_permits_only_with_the_cap() {
    let mut caps = CapRegistry::new();
    let cap = caps.register("smite");
    let mut t = CommandTable::new();
    t.register("smite", Gate::Cap(cap), "zap");

    match dispatch_command(&t, &Verdict::guest(), "smite") {
        Dispatch::Feedback(text) => assert!(text.contains("aren't allowed"), "got: {text:?}"),
        other => panic!("expected a refusal, got {other:?}"),
    }
    let granted = Verdict::new(CapSet::from_ids(vec![cap]), false);
    assert_eq!(run(&t, &granted, "smite").unwrap().0, "zap");
    let su = Verdict::new(CapSet::new(), true);
    assert_eq!(run(&t, &su, "smite").unwrap().0, "zap");
}

#[test]
fn the_argument_tail_follows_the_verb_word() {
    let t = table();
    let (said, rest) = run(&t, &Verdict::guest(), "  PET   the   cat  ").unwrap();
    assert_eq!(said, "purr");
    assert_eq!(rest, "the   cat");
    assert_eq!(run(&t, &Verdict::guest(), "ping").unwrap().1, "");
}

#[test]
fn registration_refuses_bad_names() {
    let t = table();
    assert!(!t.can_register(""));
    assert!(!t.can_register("look here"));
    assert!(!t.can_register("Look"));
    assert!(!t.can_register("ping"));
    assert!(t.can_register("look"));
    assert_eq!(t.len(), 3);
}
