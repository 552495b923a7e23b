use musce::registry::CapRegistry;

#[test]
fn register_is_idempotent_and_ids_are_distinct() {
    let mut reg = CapRegistry::new();
    let build = reg.register("build");
    assert_eq!(reg.register("build"), build, "same name, same id");

    let teleport = reg.register("teleport");
    assert_ne!(build, teleport, "distinct names get distinct ids");
    assert_eq!(reg.len(), 2, "the repeat did not mint a third id");
}

#[test]
fn resolve_reports_unknown_names() {
    let mut reg = CapRegistry::new();
    let build = reg.register("build");
    assert_eq!(reg.resolve("build"), Some(build));
    assert_eq!(reg.resolve("nonesuch"), None);
}

#[test]
fn resolve_set_separates_the_unknown_from_the_resolved() {
    let mut reg = CapRegistry::new();
    let build = reg.register("build");
    let teleport = reg.register("teleport");

    let grants = vec!["build".to_string(), "ghost".to_string(), "teleport".to_string()];
    let (set, unknown) = reg.resolve_set(&grants);

    assert!(set.contains(build));
    assert!(set.contains(teleport));
    assert_eq!(set.len(), 2);
    assert_eq!(unknown, ["ghost".to_string()]);
}

#[test]
fn resolve_set_of_all_known_names_reports_nothing_unknown() {
    let mut reg = CapRegistry::new();
    reg.register("build");
    let (set, unknown) = reg.resolve_set(&vec!["build".to_string()]);
    assert_eq!(set.len(), 1);
    assert!(unknown.is_empty());
}

#[test]
fn ids_are_registration_positions() {
    let mut reg = CapRegistry::new();
    assert!(reg.is_empty());
    let a = reg.register("a");
    let b = reg.register("b");
    assert_eq!(a.0, 0);
    assert_eq!(b.0, 1);
}
