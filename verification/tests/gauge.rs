use musce::gauge::{GaugeDirection, GaugeId, GaugeLevel, GaugeTarget};

#[test]
fn gauge_identity_is_symbolic_and_opaque() {
    let health = GaugeId::new("health".to_string());
    assert_eq!(health.as_str(), "health");
    assert_eq!(health, GaugeId::from_str("health"));
}

#[test]
fn level_preserves_the_whole_byte_space() {
    assert_eq!(GaugeLevel::min_level().get(), 0);
    assert_eq!(GaugeLevel::new(127).get(), 127);
    assert_eq!(GaugeLevel::max_level().get(), 255);
    assert!(GaugeLevel::min_level().is_min());
    assert!(GaugeLevel::max_level().is_max());
}

#[test]
fn targets_drive_toward_their_interval() {
    let target = GaugeTarget::between(GaugeLevel::new(80), GaugeLevel::new(120)).unwrap();
    assert_eq!(target.required_change(GaugeLevel::new(79)), Some(GaugeDirection::Up));
    assert!(target.contains(GaugeLevel::new(100)));
    assert_eq!(target.required_change(GaugeLevel::new(100)), None);
    assert_eq!(target.required_change(GaugeLevel::new(121)), Some(GaugeDirection::Down));
}

#[test]
fn one_sided_targets_saturate_at_the_opposite_endpoint() {
    let high = GaugeTarget::at_least(GaugeLevel::new(80));
    assert_eq!(high.required_change(GaugeLevel::new(79)), Some(GaugeDirection::Up));
    assert!(high.contains(GaugeLevel::max_level()));

    let low = GaugeTarget::at_most(GaugeLevel::new(80));
    assert_eq!(low.required_change(GaugeLevel::new(81)), Some(GaugeDirection::Down));
    assert!(low.contains(GaugeLevel::min_level()));
}

#[test]
fn reversed_interval_is_rejected() {
    assert_eq!(GaugeTarget::between(GaugeLevel::new(120), GaugeLevel::new(80)), None);
}

#[test]
fn endpoint_targets_are_singletons() {
    assert!(GaugeTarget::min_target().contains(GaugeLevel::min_level()));
    assert_eq!(GaugeTarget::min_target().required_change(GaugeLevel::new(1)), Some(GaugeDirection::Down));
    assert!(GaugeTarget::max_target().contains(GaugeLevel::max_level()));
    assert_eq!(GaugeTarget::max_target().required_change(GaugeLevel::new(254)), Some(GaugeDirection::Up));
}

#[test]
fn a_single_level_target_holds_only_that_level() {
    let at = GaugeTarget::at(GaugeLevel::new(40));
    assert!(at.contains(GaugeLevel::new(40)));
    assert!(!at.contains(GaugeLevel::new(41)));
    assert_eq!(at.min().get(), 40);
    assert_eq!(at.max().get(), 40);
    assert_eq!(at.required_change(GaugeLevel::new(39)), Some(GaugeDirection::Up));
    assert_eq!(at.required_change(GaugeLevel::new(41)), Some(GaugeDirection::Down));
}

#[test]
fn levels_and_ids_convert() {
    assert_eq!(GaugeLevel::from(7u8).get(), 7);
    assert_eq!(u8::from(GaugeLevel::new(9)), 9);
    assert_eq!(musce::gauge::GaugeId::from("hunger".to_string()).as_str(), "hunger");
}
