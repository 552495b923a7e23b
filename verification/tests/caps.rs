use musce::caps::{CapId, CapSet, Gate, Verdict};

#[test]
fn permits_is_membership_without_su() {
    let build = CapId(0);
    let ban = CapId(1);
    let verdict = Verdict::new(CapSet::from_ids(vec![build]), false);
    assert!(verdict.permits(build), "granted cap is admitted");
    assert!(!verdict.permits(ban), "ungranted cap is refused");
    assert!(!verdict.is_su());
}

#[test]
fn su_bypasses_the_grant_set() {
    let ban = CapId(1);
    let verdict = Verdict::new(CapSet::new(), true);
    assert!(verdict.permits(ban), "su bypasses the empty grant set");
    assert!(verdict.is_su());
}

#[test]
fn guest_admits_nothing() {
    let build = CapId(0);
    let guest = Verdict::guest();
    assert!(!guest.permits(build));
    assert!(!guest.is_su());
}

#[test]
fn cap_set_insert_and_remove_report_membership() {
    let mut set = CapSet::new();
    assert!(set.is_empty());
    assert!(set.insert(CapId(3)));
    assert!(!set.insert(CapId(3)), "a repeat insert reports no change");
    assert_eq!(set.len(), 1);
    assert!(set.remove(CapId(3)));
    assert!(!set.remove(CapId(3)));
    assert!(!set.contains(CapId(3)));
    let from = CapSet::from_ids(vec![CapId(1), CapId(1), CapId(2)]);
    assert_eq!(from.len(), 2, "repeats collapse");
}

#[test]
fn gates_admit_by_verdict() {
    let build = CapId(0);
    let holder = Verdict::new(CapSet::from_ids(vec![build]), false);
    assert!(Gate::Open.permits(&Verdict::guest()));
    assert!(Gate::Cap(build).permits(&holder));
    assert!(!Gate::Cap(build).permits(&Verdict::guest()));
    assert!(Gate::Cap(CapId(9)).permits(&Verdict::new(CapSet::new(), true)));
}
