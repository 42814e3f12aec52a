use voxel_dag::garbagetracker::{ReferenceTracker, ReferenceStatus};

#[test]
fn tracker_counts_references() {
    let mut tracker = ReferenceTracker::new(false);
    assert_eq!(tracker.get_status(), ReferenceStatus::Zero);
    assert_eq!(tracker.modify_ref(2), Ok(ReferenceStatus::Fine(2)));
    assert_eq!(tracker.modify_ref(-1), Ok(ReferenceStatus::Fine(1)));
    assert_eq!(tracker.get_status(), ReferenceStatus::Fine(1));
    assert_eq!(tracker.modify_ref(-2), Err("Attempted to remove more references than instance has."));
    assert_eq!(tracker.get_status(), ReferenceStatus::Fine(1));
    assert_eq!(tracker.modify_ref(-1), Ok(ReferenceStatus::Zero));
    assert_eq!(tracker.get_status(), ReferenceStatus::Zero);
}

#[test]
fn tracker_adding_nothing_reports_fine() {
    let mut tracker = ReferenceTracker::new(false);
    assert_eq!(tracker.modify_ref(0), Ok(ReferenceStatus::Fine(0)));
}

#[test]
fn protected_tracker_ignores_changes() {
    let mut tracker = ReferenceTracker::new(true);
    assert_eq!(tracker.modify_ref(5), Ok(ReferenceStatus::Protected));
    assert_eq!(tracker.modify_ref(-5), Ok(ReferenceStatus::Protected));
    assert_eq!(tracker.modify_ref(isize::MIN), Ok(ReferenceStatus::Protected));
    assert_eq!(tracker.get_status(), ReferenceStatus::Protected);
}

#[test]
fn tracker_error_message() {
    let mut tracker = ReferenceTracker::new(false);
    assert_eq!(tracker.modify_ref(-1), Err("Attempted to remove more references than instance has."));
}
