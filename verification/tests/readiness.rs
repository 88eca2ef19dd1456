use agent_hud::readiness::{reduce_lifecycle, LifecycleEvent, LifecycleKind, Readiness};

fn event(kind: LifecycleKind, turn_id: &str) -> LifecycleEvent<'_> {
    LifecycleEvent { kind, turn_id }
}

#[test]
fn task_started_is_working() {
    assert_eq!(
        reduce_lifecycle(&[event(LifecycleKind::TaskStarted, "turn")]),
        Readiness::Working
    );
}

#[test]
fn task_complete_is_ready() {
    assert_eq!(
        reduce_lifecycle(&[
            event(LifecycleKind::TaskStarted, "turn"),
            event(LifecycleKind::TaskComplete, "turn"),
        ]),
        Readiness::Ready
    );
}

#[test]
fn newer_start_supersedes_completion() {
    assert_eq!(
        reduce_lifecycle(&[
            event(LifecycleKind::TaskStarted, "one"),
            event(LifecycleKind::TaskComplete, "one"),
            event(LifecycleKind::TaskStarted, "two"),
        ]),
        Readiness::Working
    );
}

#[test]
fn stale_completion_for_another_turn_fails_closed() {
    assert_eq!(
        reduce_lifecycle(&[
            event(LifecycleKind::TaskStarted, "one"),
            event(LifecycleKind::TaskStarted, "two"),
            event(LifecycleKind::TaskComplete, "one"),
        ]),
        Readiness::Unknown
    );
}

#[test]
fn no_lifecycle_facts_is_unknown() {
    assert_eq!(reduce_lifecycle(&[]), Readiness::Unknown);
}

#[test]
fn completion_of_the_active_turn_after_a_stale_one_is_ready() {
    assert_eq!(
        reduce_lifecycle(&[
            event(LifecycleKind::TaskStarted, "one"),
            event(LifecycleKind::TaskStarted, "two"),
            event(LifecycleKind::TaskComplete, "one"),
            event(LifecycleKind::TaskComplete, "two"),
        ]),
        Readiness::Ready
    );
}

#[test]
fn completion_without_start_is_unknown() {
    assert_eq!(
        reduce_lifecycle(&[event(LifecycleKind::TaskComplete, "turn")]),
        Readiness::Unknown
    );
}

#[test]
fn readiness_labels_are_stable() {
    assert_eq!(Readiness::Working.as_str(), "WORKING");
    assert_eq!(Readiness::Ready.as_str(), "READY");
    assert_eq!(Readiness::Unknown.as_str(), "UNKNOWN");
}
