use agent_hud::metrics::{parse_timestamp_ms, SessionMetrics};
use agent_hud::model::{WorkflowEvent, WorkflowEventKind};

fn event(kind: WorkflowEventKind, timestamp: &str, summary: Option<&str>) -> WorkflowEvent {
    WorkflowEvent {
        sequence: 0,
        timestamp: Some(timestamp.into()),
        kind,
        summary: summary.map(str::to_owned),
    }
}

#[test]
fn derives_duration_only_for_matching_ordered_lifecycle_events() {
    let metrics = SessionMetrics::from_workflow_events(&[
        event(
            WorkflowEventKind::TaskStarted,
            "2026-01-01T00:00:01.125Z",
            Some("turn-1"),
        ),
        event(
            WorkflowEventKind::TaskCompleted,
            "2026-01-01T00:00:03.500Z",
            Some("turn-1"),
        ),
    ]);
    assert_eq!(
        metrics.started_at.as_deref(),
        Some("2026-01-01T00:00:01.125Z")
    );
    assert_eq!(
        metrics.ended_at.as_deref(),
        Some("2026-01-01T00:00:03.500Z")
    );
    assert_eq!(metrics.duration_ms, Some(2_375));
}

#[test]
fn an_unfinished_newer_turn_removes_end_and_duration() {
    let metrics = SessionMetrics::from_workflow_events(&[
        event(
            WorkflowEventKind::TaskStarted,
            "2026-01-01T00:00:01Z",
            Some("one"),
        ),
        event(
            WorkflowEventKind::TaskCompleted,
            "2026-01-01T00:00:02Z",
            Some("one"),
        ),
        event(
            WorkflowEventKind::TaskStarted,
            "2026-01-01T00:00:03Z",
            Some("two"),
        ),
    ]);
    assert!(metrics.ended_at.is_none());
    assert!(metrics.duration_ms.is_none());
}

#[test]
fn keeps_verification_time_separate_and_does_not_require_it_for_duration() {
    let metrics = SessionMetrics::from_workflow_events(&[
        event(
            WorkflowEventKind::TaskStarted,
            "not-a-timestamp",
            Some("turn"),
        ),
        event(
            WorkflowEventKind::TaskCompleted,
            "also-invalid",
            Some("turn"),
        ),
        event(
            WorkflowEventKind::CommandExecution,
            "2026-01-01T00:00:04Z",
            None,
        ),
    ]);
    assert!(metrics.duration_ms.is_none());
    assert_eq!(
        metrics.verification_completed_at.as_deref(),
        Some("2026-01-01T00:00:04Z")
    );
}

#[test]
fn ignores_unmatched_completion() {
    let metrics = SessionMetrics::from_workflow_events(&[event(
        WorkflowEventKind::TaskCompleted,
        "2026-01-01T00:00:02Z",
        Some("other"),
    )]);
    assert_eq!(metrics, SessionMetrics::default());
}

#[test]
fn timestamps_read_as_epoch_milliseconds() {
    assert_eq!(parse_timestamp_ms("1970-01-01T00:00:00Z"), Some(0));
    assert_eq!(parse_timestamp_ms("1970-01-02T00:00:00Z"), Some(86_400_000));
    assert_eq!(
        parse_timestamp_ms("2026-01-01T00:00:01.125Z"),
        Some(1_767_225_601_125)
    );
    assert_eq!(
        parse_timestamp_ms("2026-01-01T09:00:00+09:00"),
        Some(1_767_225_600_000)
    );
    assert_eq!(parse_timestamp_ms("2026-01-01T00:00:00.5Z"), Some(1_767_225_600_500));
    assert_eq!(parse_timestamp_ms("1969-12-31T23:59:59Z"), Some(-1000));
    assert_eq!(parse_timestamp_ms("2000-03-01T00:00:00"), Some(951_868_800_000));
    assert_eq!(parse_timestamp_ms("2026-13-01T00:00:00Z"), None);
    assert_eq!(parse_timestamp_ms("2026-01-01 00:00:00Z"), None);
    assert_eq!(parse_timestamp_ms("2026-01-01T00:00Z"), None);
}

#[test]
fn earlier_end_than_start_has_no_duration() {
    let metrics = SessionMetrics::from_workflow_events(&[
        event(
            WorkflowEventKind::TaskStarted,
            "2026-01-01T00:00:05Z",
            Some("turn"),
        ),
        event(
            WorkflowEventKind::TaskCompleted,
            "2026-01-01T00:00:01Z",
            Some("turn"),
        ),
    ]);
    assert_eq!(metrics.ended_at.as_deref(), Some("2026-01-01T00:00:01Z"));
    assert_eq!(metrics.duration_ms, None);
}
