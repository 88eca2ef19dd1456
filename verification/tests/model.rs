use agent_hud::attention::{AttentionCategory, AttentionItem};
use agent_hud::discovery::SessionSnapshot;
use agent_hud::model::{ApplicationState, SessionChange, SessionViewModel};
use agent_hud::project::ProjectIdentity;
use agent_hud::readiness::Readiness;

fn session(id: &str, readiness: Readiness, recency_at_ms: i64) -> SessionViewModel {
    SessionViewModel {
        id: id.into(),
        title: None,
        latest_result: None,
        project_identity: None,
        changed_files: Vec::new(),
        readiness,
        needs_attention: false,
        recency_at_ms,
        verification: None,
    }
}

#[test]
fn initial_snapshot_is_ordered_by_recency_then_id() {
    let mut state = ApplicationState::default();
    state.apply(SessionChange::Snapshot(vec![
        session("b", Readiness::Ready, 10),
        session("a", Readiness::Ready, 20),
        session("c", Readiness::Ready, 20),
    ]));
    assert_eq!(
        state
            .sessions()
            .iter()
            .map(|item| item.id.as_str())
            .collect::<Vec<_>>(),
        vec!["a", "c", "b"]
    );
}

#[test]
fn project_filter_returns_matching_sessions_in_existing_order() {
    let selected = ProjectIdentity {
        normalized_name: "selected".into(),
        root_path: None,
        repository_identity: Some("repo:selected".into()),
    };
    let other = ProjectIdentity {
        normalized_name: "other".into(),
        root_path: None,
        repository_identity: Some("repo:other".into()),
    };
    let mut first = session("first", Readiness::Working, 10);
    first.project_identity = Some(selected.clone());
    let mut second = session("second", Readiness::Ready, 30);
    second.project_identity = Some(other);
    let mut third = session("third", Readiness::Unknown, 20);
    third.project_identity = Some(selected.clone());

    let mut state = ApplicationState::default();
    state.apply(SessionChange::Snapshot(vec![first, second, third]));

    assert_eq!(
        state
            .sessions_for_project(Some(&selected))
            .iter()
            .map(|session| session.id.as_str())
            .collect::<Vec<_>>(),
        vec!["third", "first"]
    );
    assert_eq!(state.sessions().len(), 3);
}

#[test]
fn missing_project_filter_keeps_sessions_without_identity_visible() {
    let mut identified = session("identified", Readiness::Ready, 2);
    identified.project_identity = Some(ProjectIdentity {
        normalized_name: "project".into(),
        root_path: None,
        repository_identity: None,
    });
    let unscoped = session("unscoped", Readiness::Unknown, 1);

    let mut state = ApplicationState::default();
    state.apply(SessionChange::Snapshot(vec![identified, unscoped]));

    assert_eq!(state.sessions_for_project(None).len(), 2);
}

#[test]
fn filtering_does_not_change_readiness_or_attention() {
    let selected = ProjectIdentity {
        normalized_name: "selected".into(),
        root_path: None,
        repository_identity: None,
    };
    let mut item = session("selected", Readiness::Working, 1);
    item.project_identity = Some(selected.clone());
    let mut state = ApplicationState::default();
    state.apply(SessionChange::Snapshot(vec![item]));
    state.apply(SessionChange::Updated(SessionViewModel {
        readiness: Readiness::Ready,
        project_identity: Some(selected.clone()),
        ..session("selected", Readiness::Ready, 1)
    }));

    let filtered = state.sessions_for_project(Some(&selected));
    assert_eq!(filtered[0].readiness, Readiness::Ready);
    assert!(filtered[0].needs_attention);
    assert_eq!(state.sessions()[0].readiness, Readiness::Ready);
    assert!(state.sessions()[0].needs_attention);
}

#[test]
fn project_context_propagates_without_changing_readiness_or_attention() {
    let snapshot = SessionSnapshot {
        id: "a".into(),
        title: Some("A task".into()),
        cwd: Some(r"C:\Users\kanat\dev\agent-hud".into()),
        project_label: Some("agent-hud".into()),
        project_identity: Some(ProjectIdentity {
            normalized_name: "agent-hud".into(),
            root_path: None,
            repository_identity: None,
        }),
        readiness: Readiness::Ready,
        latest_result: Some("completed result".into()),
        recency_at_ms: 1,
        lifecycle_timestamp: None,
        changed_files: Vec::new(),
        rollout_path: "rollout.jsonl".into(),
        verification: None,
        workflow_events: Vec::new(),
    };
    let mut state = ApplicationState::default();
    state.apply(SessionChange::Snapshot(vec![(&snapshot).into()]));

    let session = &state.sessions()[0];
    assert_eq!(
        session
            .project_identity
            .as_ref()
            .map(|project| project.normalized_name.as_str()),
        Some("agent-hud")
    );
    assert_eq!(session.readiness, Readiness::Ready);
    assert_eq!(session.latest_result.as_deref(), Some("completed result"));
    assert!(!session.needs_attention);
}

#[test]
fn targeted_update_changes_only_one_row_and_preserves_order() {
    let mut state = ApplicationState::default();
    state.apply(SessionChange::Snapshot(vec![
        session("a", Readiness::Ready, 20),
        session("b", Readiness::Working, 10),
    ]));
    state.apply(SessionChange::Updated(session("b", Readiness::Ready, 10)));
    assert_eq!(state.sessions()[0].readiness, Readiness::Ready);
    assert_eq!(state.sessions()[1].id, "b");
}

#[test]
fn add_and_remove_update_the_visible_set() {
    let mut state = ApplicationState::default();
    state.apply(SessionChange::Snapshot(vec![session("a", Readiness::Ready, 1)]));
    state.apply(SessionChange::Updated(session("b", Readiness::Working, 2)));
    assert_eq!(
        state
            .sessions()
            .iter()
            .map(|item| item.id.as_str())
            .collect::<Vec<_>>(),
        vec!["b", "a"]
    );
    assert!(state.apply(SessionChange::Removed("b".into())));
    assert_eq!(
        state
            .sessions()
            .iter()
            .map(|item| item.id.as_str())
            .collect::<Vec<_>>(),
        vec!["a"]
    );
}

#[test]
fn observation_degradation_is_unknown_and_visible() {
    let mut state = ApplicationState::default();
    state.apply(SessionChange::Snapshot(vec![session("a", Readiness::Working, 1)]));
    state.apply(SessionChange::ObservationTerminated);
    assert_eq!(state.sessions()[0].readiness, Readiness::Unknown);
    assert!(state.observation_degraded);
}

#[test]
fn observation_termination_repaints_when_rows_are_already_unknown() {
    let mut state = ApplicationState::default();
    state.apply(SessionChange::Snapshot(vec![session("a", Readiness::Unknown, 1)]));

    assert!(state.apply(SessionChange::ObservationTerminated));
    assert!(state.observation_degraded);
    assert_eq!(state.sessions()[0].readiness, Readiness::Unknown);
}

#[test]
fn initial_ready_session_is_not_attention_ready() {
    let mut state = ApplicationState::default();
    state.apply(SessionChange::Snapshot(vec![session("a", Readiness::Ready, 1)]));
    assert!(!state.sessions()[0].needs_attention);
}

#[test]
fn working_to_ready_marks_attention_and_acknowledgement_preserves_ready() {
    let mut state = ApplicationState::default();
    state.apply(SessionChange::Snapshot(vec![session("a", Readiness::Working, 1)]));
    state.apply(SessionChange::Updated(session("a", Readiness::Ready, 1)));
    assert!(state.sessions()[0].needs_attention);
    assert!(state.acknowledge("a"));
    assert_eq!(state.sessions()[0].readiness, Readiness::Ready);
    assert!(!state.sessions()[0].needs_attention);
}

#[test]
fn unacknowledged_attention_survives_ready_to_ready_update() {
    let mut state = ApplicationState::default();
    state.apply(SessionChange::Snapshot(vec![session("a", Readiness::Working, 1)]));
    state.apply(SessionChange::Updated(session("a", Readiness::Ready, 1)));
    assert!(state.sessions()[0].needs_attention);

    state.apply(SessionChange::Updated(session("a", Readiness::Ready, 2)));

    assert!(state.sessions()[0].needs_attention);
    assert!(state.acknowledge("a"));
    assert!(!state.sessions()[0].needs_attention);
}

#[test]
fn repeated_completed_turn_marks_attention_again() {
    let mut state = ApplicationState::default();
    state.apply(SessionChange::Snapshot(vec![session("a", Readiness::Working, 1)]));
    state.apply(SessionChange::Updated(session("a", Readiness::Ready, 1)));
    state.acknowledge("a");
    state.apply(SessionChange::Updated(session("a", Readiness::Working, 1)));
    state.apply(SessionChange::Updated(session("a", Readiness::Ready, 1)));
    assert!(state.sessions()[0].needs_attention);
}

#[test]
fn non_ready_transition_clears_stale_attention_and_ack_is_per_session() {
    let mut state = ApplicationState::default();
    state.apply(SessionChange::Snapshot(vec![
        session("a", Readiness::Working, 2),
        session("b", Readiness::Working, 1),
    ]));
    state.apply(SessionChange::Updated(session("a", Readiness::Ready, 2)));
    state.apply(SessionChange::Updated(session("b", Readiness::Ready, 1)));
    assert!(state.acknowledge("a"));
    state.apply(SessionChange::Updated(session("b", Readiness::Unknown, 1)));
    assert!(
        !state
            .sessions()
            .iter()
            .find(|item| item.id == "a")
            .unwrap()
            .needs_attention
    );
    assert!(
        !state
            .sessions()
            .iter()
            .find(|item| item.id == "b")
            .unwrap()
            .needs_attention
    );
}

#[test]
fn attention_is_independent_from_readiness_and_removed_with_its_session() {
    let mut state = ApplicationState::default();
    state.apply(SessionChange::Snapshot(vec![session("a", Readiness::Working, 1)]));
    assert!(state.replace_attention(vec![AttentionItem {
        id: "review-a".into(),
        session_id: "a".into(),
        category: AttentionCategory::ReviewRequired,
        title: "Review required".into(),
        detail: None,
    }]));

    state.apply(SessionChange::Updated(session("a", Readiness::Unknown, 1)));
    assert_eq!(state.sessions()[0].readiness, Readiness::Unknown);
    assert_eq!(state.attention().items().len(), 1);

    assert!(state.apply(SessionChange::Removed("a".into())));
    assert!(state.attention().items().is_empty());
}

#[test]
fn degradation_of_one_session_marks_only_that_row() {
    let mut state = ApplicationState::default();
    state.apply(SessionChange::Snapshot(vec![
        session("a", Readiness::Working, 2),
        session("b", Readiness::Ready, 1),
    ]));
    assert!(state.apply(SessionChange::ObservationDegraded { id: "a".into() }));
    assert_eq!(state.sessions()[0].readiness, Readiness::Unknown);
    assert_eq!(state.sessions()[1].readiness, Readiness::Ready);
    assert!(state.observation_degraded);
    assert!(!state.apply(SessionChange::ObservationDegraded { id: "missing".into() }));
}

#[test]
fn removing_an_unknown_session_reports_no_change() {
    let mut state = ApplicationState::default();
    state.apply(SessionChange::Snapshot(vec![session("a", Readiness::Ready, 1)]));
    assert!(!state.apply(SessionChange::Removed("missing".into())));
    assert!(!state.acknowledge("a"));
}
