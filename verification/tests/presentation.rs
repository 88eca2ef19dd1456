use agent_hud::presentation::{badge_palette, heading, heading_color, Rgb};
use agent_hud::model::{ApplicationState, SessionChange, SessionViewModel};
use agent_hud::presentation::{
    changed_files_preview, copy_payload, display_label, preview, project_groups,
    project_result_payload, truncate, ViewState,
};
use agent_hud::project::ProjectIdentity;
use agent_hud::readiness::Readiness;
use agent_hud::verification::{VerificationEvidence, VerificationOutcome};

fn session(id: &str, recency_at_ms: i64) -> SessionViewModel {
    SessionViewModel {
        id: id.into(),
        title: None,
        latest_result: None,
        project_identity: None,
        changed_files: Vec::new(),
        readiness: Readiness::Ready,
        needs_attention: false,
        recency_at_ms,
        verification: None,
    }
}

fn rich_session(id: &str) -> SessionViewModel {
    SessionViewModel {
        latest_result: Some("full result with details that must remain copyable".into()),
        changed_files: vec![
            "src/one.rs".into(),
            "src/two.rs".into(),
            "src/three.rs".into(),
            "src/four.rs".into(),
        ],
        verification: Some(VerificationEvidence {
            command: "cargo test".into(),
            outcome: VerificationOutcome::Passed,
        }),
        ..session(id, 1)
    }
}

fn project(name: &str, root: &str, repository: Option<&str>) -> ProjectIdentity {
    ProjectIdentity {
        normalized_name: name.into(),
        root_path: Some(root.into()),
        repository_identity: repository.map(str::to_owned),
    }
}

fn payload(identity: &ProjectIdentity, state: &ApplicationState) -> Option<String> {
    let roots = vec![None; state.sessions().len()];
    project_result_payload(identity, None, state, &roots)
}

#[test]
fn sessions_are_grouped_by_full_project_identity() {
    let mut state = ApplicationState::default();
    let project = ProjectIdentity {
        normalized_name: "same-name".into(),
        root_path: Some("C:\\one".into()),
        repository_identity: None,
    };
    let other_project = ProjectIdentity {
        root_path: Some("C:\\two".into()),
        ..project.clone()
    };
    let mut first = session("first", 3);
    first.project_identity = Some(project.clone());
    let mut second = session("second", 2);
    second.project_identity = Some(project);
    let mut third = session("third", 1);
    third.project_identity = Some(other_project);
    state.apply(SessionChange::Snapshot(vec![third, first, second]));

    let groups = project_groups(&state);
    assert_eq!(groups.len(), 2);
    assert_eq!(groups[0].sessions.len(), 2);
    assert_eq!(groups[1].sessions.len(), 1);
}

#[test]
fn project_copy_does_not_mix_same_name_with_different_repository() {
    let mut state = ApplicationState::default();
    let selected = project("agent-hud", r"C:\one", Some("repo:one"));
    let other = project("agent-hud", r"C:\two", Some("repo:two"));
    let mut first = rich_session("first");
    first.project_identity = Some(selected.clone());
    first.latest_result = Some("selected result".into());
    let mut second = rich_session("second");
    second.project_identity = Some(other);
    second.latest_result = Some("other result".into());
    state.apply(SessionChange::Snapshot(vec![first, second]));

    let text = payload(&selected, &state).unwrap();
    assert!(text.contains("selected result"));
    assert!(!text.contains("other result"));
}

#[test]
fn project_copy_is_unavailable_when_all_results_are_empty() {
    let mut state = ApplicationState::default();
    let selected = project("agent-hud", r"C:\one", Some("repo:one"));
    let mut item = session("empty", 1);
    item.project_identity = Some(selected.clone());
    item.latest_result = Some("   ".into());
    state.apply(SessionChange::Snapshot(vec![item]));
    assert_eq!(payload(&selected, &state), None);
}

#[test]
fn result_preview_is_bounded_but_copy_payload_is_full() {
    let value = "a".repeat(200);
    assert_eq!(preview(&value, 10).chars().count(), 10);
    let item = rich_session("result");
    assert_eq!(copy_payload(&item), item.latest_result.as_deref());
    assert!(copy_payload(&item).unwrap().len() > 10);
}

#[test]
fn changed_files_are_bounded_with_remaining_count() {
    let files = vec![
        "one.rs".into(),
        "two.rs".into(),
        "three.rs".into(),
        "four.rs".into(),
    ];
    let text = changed_files_preview(&files);
    assert!(text.contains("one.rs"));
    assert!(text.contains("three.rs"));
    assert!(!text.contains("four.rs"));
    assert!(text.contains("+1 more"));
}

#[test]
fn metadata_does_not_change_readiness_and_acknowledgement_still_works() {
    let mut state = ApplicationState::default();
    let mut working = rich_session("result");
    working.readiness = Readiness::Working;
    state.apply(SessionChange::Snapshot(vec![working.clone()]));
    let mut ready = working;
    ready.readiness = Readiness::Ready;
    state.apply(SessionChange::Updated(ready));
    assert_eq!(state.sessions()[0].readiness, Readiness::Ready);
    assert!(state.sessions()[0].needs_attention);
    assert!(state.acknowledge("result"));
    assert!(!state.sessions()[0].needs_attention);
}

#[test]
fn absent_metadata_is_quiet() {
    let item = session("empty", 1);
    assert_eq!(preview(item.latest_result.as_deref().unwrap_or(""), 20), "");
    assert_eq!(changed_files_preview(&item.changed_files), "");
    assert!(item.verification.is_none());
}

#[test]
fn previews_replace_controls_and_mark_truncation() {
    assert_eq!(preview("a\tb\nc", 10), "a b c");
    assert_eq!(truncate("abcdef", 4), "abc…");
    assert_eq!(truncate("abcd", 4), "abcd");
    assert_eq!(truncate("abc", 0), "…");
    assert_eq!(
        changed_files_preview(&["a.rs".to_owned(), "b.rs".to_owned()]),
        "Changed: a.rs · b.rs"
    );
}

#[test]
fn console_labels_are_compact_and_bounded() {
    assert_eq!(display_label(None), "(untitled)");
    assert_eq!(display_label(Some("")), "(untitled)");
    assert_eq!(display_label(Some("fix\tbug")), "fix bug");
    assert_eq!(display_label(Some(&"x".repeat(100))).chars().count(), 80);
}

#[test]
fn toggling_a_project_collapses_and_expands_it() {
    let one = project("one", "/one", None);
    let mut view = ViewState::default();
    assert!(!view.is_collapsed(Some(&one)));
    view.toggle_project(Some(one.clone()));
    assert!(view.is_collapsed(Some(&one)));
    assert!(!view.is_collapsed(None));
    view.toggle_project(None);
    assert!(view.is_collapsed(None));
    view.toggle_project(Some(one.clone()));
    assert!(!view.is_collapsed(Some(&one)));
    assert!(view.is_collapsed(None));
}

#[test]
fn badge_palette_marks_attention_and_missing_evidence() {
    let attention = badge_palette(Readiness::Ready, true);
    assert_eq!(attention.foreground, Rgb { red: 170, green: 24, blue: 24 });
    assert_eq!(attention.background, Rgb { red: 255, green: 220, blue: 220 });
    let quiet = badge_palette(Readiness::Ready, false);
    assert_eq!(quiet, badge_palette(Readiness::Working, false));
    assert_eq!(quiet.foreground, Rgb { red: 18, green: 73, blue: 140 });
    let unknown = badge_palette(Readiness::Unknown, true);
    assert_eq!(unknown.foreground, Rgb { red: 126, green: 77, blue: 0 });
    assert_eq!(unknown.background, Rgb { red: 255, green: 237, blue: 196 });
}

#[test]
fn heading_reports_degraded_observation() {
    assert_eq!(heading(false), "Recent local sessions");
    assert_eq!(heading(true), "Observation unavailable");
    assert_eq!(heading_color(false), Rgb { red: 30, green: 35, blue: 42 });
    assert_eq!(heading_color(true), Rgb { red: 126, green: 77, blue: 0 });
}
