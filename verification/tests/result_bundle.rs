use agent_hud::model::SessionViewModel;
use agent_hud::project::ProjectIdentity;
use agent_hud::readiness::Readiness;
use agent_hud::result_bundle::ProjectResultBundle;

fn project(name: &str, root: &str, repository: &str) -> ProjectIdentity {
    ProjectIdentity {
        normalized_name: name.into(),
        root_path: Some(root.into()),
        repository_identity: Some(repository.into()),
    }
}

fn session(
    id: &str,
    project: &ProjectIdentity,
    recency_at_ms: i64,
    result: Option<&str>,
    title: Option<&str>,
) -> SessionViewModel {
    SessionViewModel {
        id: id.into(),
        title: title.map(str::to_owned),
        project_identity: Some(project.clone()),
        readiness: Readiness::Ready,
        latest_result: result.map(str::to_owned),
        needs_attention: false,
        recency_at_ms,
        changed_files: Vec::new(),
        verification: None,
    }
}

fn bundle(project: &ProjectIdentity, sessions: &[SessionViewModel]) -> ProjectResultBundle {
    let roots = vec![None; sessions.len()];
    ProjectResultBundle::from_sessions(project, None, sessions, &roots)
}

#[test]
fn bundles_full_results_in_recency_then_id_order() {
    let project = project("agent-hud", r"C:\agent-hud", "repo:one");
    let sessions = vec![
        session("z", &project, 10, Some("older"), None),
        session("b", &project, 20, Some("second"), Some("Second")),
        session(
            "a",
            &project,
            20,
            Some("first\nwith all details"),
            Some("First"),
        ),
    ];

    let bundle = bundle(&project, &sessions);
    assert_eq!(
        bundle.format(),
        "# Project: agent-hud\n\n## Session: First (a)\nReadiness: READY\n\nfirst\nwith all details\n\n---\n\n## Session: Second (b)\nReadiness: READY\n\nsecond\n\n---\n\n## Session: z\nReadiness: READY\n\nolder"
    );
}

#[test]
fn excludes_missing_and_whitespace_only_results() {
    let project = project("agent-hud", r"C:\agent-hud", "repo:one");
    let sessions = vec![
        session("missing", &project, 3, None, None),
        session("blank", &project, 2, Some(" \n\t"), None),
        session("kept", &project, 1, Some("result"), None),
    ];

    let bundle = bundle(&project, &sessions);
    assert!(bundle.format().contains("result"));
    assert!(!bundle.format().contains("missing"));
    assert!(!bundle.format().contains("blank"));
}

#[test]
fn isolates_projects_by_complete_identity_not_display_name() {
    let selected = project("agent-hud", r"C:\one", "repo:one");
    let same_name_other_root = project("agent-hud", r"C:\two", "repo:two");
    let sessions = vec![
        session("selected", &selected, 2, Some("included"), None),
        session("other", &same_name_other_root, 3, Some("excluded"), None),
    ];

    let bundle = bundle(&selected, &sessions);
    assert!(bundle.format().contains("included"));
    assert!(!bundle.format().contains("excluded"));
}

#[test]
fn bundles_linked_worktrees_with_the_same_repository_identity() {
    let selected = project("agent-hud", r"C:\worktrees\one", "repo:one");
    let linked_worktree = project("agent-hud", r"C:\worktrees\two", "repo:one");
    let sessions = vec![
        session("selected", &selected, 2, Some("included"), None),
        session(
            "linked",
            &linked_worktree,
            3,
            Some("linked result with full detail"),
            None,
        ),
    ];

    let bundle = bundle(&selected, &sessions);
    let formatted = bundle.format();
    assert!(formatted.contains("included"));
    assert!(formatted.contains("linked result with full detail"));
}

#[test]
fn reports_unavailable_when_project_has_no_result() {
    let project = project("agent-hud", r"C:\agent-hud", "repo:one");
    let bundle = bundle(&project, &[session("a", &project, 1, None, None)]);

    assert_eq!(
        bundle,
        ProjectResultBundle::Unavailable {
            project: project.clone()
        }
    );
    assert_eq!(
        bundle.format(),
        "No latest results available for project: agent-hud"
    );
}

#[test]
fn without_repositories_the_same_canonical_root_joins_projects() {
    let selected = ProjectIdentity {
        normalized_name: "tool".into(),
        root_path: Some("/srv/tool".into()),
        repository_identity: None,
    };
    let alias = ProjectIdentity {
        normalized_name: "tool".into(),
        root_path: Some("/srv/link-to-tool".into()),
        repository_identity: None,
    };
    let sessions = vec![
        session("alias", &alias, 2, Some("through a link"), None),
        session("direct", &selected, 1, Some("direct"), None),
    ];
    let roots = vec![Some("/srv/tool".to_owned()), None];
    let joined =
        ProjectResultBundle::from_sessions(&selected, Some("/srv/tool"), &sessions, &roots);
    let text = joined.format();
    assert!(text.contains("through a link"));
    assert!(!text.contains("direct"));
}
