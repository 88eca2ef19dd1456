use agent_hud::process_health::{
    Activity, Evidence, Presence, ProcessHealth, ProcessInfo, ProcessObserver, ProcessSnapshot,
};

#[test]
fn unavailable_evidence_does_not_claim_process_presence() {
    let health = ProcessHealth::from_snapshot(Evidence::Unavailable, Vec::new());
    assert_eq!(health.presence, Presence::Unknown);
    assert_eq!(health.activity, Activity::Unknown);
    assert!(health.processes.is_empty());
}

#[test]
fn degraded_evidence_can_report_observed_processes_without_activity_claim() {
    let health = ProcessHealth::from_snapshot(
        Evidence::Degraded,
        vec![ProcessInfo {
            process_id: 42,
            executable: "codex.exe".into(),
        }],
    );
    assert_eq!(health.presence, Presence::Running);
    assert_eq!(health.activity, Activity::Unknown);
    assert_eq!(health.processes[0].process_id, 42);
}

#[test]
fn observer_normalizes_executable_names_without_empty_targets() {
    let observer = ProcessObserver::for_executables(&[" CODEX.EXE ", ""]);
    assert_eq!(observer.executable_names(), ["codex.exe".to_owned()]);
}

#[test]
fn observation_keeps_matching_processes_case_insensitively() {
    let observer = ProcessObserver::codex();
    let health = observer.observe(ProcessSnapshot::Listed {
        entries: vec![
            ProcessInfo {
                process_id: 1,
                executable: "explorer.exe".into(),
            },
            ProcessInfo {
                process_id: 7,
                executable: "Codex.EXE".into(),
            },
        ],
        complete: true,
    });
    assert_eq!(health.evidence, Evidence::Available);
    assert_eq!(health.presence, Presence::Running);
    assert_eq!(health.processes.len(), 1);
    assert_eq!(health.processes[0].process_id, 7);
    assert_eq!(health.processes[0].executable, "Codex.EXE");
}

#[test]
fn incomplete_or_missing_snapshots_degrade_evidence() {
    let observer = ProcessObserver::codex();
    let partial = observer.observe(ProcessSnapshot::Listed {
        entries: Vec::new(),
        complete: false,
    });
    assert_eq!(partial.evidence, Evidence::Degraded);
    assert_eq!(partial.presence, Presence::NotRunning);
    let unreadable = observer.observe(ProcessSnapshot::Unreadable);
    assert_eq!(unreadable.evidence, Evidence::Degraded);
    assert_eq!(unreadable.presence, Presence::NotRunning);
    let unavailable = observer.observe(ProcessSnapshot::Unavailable);
    assert_eq!(unavailable.evidence, Evidence::Unavailable);
    assert_eq!(unavailable.presence, Presence::Unknown);
}
