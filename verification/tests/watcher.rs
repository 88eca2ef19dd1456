use agent_hud::discovery::{DiscoveryError, SessionSnapshot};
use agent_hud::model::SessionChange;
use agent_hud::readiness::Readiness;
use agent_hud::watcher::{
    FreshSession, IncrementalRollout, LiveWatcher, RolloutUpdate, WatchEventKind,
};

/// Takes the bytes appended since the last read.
fn feed(reader: &mut IncrementalRollout, bytes: &[u8]) -> Result<RolloutUpdate, DiscoveryError> {
    let length = reader.offset() + bytes.len() as u64;
    reader.apply_append(length, bytes)
}

fn metadata(id: &str) -> String {
    format!("{{\"type\":\"session_meta\",\"payload\":{{\"id\":\"{id}\",\"session_id\":\"{id}\",\"thread_source\":\"user\"}}}}\n")
}

fn event(kind: &str, turn: &str) -> String {
    format!(
        "{{\"timestamp\":\"2026-01-01T00:00:00Z\",\"type\":\"event_msg\",\"payload\":{{\"type\":\"{kind}\",\"turn_id\":\"{turn}\"}}}}\n"
    )
}

fn open(contents: &str) -> Result<IncrementalRollout, DiscoveryError> {
    IncrementalRollout::open("rollout.jsonl".into(), "root".into(), contents.as_bytes())
}

fn reader() -> IncrementalRollout {
    open(&metadata("root")).unwrap()
}

fn snapshot(readiness: Readiness) -> SessionSnapshot {
    SessionSnapshot {
        id: "root".into(),
        title: Some("Synthetic".into()),
        cwd: None,
        project_label: None,
        project_identity: None,
        readiness,
        latest_result: None,
        recency_at_ms: 1,
        lifecycle_timestamp: None,
        changed_files: Vec::new(),
        rollout_path: "rollout.jsonl".into(),
        verification: None,
        workflow_events: Vec::new(),
    }
}

#[test]
fn append_lifecycle_changes_only_on_complete_records() {
    let mut reader = reader();
    assert_eq!(
        feed(&mut reader, event("task_started", "one").as_bytes()).unwrap(),
        RolloutUpdate::Changed
    );
    assert_eq!(
        feed(
            &mut reader,
            b"{\"type\":\"response_item\",\"payload\":{\"type\":\"command_execution\"}}\n"
        )
        .unwrap(),
        RolloutUpdate::NoChange
    );
    assert_eq!(
        feed(&mut reader, event("task_complete", "one").as_bytes()).unwrap(),
        RolloutUpdate::Changed
    );
}

#[test]
fn partial_line_is_ignored_until_completed() {
    let mut reader = reader();
    let line = event("task_started", "one");
    let (first, second) = line.split_at(line.len() - 2);
    assert_eq!(
        feed(&mut reader, first.as_bytes()).unwrap(),
        RolloutUpdate::NoChange
    );
    assert_eq!(
        feed(&mut reader, second.as_bytes()).unwrap(),
        RolloutUpdate::Changed
    );
}

#[test]
fn duplicate_notification_has_no_semantic_change() {
    let mut reader = reader();
    assert_eq!(
        feed(&mut reader, event("task_started", "one").as_bytes()).unwrap(),
        RolloutUpdate::Changed
    );
    assert_eq!(feed(&mut reader, b"").unwrap(), RolloutUpdate::NoChange);
}

#[test]
fn newer_turn_supersedes_old_completion() {
    let mut reader = reader();
    let both = format!("{}{}", event("task_started", "one"), event("task_complete", "one"));
    assert_eq!(
        feed(&mut reader, both.as_bytes()).unwrap(),
        RolloutUpdate::Changed
    );
    assert_eq!(
        feed(&mut reader, event("task_started", "two").as_bytes()).unwrap(),
        RolloutUpdate::Changed
    );
    assert_eq!(
        feed(&mut reader, event("task_complete", "one").as_bytes()).unwrap(),
        RolloutUpdate::Changed
    );
    assert_eq!(reader.readiness(), Readiness::Unknown);
}

#[test]
fn one_append_publishes_lifecycle_and_all_metadata_together() {
    let mut reader = reader();
    assert_eq!(
        feed(&mut reader, event("task_started", "one").as_bytes()).unwrap(),
        RolloutUpdate::Changed
    );
    let mut appended = String::new();
    appended.push_str(r#"{"type":"event_msg","payload":{"type":"item_completed","item":{"type":"FileChange","changes":[{"path":"src/main.rs"}]}}}"#);
    appended.push('\n');
    appended.push_str(r#"{"type":"event_msg","payload":{"type":"item_completed","item":{"type":"CommandExecution","command":"cargo test","status":"completed","exit_code":0,"aggregated_output":"test result: ok"}}}"#);
    appended.push('\n');
    appended.push_str(r#"{"type":"event_msg","payload":{"type":"item_completed","item":{"type":"AgentMessage","phase":"final_answer","content":[{"type":"Text","text":"done"}]}}}"#);
    appended.push('\n');
    appended.push_str(&event("task_complete", "one"));

    assert_eq!(
        feed(&mut reader, appended.as_bytes()).unwrap(),
        RolloutUpdate::Changed
    );
    assert_eq!(reader.readiness(), Readiness::Ready);
    assert_eq!(reader.latest_result(), Some("done"));
    assert_eq!(reader.changed_files(), ["src/main.rs".to_owned()]);
    assert_eq!(
        reader
            .verification()
            .as_ref()
            .map(|evidence| evidence.command.as_str()),
        Some("cargo test")
    );
}

#[test]
fn identity_mismatch_is_rejected() {
    assert!(open(&metadata("different")).is_err());
}

#[test]
fn truncation_requests_reconciliation() {
    let reader = reader();
    assert!(reader.needs_reconcile(0));
    assert!(!reader.needs_reconcile(reader.offset()));
}

fn watcher_with(contents: &str) -> LiveWatcher {
    let mut watcher = LiveWatcher::new("/data/state_5.sqlite".into(), "/data/sessions".into());
    let reader = open(contents).unwrap();
    let readiness = reader.readiness();
    watcher.track(snapshot(readiness), reader);
    watcher
}

fn snapshot_readiness(changes: &[SessionChange]) -> Option<Readiness> {
    match changes {
        [SessionChange::Snapshot(items)] => Some(items[0].readiness),
        _ => None,
    }
}

#[test]
fn reconciliation_reopens_tracked_rollout_after_missed_append() {
    let before = format!("{}{}", metadata("root"), event("task_started", "one"));
    let mut watcher = watcher_with(&before);
    assert_eq!(
        snapshot_readiness(&watcher.initial_changes()),
        Some(Readiness::Working)
    );
    let after = format!("{}{}", before, event("task_complete", "one"));
    let reopened = open(&after).unwrap();
    let changes = watcher
        .reconcile(vec![FreshSession {
            snapshot: snapshot(Readiness::Ready),
            rollout: Ok(reopened),
        }])
        .unwrap();
    assert_eq!(snapshot_readiness(&changes), Some(Readiness::Ready));
    let again = open(&after).unwrap();
    assert!(watcher
        .reconcile(vec![FreshSession {
            snapshot: snapshot(Readiness::Ready),
            rollout: Ok(again),
        }])
        .unwrap()
        .is_empty());
}

#[test]
fn failed_recovery_degrades_tracked_readiness_to_unknown() {
    let contents = format!(
        "{}{}{}",
        metadata("root"),
        event("task_started", "one"),
        event("task_complete", "one")
    );
    let mut watcher = watcher_with(&contents);
    assert_eq!(
        snapshot_readiness(&watcher.initial_changes()),
        Some(Readiness::Ready)
    );
    let changes = watcher.degrade();
    assert!(matches!(
        changes.as_slice(),
        [SessionChange::ObservationDegraded { id }, SessionChange::ObservationTerminated]
            if id == "root"
    ));
    assert_eq!(
        snapshot_readiness(&watcher.initial_changes()),
        Some(Readiness::Unknown)
    );
}

#[test]
fn removed_sessions_and_failed_rereads_are_reported() {
    let contents = format!("{}{}", metadata("root"), event("task_started", "one"));
    let mut watcher = watcher_with(&contents);
    let changes = watcher.reconcile(Vec::new()).unwrap();
    assert!(matches!(changes.as_slice(), [SessionChange::Snapshot(items)] if items.is_empty()));

    let mut watcher = watcher_with(&contents);
    let failed = watcher.reconcile(vec![FreshSession {
        snapshot: snapshot(Readiness::Working),
        rollout: Err("unreadable".into()),
    }]);
    assert_eq!(failed, Err("unreadable".to_owned()));
    assert!(watcher.watched_sessions().is_empty());
}

#[test]
fn notifications_are_classified_for_reconciliation() {
    let watcher = watcher_with(&metadata("root"));
    assert!(watcher.needs_reconcile(WatchEventKind::Create, &[]));
    assert!(watcher.needs_reconcile(WatchEventKind::Remove, &[]));
    assert!(watcher.needs_reconcile(WatchEventKind::Other, &[]));
    assert!(watcher.needs_reconcile(
        WatchEventKind::Modify,
        &["/data/state_5.sqlite-wal".to_owned()]
    ));
    assert!(watcher.needs_reconcile(
        WatchEventKind::Modify,
        &["/data/state_5.sqlite".to_owned()]
    ));
    assert!(!watcher.needs_reconcile(
        WatchEventKind::Modify,
        &["/data/sessions/rollout.jsonl".to_owned()]
    ));
    assert_eq!(watcher.session_for_path("rollout.jsonl"), Some(0));
    assert_eq!(watcher.session_for_path("other.jsonl"), None);
}

#[test]
fn notification_paths_are_compared_by_components() {
    let watcher = watcher_with(&metadata("root"));
    assert_eq!(watcher.session_for_path("rollout.jsonl/"), Some(0));
    assert_eq!(watcher.session_for_path("./rollout.jsonl"), None);
    assert!(watcher.needs_reconcile(
        WatchEventKind::Modify,
        &[r"\data\state_5.sqlite-shm\".to_owned()]
    ));
    assert!(!watcher.needs_reconcile(
        WatchEventKind::Modify,
        &["/data/state_5.sqlite/..".to_owned()]
    ));
}

#[test]
fn publishing_copies_reader_facts_into_the_snapshot() {
    let mut watcher = watcher_with(&metadata("root"));
    let update = feed(
        watcher.rollout_mut(0),
        event("task_started", "one").as_bytes(),
    )
    .unwrap();
    assert_eq!(update, RolloutUpdate::Changed);
    match watcher.publish(0) {
        SessionChange::Updated(view) => {
            assert_eq!(view.id, "root");
            assert_eq!(view.readiness, Readiness::Working);
        }
        other => panic!("unexpected change {other:?}"),
    }
}

#[test]
fn repeated_notification_keeps_readiness_and_files() {
    let mut reader = reader();
    feed(&mut reader, event("task_started", "one").as_bytes()).unwrap();
    let readiness = reader.readiness();
    let files: Vec<String> = reader.changed_files().to_vec();
    let offset = reader.offset();
    assert_eq!(feed(&mut reader, b"").unwrap(), RolloutUpdate::NoChange);
    assert_eq!(feed(&mut reader, b"").unwrap(), RolloutUpdate::NoChange);
    assert_eq!(reader.readiness(), readiness);
    assert_eq!(reader.changed_files().to_vec(), files);
    assert_eq!(reader.offset(), offset);
}

#[test]
fn a_failed_notification_ends_watching_with_degraded_sessions() {
    let mut watcher = watcher_with(&format!("{}{}", metadata("root"), event("task_started", "one")));
    let (changes, keep) = watcher.after_event(Ok(Vec::new()));
    assert!(changes.is_empty());
    assert!(keep);
    let (changes, keep) = watcher.after_event(Err("watch failed".to_owned()));
    assert!(!keep);
    assert_eq!(changes.last(), Some(&SessionChange::ObservationTerminated));
    assert_eq!(watcher.watched_sessions()[0].snapshot.readiness, Readiness::Unknown);
}
