use agent_hud::discovery::{
    append_changed_files, assistant_result, file_change_paths, lifecycle_record, parse_rollout,
    project_label, snapshot_from_records, validate_metadata, Candidate, DiscoveryError,
    CHANGED_FILE_LIMIT,
};
use agent_hud::json::JsonValue;
use agent_hud::readiness::{LifecycleKind, Readiness};
use agent_hud::verification::VerificationOutcome;

fn text(value: &str) -> JsonValue {
    JsonValue::String(value.to_string())
}

fn obj(entries: Vec<(&str, JsonValue)>) -> JsonValue {
    JsonValue::Object(
        entries
            .into_iter()
            .map(|(key, value)| (key.to_string(), value))
            .collect(),
    )
}

fn metadata(id: &str) -> JsonValue {
    obj(vec![
        ("timestamp", text("2026-01-01T00:00:00Z")),
        ("type", text("session_meta")),
        (
            "payload",
            obj(vec![
                ("id", text(id)),
                ("session_id", text(id)),
                ("thread_source", text("user")),
            ]),
        ),
    ])
}

fn event(kind: &str, turn_id: &str) -> JsonValue {
    obj(vec![
        ("timestamp", text("2026-01-01T00:00:01Z")),
        ("type", text("event_msg")),
        (
            "payload",
            obj(vec![("type", text(kind)), ("turn_id", text(turn_id))]),
        ),
    ])
}

fn candidate(id: &str) -> Candidate {
    Candidate {
        id: id.to_string(),
        title: Some("Synthetic session".to_string()),
        cwd: Some(r"C:\Users\kanat\dev\agent-hud".to_string()),
        rollout_path: "rollout.jsonl".to_string(),
        recency_at_ms: 10,
    }
}

fn final_message(parts: &[&str]) -> JsonValue {
    obj(vec![
        ("type", text("response_item")),
        (
            "payload",
            obj(vec![
                ("type", text("message")),
                ("role", text("assistant")),
                ("phase", text("final_answer")),
                (
                    "content",
                    JsonValue::Array(
                        parts
                            .iter()
                            .map(|part| obj(vec![("type", text("output_text")), ("text", text(part))]))
                            .collect(),
                    ),
                ),
            ]),
        ),
    ])
}

#[test]
fn project_label_uses_final_windows_component_and_handles_trailing_separator() {
    assert_eq!(
        project_label(Some(r"C:\Users\kanat\dev\agent-hud")),
        Some("agent-hud".into())
    );
    assert_eq!(
        project_label(Some(r"C:\Users\kanat\dev\agent-hud\\")),
        Some("agent-hud".into())
    );
}

#[test]
fn missing_or_empty_project_context_is_optional() {
    assert_eq!(project_label(None), None);
    assert_eq!(project_label(Some("   ")), None);
    assert_eq!(project_label(Some(r"C:\")), None);
}

#[test]
fn project_label_handles_unix_paths_and_dot_components() {
    assert_eq!(project_label(Some(" /home/me/project/ ")), Some("project".into()));
    assert_eq!(project_label(Some("/home/me/..")), None);
    assert_eq!(project_label(Some("relative")), Some("relative".into()));
}

fn metadata_line(id: &str) -> String {
    format!(
        "{{\"timestamp\":\"2026-01-01T00:00:00Z\",\"type\":\"session_meta\",\"payload\":{{\"id\":\"{id}\",\"session_id\":\"{id}\",\"thread_source\":\"user\"}}}}"
    )
}

fn event_line(kind: &str, turn_id: &str) -> String {
    format!(
        "{{\"timestamp\":\"2026-01-01T00:00:01Z\",\"type\":\"event_msg\",\"payload\":{{\"type\":\"{kind}\",\"turn_id\":\"{turn_id}\"}}}}"
    )
}

#[test]
fn discovers_and_reduces_latest_lifecycle_record() {
    let lines = vec![
        metadata_line("root"),
        event_line("task_complete", "one"),
        event_line("task_started", "two"),
    ];
    let snapshot = parse_rollout(candidate("root"), &lines, None).unwrap();
    assert_eq!(snapshot.readiness, Readiness::Working);
    assert_eq!(snapshot.latest_result, None);
    assert_eq!(snapshot.project_label.as_deref(), Some("agent-hud"));
    assert_eq!(
        snapshot.lifecycle_timestamp.as_deref(),
        Some("2026-01-01T00:00:01Z")
    );
}

#[test]
fn rollout_lines_skip_blanks_and_read_records_in_order() {
    let lines = vec![
        metadata_line("root"),
        String::new(),
        event_line("task_started", "turn"),
        "   ".to_string(),
        event_line("task_complete", "turn"),
    ];
    let snapshot = parse_rollout(candidate("root"), &lines, None).unwrap();
    assert_eq!(snapshot.readiness, Readiness::Ready);
    assert_eq!(snapshot.id, "root");
}

#[test]
fn rollout_lines_that_are_not_json_fail_the_rollout() {
    let lines = vec![metadata_line("root"), "{not json".to_string()];
    assert!(matches!(
        parse_rollout(candidate("root"), &lines, None),
        Err(DiscoveryError::Json(_))
    ));
    let lines = vec!["not json".to_string()];
    assert!(matches!(
        parse_rollout(candidate("root"), &lines, None),
        Err(DiscoveryError::Json(_))
    ));
}

#[test]
fn rollout_without_lines_has_no_metadata() {
    assert_eq!(
        parse_rollout(candidate("root"), &Vec::new(), None),
        Err(DiscoveryError::InvalidMetadata)
    );
    assert_eq!(
        parse_rollout(candidate("root"), &Vec::new(), Some("broken pipe".to_string())),
        Err(DiscoveryError::Rollout("broken pipe".to_string()))
    );
}

#[test]
fn rollout_read_error_is_reported_after_the_lines_read() {
    let lines = vec![metadata_line("root"), event_line("task_started", "turn")];
    assert_eq!(
        parse_rollout(candidate("root"), &lines, Some("disk gone".to_string())),
        Err(DiscoveryError::Rollout("disk gone".to_string()))
    );
    let lines = vec![metadata_line("other"), event_line("task_started", "turn")];
    assert_eq!(
        parse_rollout(candidate("root"), &lines, Some("disk gone".to_string())),
        Err(DiscoveryError::IdentityMismatch)
    );
    let lines = vec![
        metadata_line("root"),
        r#"{"type":"event_msg","payload":{"type":"task_started"}}"#.to_string(),
        "not json".to_string(),
    ];
    assert_eq!(
        parse_rollout(candidate("root"), &lines, Some("disk gone".to_string())),
        Err(DiscoveryError::MalformedLifecycle)
    );
}

#[test]
fn extracts_latest_final_assistant_result_without_affecting_readiness() {
    let snapshot = snapshot_from_records(
        candidate("root"),
        &metadata("root"),
        &vec![
            event("task_started", "turn"),
            event("task_complete", "turn"),
            final_message(&["First"]),
            final_message(&["Second", " result"]),
        ],
    )
    .unwrap();
    assert_eq!(snapshot.readiness, Readiness::Ready);
    assert_eq!(snapshot.latest_result.as_deref(), Some("Second result"));
}

#[test]
fn malformed_or_non_final_assistant_results_are_ignored() {
    assert_eq!(
        assistant_result(&obj(vec![("type", text("response_item"))])),
        None
    );
    assert_eq!(
        assistant_result(&obj(vec![
            ("type", text("response_item")),
            (
                "payload",
                obj(vec![
                    ("type", text("message")),
                    ("role", text("assistant")),
                    ("phase", text("commentary")),
                    (
                        "content",
                        JsonValue::Array(vec![obj(vec![
                            ("type", text("output_text")),
                            ("text", text("not final")),
                        ])]),
                    ),
                ]),
            ),
        ])),
        None
    );
    assert_eq!(
        assistant_result(&obj(vec![
            ("type", text("response_item")),
            (
                "payload",
                obj(vec![
                    ("type", text("message")),
                    ("role", text("assistant")),
                    (
                        "content",
                        JsonValue::Array(vec![obj(vec![("type", text("output_text"))])]),
                    ),
                ]),
            ),
        ])),
        None
    );
}

#[test]
fn malformed_assistant_result_does_not_change_readiness() {
    let malformed = obj(vec![
        ("type", text("response_item")),
        (
            "payload",
            obj(vec![
                ("type", text("message")),
                ("role", text("assistant")),
                ("content", JsonValue::Null),
            ]),
        ),
    ]);
    let snapshot = snapshot_from_records(
        candidate("root"),
        &metadata("root"),
        &vec![event("task_started", "turn"), event("task_complete", "turn"), malformed],
    )
    .unwrap();
    assert_eq!(snapshot.readiness, Readiness::Ready);
    assert_eq!(snapshot.latest_result, None);
}

#[test]
fn agent_message_item_completion_is_a_final_result() {
    let record = obj(vec![
        ("type", text("event_msg")),
        (
            "payload",
            obj(vec![
                ("type", text("item_completed")),
                (
                    "item",
                    obj(vec![
                        ("type", text("AgentMessage")),
                        ("phase", text("final_answer")),
                        (
                            "content",
                            JsonValue::Array(vec![obj(vec![
                                ("type", text("Text")),
                                ("text", text("done")),
                            ])]),
                        ),
                    ]),
                ),
            ]),
        ),
    ]);
    assert_eq!(assistant_result(&record).as_deref(), Some("done"));
    assert_eq!(assistant_result(&final_message(&[" ", "\t"])), None);
}

#[test]
fn extracts_only_structured_file_change_events() {
    let item_completed = obj(vec![
        ("type", text("event_msg")),
        (
            "payload",
            obj(vec![
                ("type", text("item_completed")),
                (
                    "item",
                    obj(vec![
                        ("type", text("FileChange")),
                        (
                            "changes",
                            JsonValue::Array(vec![
                                obj(vec![("path", text("src/lib.rs")), ("kind", text("update"))]),
                                obj(vec![("path", text("README.md")), ("kind", text("update"))]),
                            ]),
                        ),
                    ]),
                ),
            ]),
        ),
    ]);
    let raw_tool_call = obj(vec![
        ("type", text("response_item")),
        (
            "payload",
            obj(vec![
                ("type", text("custom_tool_call")),
                ("input", text("*** Update File: ignored.rs")),
            ]),
        ),
    ]);

    assert_eq!(
        file_change_paths(&item_completed),
        vec!["src/lib.rs", "README.md"]
    );
    assert!(file_change_paths(&raw_tool_call).is_empty());
}

#[test]
fn file_change_maps_report_their_non_blank_keys() {
    let record = obj(vec![
        ("type", text("event_msg")),
        (
            "payload",
            obj(vec![
                ("type", text("item_completed")),
                (
                    "item",
                    obj(vec![
                        ("type", text("file_change")),
                        (
                            "changes",
                            obj(vec![("a.rs", JsonValue::Null), (" ", JsonValue::Null)]),
                        ),
                    ]),
                ),
            ]),
        ),
    ]);
    assert_eq!(file_change_paths(&record), vec!["a.rs"]);
}

#[test]
fn changed_file_summary_is_recent_bounded_and_deterministic() {
    let mut files = Vec::new();
    append_changed_files(
        &mut files,
        (0..=CHANGED_FILE_LIMIT)
            .map(|index| format!("file-{index}.rs"))
            .collect(),
    );
    append_changed_files(&mut files, vec!["file-3.rs".into()]);

    assert_eq!(
        files,
        vec![
            "file-1.rs",
            "file-2.rs",
            "file-4.rs",
            "file-5.rs",
            "file-3.rs"
        ]
    );
}

#[test]
fn command_completion_does_not_make_a_session_ready() {
    let command = obj(vec![
        ("type", text("response_item")),
        (
            "payload",
            obj(vec![
                ("type", text("command_execution")),
                ("status", text("completed")),
            ]),
        ),
    ]);
    let snapshot = snapshot_from_records(candidate("root"), &metadata("root"), &vec![command]).unwrap();
    assert_eq!(snapshot.readiness, Readiness::Unknown);
}

#[test]
fn mismatched_rollout_and_subagents_are_excluded() {
    assert_eq!(
        snapshot_from_records(
            candidate("root"),
            &metadata("different"),
            &vec![event("task_complete", "one")]
        ),
        Err(DiscoveryError::IdentityMismatch)
    );
}

#[test]
fn malformed_required_metadata_is_excluded() {
    let metadata = obj(vec![("type", text("session_meta")), ("payload", obj(vec![]))]);
    assert_eq!(
        validate_metadata(&metadata, "root"),
        Err(DiscoveryError::IdentityMismatch)
    );
    assert_eq!(
        validate_metadata(&obj(vec![("type", text("event_msg"))]), "root"),
        Err(DiscoveryError::InvalidMetadata)
    );
    assert_eq!(
        validate_metadata(&obj(vec![("type", text("session_meta"))]), "root"),
        Err(DiscoveryError::InvalidMetadata)
    );
}

#[test]
fn rollout_missing_session_id_is_excluded() {
    let metadata = obj(vec![
        ("type", text("session_meta")),
        (
            "payload",
            obj(vec![("id", text("root")), ("thread_source", text("user"))]),
        ),
    ]);
    assert_eq!(
        snapshot_from_records(candidate("root"), &metadata, &vec![event("task_complete", "turn")]),
        Err(DiscoveryError::IdentityMismatch)
    );
}

#[test]
fn rollout_missing_thread_source_is_excluded() {
    let metadata = obj(vec![
        ("type", text("session_meta")),
        (
            "payload",
            obj(vec![("id", text("root")), ("session_id", text("root"))]),
        ),
    ]);
    assert_eq!(
        snapshot_from_records(candidate("root"), &metadata, &vec![event("task_complete", "turn")]),
        Err(DiscoveryError::IdentityMismatch)
    );
}

#[test]
fn malformed_lifecycle_records_fail_the_rollout() {
    let missing_turn = obj(vec![
        ("type", text("event_msg")),
        ("payload", obj(vec![("type", text("task_started"))])),
    ]);
    assert_eq!(
        lifecycle_record(&missing_turn),
        Err(DiscoveryError::MalformedLifecycle)
    );
    assert_eq!(
        lifecycle_record(&event("task_started", "")),
        Err(DiscoveryError::MalformedLifecycle)
    );
    assert_eq!(
        lifecycle_record(&obj(vec![("type", text("event_msg"))])),
        Err(DiscoveryError::MalformedLifecycle)
    );
    assert_eq!(
        lifecycle_record(&event("task_complete", "t")),
        Ok(Some((
            LifecycleKind::TaskComplete,
            "t".to_string(),
            Some("2026-01-01T00:00:01Z".to_string())
        )))
    );
    assert_eq!(lifecycle_record(&event("other", "t")), Ok(None));
    assert_eq!(
        snapshot_from_records(candidate("root"), &metadata("root"), &vec![missing_turn]),
        Err(DiscoveryError::MalformedLifecycle)
    );
}

#[test]
fn verification_evidence_is_kept_in_the_snapshot() {
    let record = obj(vec![
        ("type", text("event_msg")),
        (
            "payload",
            obj(vec![
                ("type", text("item_completed")),
                (
                    "item",
                    obj(vec![
                        ("type", text("CommandExecution")),
                        ("command", text("cargo test")),
                        ("status", text("completed")),
                        ("exit_code", JsonValue::Number("0".to_string())),
                    ]),
                ),
            ]),
        ),
    ]);
    let snapshot = snapshot_from_records(candidate("root"), &metadata("root"), &vec![record]).unwrap();
    assert_eq!(
        snapshot.verification.map(|evidence| evidence.outcome),
        Some(VerificationOutcome::Passed)
    );
}

#[test]
fn blank_titles_are_dropped() {
    let mut blank = candidate("root");
    blank.title = Some("  ".to_string());
    let snapshot = snapshot_from_records(blank, &metadata("root"), &vec![]).unwrap();
    assert_eq!(snapshot.title, None);
}

#[test]
fn discovery_errors_describe_themselves() {
    assert_eq!(
        DiscoveryError::Database("locked".into()).message(),
        "database error: locked"
    );
    assert_eq!(
        DiscoveryError::IdentityMismatch.message(),
        "rollout identity mismatch"
    );
    assert_eq!(
        DiscoveryError::MalformedLifecycle.message(),
        "malformed lifecycle record"
    );
}
