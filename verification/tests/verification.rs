use agent_hud::json::JsonValue;
use agent_hud::verification::{parse_command_execution, VerificationEvidence, VerificationOutcome};

fn text(value: &str) -> JsonValue {
    JsonValue::String(value.to_string())
}

fn obj(entries: Vec<(&str, JsonValue)>) -> JsonValue {
    JsonValue::Object(
        entries
            .into_iter()
            .map(|(key, value)| (key.to_string(), value))
            .collect(),
    )
}

fn command(command: &str, status: &str, exit_code: Option<i64>, output: &str) -> JsonValue {
    let mut item = vec![
        ("type", text("CommandExecution")),
        ("command", text(command)),
        ("status", text(status)),
        ("stdout", text(output)),
    ];
    if let Some(exit_code) = exit_code {
        item.push(("exit_code", JsonValue::Number(exit_code.to_string())));
    }
    obj(vec![
        ("type", text("event_msg")),
        (
            "payload",
            obj(vec![("type", text("item_completed")), ("item", obj(item))]),
        ),
    ])
}

#[test]
fn recognizes_successful_cargo_test_by_exit_code() {
    assert_eq!(
        parse_command_execution(&command("cargo test --all", "completed", Some(0), "")),
        Some(VerificationEvidence {
            command: "cargo test".into(),
            outcome: VerificationOutcome::Passed,
        })
    );
}

#[test]
fn recognizes_successful_output_without_exit_code() {
    let record = command(
        "cargo test",
        "completed",
        None,
        "test result: ok. 3 passed; 0 failed",
    );
    assert_eq!(
        parse_command_execution(&record).unwrap().outcome,
        VerificationOutcome::Passed
    );
}

#[test]
fn recognizes_failed_exit_code() {
    assert_eq!(
        parse_command_execution(&command("cargo check", "completed", Some(101), ""))
            .unwrap()
            .outcome,
        VerificationOutcome::Failed
    );
}

#[test]
fn ignores_running_commands() {
    assert_eq!(
        parse_command_execution(&command("cargo test", "in_progress", Some(0), "")),
        None
    );
}

#[test]
fn ignores_unrecognized_commands() {
    assert_eq!(
        parse_command_execution(&command("npm test", "completed", Some(0), "")),
        None
    );
}

#[test]
fn ignores_ambiguous_completed_output() {
    assert_eq!(
        parse_command_execution(&command(
            "cargo check",
            "completed",
            None,
            "Checking agent-hud"
        )),
        None
    );
}

#[test]
fn does_not_treat_readiness_lifecycle_as_verification() {
    assert_eq!(
        parse_command_execution(&obj(vec![
            ("type", text("event_msg")),
            ("payload", obj(vec![("type", text("task_complete"))])),
        ])),
        None
    );
}

#[test]
fn formatting_check_requires_the_check_flag() {
    assert_eq!(
        parse_command_execution(&command(
            "/usr/bin/cargo fmt --all --check",
            "completed",
            Some(0),
            ""
        ))
        .unwrap()
        .command,
        "cargo fmt --check"
    );
    assert_eq!(
        parse_command_execution(&command("cargo fmt", "completed", Some(0), "")),
        None
    );
}

#[test]
fn outcome_labels_are_stable() {
    assert_eq!(VerificationOutcome::Passed.as_str(), "passed");
    assert_eq!(VerificationOutcome::Failed.as_str(), "failed");
}
