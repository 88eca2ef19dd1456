use agent_hud::review::{ReviewMetadata, ReviewState, ReviewStatus, ReviewWorkflow};

#[test]
fn statuses_have_stable_labels() {
    assert_eq!(ReviewStatus::Pending.as_str(), "PENDING");
    assert_eq!(ReviewStatus::Approved.as_str(), "APPROVED");
    assert_eq!(ReviewStatus::ChangesRequested.as_str(), "CHANGES_REQUESTED");
}

#[test]
fn states_preserve_reviewer_and_source_metadata() {
    assert_eq!(
        ReviewState::approved("alice", "local-fixture"),
        ReviewState {
            status: ReviewStatus::Approved,
            metadata: ReviewMetadata {
                decided_by: Some("alice".into()),
                source: "local-fixture".into(),
            },
        }
    );
    assert_eq!(ReviewState::pending("local-fixture").metadata.decided_by, None);
}

#[test]
fn workflow_starts_pending_and_replaces_only_on_change() {
    let mut workflow = ReviewWorkflow::new("fixture");
    assert_eq!(workflow.current().status, ReviewStatus::Pending);
    assert!(!workflow.replace(ReviewState::pending("fixture")));
    assert!(workflow.replace(ReviewState::changes_requested("someone", "fixture")));
    assert_eq!(
        workflow.current().metadata.decided_by.as_deref(),
        Some("someone")
    );
    assert!(workflow.replace(ReviewState::approved("someone", "fixture")));
}

#[test]
fn replacing_with_a_different_source_is_a_change() {
    let mut workflow = ReviewWorkflow::new("fixture");
    assert!(workflow.replace(ReviewState::pending("other-source")));
    assert_eq!(workflow.current().metadata.source, "other-source");
    assert!(!workflow.replace(ReviewState::pending("other-source")));
}
