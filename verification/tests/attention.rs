use agent_hud::attention::{AttentionCategory, AttentionCenter, AttentionItem};

fn item(id: &str, session_id: &str, category: AttentionCategory) -> AttentionItem {
    AttentionItem {
        id: id.into(),
        session_id: session_id.into(),
        category,
        title: id.into(),
        detail: None,
    }
}

#[test]
fn categories_have_stable_labels() {
    assert_eq!(AttentionCategory::Failure.as_str(), "FAILURE");
    assert_eq!(
        AttentionCategory::UserActionRequired.as_str(),
        "USER_ACTION_REQUIRED"
    );
}

#[test]
fn replace_is_sorted_and_reports_only_real_changes() {
    let mut center = AttentionCenter::default();
    let items = vec![
        item("merge", "b", AttentionCategory::MergeReady),
        item("failure", "a", AttentionCategory::Failure),
    ];
    assert!(center.replace(items.clone()));
    assert_eq!(center.items()[0].id, "failure");
    assert!(!center.replace(items));
}

#[test]
fn removing_a_session_does_not_remove_other_attention() {
    let mut center = AttentionCenter::default();
    center.replace(vec![
        item("a", "session-a", AttentionCategory::Failure),
        item("b", "session-b", AttentionCategory::ReviewRequired),
    ]);

    assert!(center.remove_session("session-a"));
    assert_eq!(
        center
            .items()
            .iter()
            .map(|item| item.id.as_str())
            .collect::<Vec<_>>(),
        ["b"]
    );
    assert!(!center.remove_session("missing"));
}

#[test]
fn attention_order_is_category_then_session_then_id() {
    let mut center = AttentionCenter::new();
    center.replace(vec![
        item("z", "b", AttentionCategory::Failure),
        item("y", "a", AttentionCategory::ReviewRequired),
        item("x", "b", AttentionCategory::Failure),
        item("w", "a", AttentionCategory::Failure),
    ]);
    assert_eq!(
        center
            .items()
            .iter()
            .map(|item| item.id.as_str())
            .collect::<Vec<_>>(),
        ["w", "x", "z", "y"]
    );
}
