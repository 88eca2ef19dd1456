use agent_hud::queue::{Queue, QueueError, QueueItem, QueueItemState};

fn item(id: &str) -> QueueItem {
    QueueItem::new(id, &format!("Task {id}"))
}

#[test]
fn enqueue_preserves_explicit_order_and_lookup_is_deterministic() {
    let mut queue = Queue::new();
    queue.enqueue(item("a")).unwrap();
    queue.enqueue(item("b")).unwrap();
    queue.enqueue(item("c")).unwrap();

    assert_eq!(
        queue
            .items()
            .iter()
            .map(|item| item.id.as_str())
            .collect::<Vec<_>>(),
        ["a", "b", "c"]
    );
    assert_eq!(
        queue.get("b").map(|item| item.label.as_str()),
        Some("Task b")
    );
}

#[test]
fn duplicate_ids_are_rejected_without_changing_queue() {
    let mut queue = Queue::new();
    queue.enqueue(item("a")).unwrap();

    assert_eq!(
        queue.enqueue(item("a")),
        Err(QueueError::DuplicateId("a".into()))
    );
    assert_eq!(queue.items(), &[item("a")]);
}

#[test]
fn reorder_moves_only_the_requested_item() {
    let mut queue = Queue::new();
    for id in ["a", "b", "c"] {
        queue.enqueue(item(id)).unwrap();
    }

    queue.reorder("c", 0).unwrap();
    assert_eq!(
        queue
            .items()
            .iter()
            .map(|item| item.id.as_str())
            .collect::<Vec<_>>(),
        ["c", "a", "b"]
    );
}

#[test]
fn remove_returns_item_and_closes_the_gap() {
    let mut queue = Queue::new();
    for id in ["a", "b", "c"] {
        queue.enqueue(item(id)).unwrap();
    }

    assert_eq!(queue.remove("b"), Some(item("b")));
    assert_eq!(
        queue
            .items()
            .iter()
            .map(|item| item.id.as_str())
            .collect::<Vec<_>>(),
        ["a", "c"]
    );
    assert_eq!(queue.remove("missing"), None);
}

#[test]
fn update_changes_item_data_without_changing_membership_or_order() {
    let mut queue = Queue::new();
    queue.enqueue(item("a")).unwrap();
    queue.enqueue(item("b")).unwrap();
    let mut updated = item("a");
    updated.label = "Updated task".into();
    updated.dependency_ids = vec!["external-task".into()];

    queue.update("a", updated.clone()).unwrap();
    assert_eq!(queue.items(), &[updated, item("b")]);
}

#[test]
fn state_updates_are_independent_from_readiness() {
    let mut queue = Queue::new();
    queue.enqueue(item("a")).unwrap();

    queue.update_state("a", QueueItemState::Blocked).unwrap();
    assert_eq!(queue.get("a").unwrap().state, QueueItemState::Blocked);
    assert_eq!(queue.get("a").unwrap().dependency_ids, Vec::<String>::new());
}

#[test]
fn reorder_reports_each_refusal_without_changing_queue() {
    let mut queue = Queue::new();
    queue.enqueue(item("a")).unwrap();
    queue.enqueue(item("b")).unwrap();
    assert_eq!(
        queue.reorder("a", 2),
        Err(QueueError::PositionOutOfBounds { position: 2, len: 2 })
    );
    assert_eq!(
        queue.reorder("missing", 1),
        Err(QueueError::NotFound("missing".into()))
    );
    assert_eq!(queue.items(), &[item("a"), item("b")]);
    queue.reorder("a", 1).unwrap();
    assert_eq!(queue.items(), &[item("b"), item("a")]);
}

#[test]
fn update_refuses_mismatched_or_unknown_identifiers() {
    let mut queue = Queue::new();
    queue.enqueue(item("a")).unwrap();
    assert_eq!(
        queue.update("a", item("b")),
        Err(QueueError::IdMismatch {
            expected: "a".into(),
            actual: "b".into(),
        })
    );
    assert_eq!(
        queue.update("b", item("b")),
        Err(QueueError::NotFound("b".into()))
    );
    assert_eq!(
        queue.update_state("b", QueueItemState::Active),
        Err(QueueError::NotFound("b".into()))
    );
    assert_eq!(queue.items(), &[item("a")]);
}

#[test]
fn queue_errors_describe_themselves() {
    assert_eq!(
        QueueError::DuplicateId("a".into()).message(),
        "queue item ID already exists: a"
    );
    assert_eq!(
        QueueError::NotFound("b".into()).message(),
        "queue item ID was not found: b"
    );
    assert_eq!(
        QueueError::PositionOutOfBounds {
            position: 12,
            len: 3
        }
        .message(),
        "queue position 12 is out of bounds for 3 items"
    );
    assert_eq!(
        QueueError::IdMismatch {
            expected: "a".into(),
            actual: "b".into()
        }
        .message(),
        "queue update ID b does not match a"
    );
}
