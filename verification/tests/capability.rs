use agent_hud::capability::{
    CapabilityId, CapabilityStatus, ObserverCapability, ObserverCapabilityRegistry,
};

fn capability(id: &str, status: CapabilityStatus, reason: Option<&str>) -> ObserverCapability {
    ObserverCapability::new(id, status, "protocol fixture", reason)
}

#[test]
fn represents_all_three_support_levels_and_reason() {
    let mut registry = ObserverCapabilityRegistry::default();
    registry.register(capability("sessions", CapabilityStatus::Supported, None));
    registry.register(capability(
        "activity",
        CapabilityStatus::Degraded,
        Some("activity events are coarse"),
    ));
    registry.register(capability(
        "approvals",
        CapabilityStatus::Unavailable,
        Some("passive observation is not exposed"),
    ));

    assert_eq!(registry.len(), 3);
    assert_eq!(
        registry.get(&CapabilityId::from("sessions")).unwrap().status,
        CapabilityStatus::Supported
    );
    assert_eq!(
        registry
            .get(&CapabilityId::from("activity"))
            .unwrap()
            .reason
            .as_deref(),
        Some("activity events are coarse")
    );
    assert_eq!(
        registry.get(&CapabilityId::from("approvals")).unwrap().status,
        CapabilityStatus::Unavailable
    );
}

#[test]
fn replacement_is_scoped_to_the_same_capability_identity() {
    let mut registry = ObserverCapabilityRegistry::default();
    assert!(registry
        .register(capability(
            "activity",
            CapabilityStatus::Unavailable,
            Some("offline")
        ))
        .is_none());
    let previous = registry
        .register(capability("activity", CapabilityStatus::Supported, None))
        .unwrap();

    assert_eq!(previous.status, CapabilityStatus::Unavailable);
    assert_eq!(registry.len(), 1);
    assert_eq!(
        registry.get(&CapabilityId::from("activity")).unwrap().status,
        CapabilityStatus::Supported
    );
}

#[test]
fn iteration_is_deterministically_sorted_by_capability_identity() {
    let mut registry = ObserverCapabilityRegistry::default();
    registry.register(capability("z-last", CapabilityStatus::Supported, None));
    registry.register(capability("a-first", CapabilityStatus::Supported, None));

    let ids: Vec<_> = registry
        .iter()
        .map(|capability| capability.id.as_str())
        .collect();
    assert_eq!(ids, ["a-first", "z-last"]);
}

#[test]
fn capability_model_has_no_session_state_fields() {
    let capability = capability("readiness", CapabilityStatus::Degraded, Some("fixture"));

    assert_eq!(capability.evidence_source.as_str(), "protocol fixture");
    assert_eq!(capability.status.as_str(), "DEGRADED");
    assert_eq!(capability.reason.as_deref(), Some("fixture"));
}

#[test]
fn registry_starts_empty_and_lookup_of_unknown_identity_is_none() {
    let registry = ObserverCapabilityRegistry::default();
    assert!(registry.is_empty());
    assert_eq!(registry.len(), 0);
    assert!(registry.get(&CapabilityId::new("missing")).is_none());
}

#[test]
fn labels_of_all_support_levels_are_stable() {
    assert_eq!(CapabilityStatus::Supported.as_str(), "SUPPORTED");
    assert_eq!(CapabilityStatus::Degraded.as_str(), "DEGRADED");
    assert_eq!(CapabilityStatus::Unavailable.as_str(), "UNAVAILABLE");
}
