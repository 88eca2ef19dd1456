use agent_hud::extensions::{
    ActionDescriptor, ActionRequest, ExtensionDescriptor, ObserverError, ObserverEvent,
    PresentationContribution, PresentationContributor, SessionObserver,
};
use agent_hud::model::SessionViewModel;
use agent_hud::readiness::Readiness;

struct FixtureObserver {
    descriptor: ExtensionDescriptor,
}

impl SessionObserver for FixtureObserver {
    fn descriptor(&self) -> &ExtensionDescriptor {
        &self.descriptor
    }

    fn next_event(&mut self) -> Result<ObserverEvent, ObserverError> {
        Ok(ObserverEvent::Disconnected)
    }
}

struct FixtureContributor {
    descriptor: ExtensionDescriptor,
}

impl PresentationContributor for FixtureContributor {
    fn descriptor(&self) -> &ExtensionDescriptor {
        &self.descriptor
    }

    fn contribute(&self, session: &SessionViewModel) -> Option<PresentationContribution> {
        Some(PresentationContribution::new(
            "readiness",
            session.readiness.as_str(),
            10,
        ))
    }
}

#[test]
fn observer_contract_delivers_normalized_lifecycle_events() {
    let mut observer = FixtureObserver {
        descriptor: ExtensionDescriptor::new("fixture", "Fixture observer"),
    };
    assert_eq!(observer.descriptor().id, "fixture");
    assert_eq!(observer.next_event().unwrap(), ObserverEvent::Disconnected);
}

#[test]
fn contributor_contract_consumes_normalized_session_state() {
    let contributor = FixtureContributor {
        descriptor: ExtensionDescriptor::new("fixture", "Fixture contributor"),
    };
    let session = SessionViewModel {
        id: "session-1".into(),
        title: None,
        project_identity: None,
        readiness: Readiness::Working,
        latest_result: None,
        needs_attention: false,
        recency_at_ms: 0,
        changed_files: Vec::new(),
        verification: None,
    };
    assert_eq!(contributor.descriptor().display_name, "Fixture contributor");
    assert_eq!(
        contributor.contribute(&session),
        Some(PresentationContribution::new("readiness", "WORKING", 10))
    );
}

#[test]
fn action_requests_are_explicit_and_session_scoped() {
    let descriptor = ActionDescriptor::new("open-session", "Open session", true);
    let request = ActionRequest::new("open-session", Some("session-1".into()));
    assert!(descriptor.requires_confirmation);
    assert_eq!(request.action_id, descriptor.id);
    assert_eq!(request.session_id.as_deref(), Some("session-1"));
}

#[test]
fn observer_errors_keep_message_and_retry_hint() {
    let error = ObserverError::new("source went away", true);
    assert_eq!(error.message, "source went away");
    assert!(error.retryable);
}
