//! Narrow extension contracts.
//!
//! These interfaces deliberately sit on the normalized application boundary.
//! An extension cannot receive raw session records through these contracts,
//! and the presentation does not need to know which provider produced a
//! session.

use vstd::prelude::*;

use crate::model::{SessionChange, SessionViewModel};

verus! {

#[derive(Debug, PartialEq, Eq)]
pub struct ExtensionDescriptor {
    pub id: String,
    pub display_name: String,
}

impl ExtensionDescriptor {
    pub fn new(id: &str, display_name: &str) -> (descriptor: Self)
        ensures
            descriptor.id@ == id@,
            descriptor.display_name@ == display_name@,
    {
        ExtensionDescriptor { id: id.to_owned(), display_name: display_name.to_owned() }
    }
}

impl Clone for ExtensionDescriptor {
    fn clone(&self) -> (copy: Self)
        ensures
            copy == *self,
    {
        ExtensionDescriptor { id: self.id.clone(), display_name: self.display_name.clone() }
    }
}

/// A source of normalized session changes.
///
/// `next_event` may block until the provider has a meaningful event. This
/// keeps event-driven sources event-driven without imposing an async runtime
/// or a polling interval on the application.
pub trait SessionObserver {
    fn descriptor(&self) -> &ExtensionDescriptor;

    fn next_event(&mut self) -> Result<ObserverEvent, ObserverError>;
}

#[derive(Debug, PartialEq, Eq)]
pub enum ObserverEvent {
    Change(Box<SessionChange>),
    Disconnected,
    Terminated,
}

#[derive(Debug, PartialEq, Eq)]
pub struct ObserverError {
    pub message: String,
    pub retryable: bool,
}

impl ObserverError {
    pub fn new(message: &str, retryable: bool) -> (error: Self)
        ensures
            error.message@ == message@,
            error.retryable == retryable,
    {
        ObserverError { message: message.to_owned(), retryable }
    }
}

#[derive(Debug, PartialEq, Eq)]
pub struct PresentationContribution {
    pub key: String,
    pub value: String,
    pub priority: u16,
}

impl PresentationContribution {
    pub fn new(key: &str, value: &str, priority: u16) -> (contribution: Self)
        ensures
            contribution.key@ == key@,
            contribution.value@ == value@,
            contribution.priority == priority,
    {
        PresentationContribution { key: key.to_owned(), value: value.to_owned(), priority }
    }
}

/// Adds bounded, already-formatted information to a session row.
pub trait PresentationContributor {
    fn descriptor(&self) -> &ExtensionDescriptor;

    fn contribute(&self, session: &SessionViewModel) -> Option<PresentationContribution>;
}

#[derive(Debug, PartialEq, Eq)]
pub struct ActionDescriptor {
    pub id: String,
    pub display_name: String,
    pub requires_confirmation: bool,
}

impl ActionDescriptor {
    pub fn new(id: &str, display_name: &str, requires_confirmation: bool) -> (descriptor: Self)
        ensures
            descriptor.id@ == id@,
            descriptor.display_name@ == display_name@,
            descriptor.requires_confirmation == requires_confirmation,
    {
        ActionDescriptor {
            id: id.to_owned(),
            display_name: display_name.to_owned(),
            requires_confirmation,
        }
    }
}

#[derive(Debug, PartialEq, Eq)]
pub struct ActionRequest {
    pub action_id: String,
    pub session_id: Option<String>,
}

impl ActionRequest {
    pub fn new(action_id: &str, session_id: Option<String>) -> (request: Self)
        ensures
            request.action_id@ == action_id@,
            request.session_id == session_id,
    {
        ActionRequest { action_id: action_id.to_owned(), session_id }
    }
}

#[derive(Debug, PartialEq, Eq)]
pub struct ActionOutcome {
    pub summary: String,
}

#[derive(Debug, PartialEq, Eq)]
pub struct ActionError {
    pub message: String,
}

/// An explicitly invoked capability. Actions are not part of observation and
/// must not be called implicitly in response to an observer event.
pub trait ExplicitAction {
    fn descriptor(&self) -> &ActionDescriptor;

    fn invoke(&mut self, request: ActionRequest) -> Result<ActionOutcome, ActionError>;
}

} // verus!
