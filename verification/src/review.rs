//! A local, presentation-independent review workflow model.
//!
//! Review state describes an external review decision only. It is deliberately
//! not derived from readiness, attention, verification, or observation health.
//! This module contains no client for a review service and performs no review
//! or merge action.

use vstd::prelude::*;

use crate::text::{opt_text_equal, str_equal};

verus! {

#[derive(Clone, Copy, Debug, PartialEq, Eq, PartialOrd, Ord, Structural)]
pub enum ReviewStatus {
    Pending,
    Approved,
    ChangesRequested,
}

impl ReviewStatus {
    /// The stable upper-case label of the status.
    pub open spec fn label(self) -> Seq<char> {
        match self {
            ReviewStatus::Pending => "PENDING"@,
            ReviewStatus::Approved => "APPROVED"@,
            ReviewStatus::ChangesRequested => "CHANGES_REQUESTED"@,
        }
    }

    pub fn as_str(self) -> (label: &'static str)
        ensures
            label@ == self.label(),
    {
        match self {
            ReviewStatus::Pending => "PENDING",
            ReviewStatus::Approved => "APPROVED",
            ReviewStatus::ChangesRequested => "CHANGES_REQUESTED",
        }
    }
}

#[derive(Debug, PartialEq, Eq)]
pub struct ReviewMetadata {
    /// The person or system that supplied the decision, when known.
    pub decided_by: Option<String>,
    /// The local/source identifier from which the review was recorded.
    pub source: String,
}

impl Clone for ReviewMetadata {
    fn clone(&self) -> (copy: Self)
        ensures
            copy == *self,
    {
        ReviewMetadata {
            decided_by: match &self.decided_by {
                Some(r) => Some(r.clone()),
                None => None,
            },
            source: self.source.clone(),
        }
    }
}

#[derive(Debug, PartialEq, Eq)]
pub struct ReviewState {
    pub status: ReviewStatus,
    pub metadata: ReviewMetadata,
}

/// The content of a review state: its status, who decided and its source.
pub open spec fn review_view(state: ReviewState) -> (ReviewStatus, Option<Seq<char>>, Seq<char>) {
    (
        state.status,
        match state.metadata.decided_by {
            Some(r) => Some(r@),
            None => None,
        },
        state.metadata.source@,
    )
}

impl Clone for ReviewState {
    fn clone(&self) -> (copy: Self)
        ensures
            copy == *self,
    {
        ReviewState { status: self.status, metadata: self.metadata.clone() }
    }
}

impl ReviewState {
    /// A pending decision, taken by nobody yet.
    pub fn pending(source: &str) -> (state: Self)
        ensures
            review_view(state) == (ReviewStatus::Pending, None::<Seq<char>>, source@),
    {
        ReviewState::new(ReviewStatus::Pending, None, source)
    }

    /// An approval by the person or system `decided_by`.
    pub fn approved(decided_by: &str, source: &str) -> (state: Self)
        ensures
            review_view(state) == (ReviewStatus::Approved, Some(decided_by@), source@),
    {
        ReviewState::new(ReviewStatus::Approved, Some(decided_by.to_owned()), source)
    }

    /// A request for changes by the person or system `decided_by`.
    pub fn changes_requested(decided_by: &str, source: &str) -> (state: Self)
        ensures
            review_view(state) == (ReviewStatus::ChangesRequested, Some(decided_by@), source@),
    {
        ReviewState::new(ReviewStatus::ChangesRequested, Some(decided_by.to_owned()), source)
    }

    pub fn new(status: ReviewStatus, decided_by: Option<String>, source: &str) -> (state: Self)
        ensures
            state.status == status,
            state.metadata.decided_by == decided_by,
            state.metadata.source@ == source@,
    {
        ReviewState { status, metadata: ReviewMetadata { decided_by, source: source.to_owned() } }
    }
}

/// Equality of two review states by content.
pub fn same_review(a: &ReviewState, b: &ReviewState) -> (equal: bool)
    ensures
        equal == (review_view(*a) == review_view(*b)),
{
    a.status == b.status && opt_text_equal(&a.metadata.decided_by, &b.metadata.decided_by) && str_equal(
        a.metadata.source.as_str(),
        b.metadata.source.as_str(),
    )
}

/// Holds the current review decision for a local workflow.
///
/// Updating this value is intentionally an in-memory model operation. It does
/// not submit a review, call a review service, or merge anything
/// automatically.
#[derive(Debug, PartialEq, Eq)]
pub struct ReviewWorkflow {
    current: ReviewState,
}

impl ReviewWorkflow {
    /// The decision held now.
    pub closed spec fn current_view(self) -> (ReviewStatus, Option<Seq<char>>, Seq<char>) {
        review_view(self.current)
    }

    /// A workflow whose decision is pending.
    pub fn new(source: &str) -> (workflow: Self)
        ensures
            workflow.current_view() == (ReviewStatus::Pending, None::<Seq<char>>, source@),
    {
        ReviewWorkflow { current: ReviewState::pending(source) }
    }

    pub fn current(&self) -> (state: &ReviewState)
        ensures
            review_view(*state) == self.current_view(),
    {
        &self.current
    }

    /// Replaces the decision; reports whether it changed.
    pub fn replace(&mut self, state: ReviewState) -> (changed: bool)
        ensures
            changed == (review_view(state) != old(self).current_view()),
            final(self).current_view() == review_view(state),
    {
        if same_review(&self.current, &state) {
            return false;
        }
        self.current = state;
        true
    }
}

} // verus!
