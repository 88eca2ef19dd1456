//! Recorded readiness of a root/user session, reduced from lifecycle records.

use vstd::prelude::*;

use crate::text::str_equal;

verus! {

/// Product-facing readiness of one session.
#[derive(Clone, Copy, Debug, PartialEq, Eq, Structural)]
pub enum Readiness {
    Working,
    Ready,
    Unknown,
}

impl Readiness {
    /// The stable upper-case label of the readiness value.
    pub open spec fn label(self) -> Seq<char> {
        match self {
            Readiness::Working => "WORKING"@,
            Readiness::Ready => "READY"@,
            Readiness::Unknown => "UNKNOWN"@,
        }
    }

    pub fn as_str(self) -> (label: &'static str)
        ensures
            label@ == self.label(),
    {
        match self {
            Readiness::Working => "WORKING",
            Readiness::Ready => "READY",
            Readiness::Unknown => "UNKNOWN",
        }
    }
}

#[derive(Clone, Copy, Debug, PartialEq, Eq, Structural)]
pub enum LifecycleKind {
    TaskStarted,
    TaskComplete,
}

/// One validated root/user lifecycle fact, in rollout source order.
#[derive(Clone, Copy, Debug)]
pub struct LifecycleEvent<'a> {
    pub kind: LifecycleKind,
    pub turn_id: &'a str,
}

/// The reducer state: the current readiness and the turn that last started.
pub struct LifecycleState {
    pub readiness: Readiness,
    pub active_turn: Option<Seq<char>>,
}

pub open spec fn initial_lifecycle_state() -> LifecycleState {
    LifecycleState { readiness: Readiness::Unknown, active_turn: None }
}

/// One reduction step. A start makes its turn active and the session working;
/// a completion of the active turn makes it ready; a completion of any other
/// turn is ambiguous and yields `Unknown` while the active turn stays recorded.
pub open spec fn lifecycle_step(
    state: LifecycleState,
    kind: LifecycleKind,
    turn: Seq<char>,
) -> LifecycleState {
    match kind {
        LifecycleKind::TaskStarted => LifecycleState {
            readiness: Readiness::Working,
            active_turn: Some(turn),
        },
        LifecycleKind::TaskComplete => if state.active_turn == Some(turn) {
            LifecycleState { readiness: Readiness::Ready, active_turn: state.active_turn }
        } else {
            LifecycleState { readiness: Readiness::Unknown, active_turn: state.active_turn }
        },
    }
}

/// The reducer applied to a whole sequence of `(kind, turn)` facts.
pub open spec fn lifecycle_fold(events: Seq<(LifecycleKind, Seq<char>)>) -> LifecycleState
    decreases events.len(),
{
    if events.len() == 0 {
        initial_lifecycle_state()
    } else {
        let last = events.last();
        lifecycle_step(lifecycle_fold(events.drop_last()), last.0, last.1)
    }
}

pub open spec fn event_facts(events: Seq<LifecycleEvent>) -> Seq<(LifecycleKind, Seq<char>)> {
    events.map_values(|e: LifecycleEvent| (e.kind, e.turn_id@))
}

/// Reduces only validated root/user lifecycle facts in rollout source order.
/// Item completions and every other rollout event intentionally have no effect.
/// A completion for another turn is ambiguous and therefore fails closed.
pub fn reduce_lifecycle(events: &[LifecycleEvent]) -> (readiness: Readiness)
    ensures
        readiness == lifecycle_fold(event_facts(events@)).readiness,
{
    let mut readiness = Readiness::Unknown;
    let mut active_turn: Option<&str> = None;
    let mut index: usize = 0;
    while index < events.len()
        invariant
            index <= events.len(),
            readiness == lifecycle_fold(event_facts(events@.take(index as int))).readiness,
            match active_turn {
                Some(turn) => lifecycle_fold(event_facts(events@.take(index as int))).active_turn
                    == Some(turn@),
                None => lifecycle_fold(event_facts(events@.take(index as int))).active_turn
                    is None,
            },
        decreases events.len() - index,
    {
        let event = events[index];
        proof {
            assert(events@.take(index + 1).drop_last() =~= events@.take(index as int));
            assert(event_facts(events@.take(index + 1)).drop_last() =~= event_facts(
                events@.take(index as int),
            ));
        }
        match event.kind {
            LifecycleKind::TaskStarted => {
                active_turn = Some(event.turn_id);
                readiness = Readiness::Working;
            },
            LifecycleKind::TaskComplete => {
                let matches = match active_turn {
                    Some(turn) => str_equal(turn, event.turn_id),
                    None => false,
                };
                if matches {
                    readiness = Readiness::Ready;
                } else {
                    readiness = Readiness::Unknown;
                }
            },
        }
        index = index + 1;
    }
    proof {
        assert(events@.take(events.len() as int) =~= events@);
    }
    readiness
}

/// With no lifecycle facts the readiness is `Unknown`.
pub proof fn lemma_no_events_is_unknown()
    ensures
        lifecycle_fold(Seq::empty()).readiness == Readiness::Unknown,
{
}

/// Reduction is incremental: reducing a longer history is one step from the
/// reduction of its prefix.
pub proof fn lemma_fold_append(events: Seq<(LifecycleKind, Seq<char>)>, kind: LifecycleKind, turn: Seq<char>)
    ensures
        lifecycle_fold(events.push((kind, turn))) == lifecycle_step(lifecycle_fold(events), kind, turn),
{
    assert(events.push((kind, turn)).drop_last() =~= events);
}

/// A start always supersedes whatever came before it: the session is working.
pub proof fn lemma_latest_start_is_working(events: Seq<(LifecycleKind, Seq<char>)>, turn: Seq<char>)
    ensures
        lifecycle_fold(events.push((LifecycleKind::TaskStarted, turn))).readiness == Readiness::Working,
{
    lemma_fold_append(events, LifecycleKind::TaskStarted, turn);
}

/// A completion of the turn that was started last makes the session ready,
/// whatever preceded that start.
pub proof fn lemma_matching_completion_is_ready(
    events: Seq<(LifecycleKind, Seq<char>)>,
    turn: Seq<char>,
)
    ensures
        lifecycle_fold(
            events.push((LifecycleKind::TaskStarted, turn)).push((LifecycleKind::TaskComplete, turn)),
        ).readiness == Readiness::Ready,
{
    lemma_fold_append(events, LifecycleKind::TaskStarted, turn);
    lemma_fold_append(
        events.push((LifecycleKind::TaskStarted, turn)),
        LifecycleKind::TaskComplete,
        turn,
    );
}

/// A completion for a turn other than the active one fails closed to `Unknown`.
pub proof fn lemma_stale_completion_is_unknown(
    events: Seq<(LifecycleKind, Seq<char>)>,
    turn: Seq<char>,
)
    requires
        lifecycle_fold(events).active_turn != Some(turn),
    ensures
        lifecycle_fold(events.push((LifecycleKind::TaskComplete, turn))).readiness
            == Readiness::Unknown,
{
    lemma_fold_append(events, LifecycleKind::TaskComplete, turn);
}

/// Only a matching completion can make a session ready: a `Ready` result
/// always ends in a completion of the active turn.
pub proof fn lemma_ready_requires_matching_completion(events: Seq<(LifecycleKind, Seq<char>)>)
    requires
        lifecycle_fold(events).readiness == Readiness::Ready,
    ensures
        events.len() > 0,
        events.last().0 == LifecycleKind::TaskComplete,
        lifecycle_fold(events.drop_last()).active_turn == Some(events.last().1),
{
}

} // verus!
