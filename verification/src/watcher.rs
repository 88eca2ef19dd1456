//! Incremental reading of one validated rollout.
//!
//! The reader keeps the byte offset it has consumed, the bytes of a line that
//! is not complete yet, and the normalized facts of the records seen so far.
//! Bytes are handed over as they are read from disk; complete lines are taken
//! out one at a time, parsed as JSON, and applied as records.

use vstd::prelude::*;

use crate::discovery::{
    add_all_recent, append_changed_files, assistant_result, assistant_text, evidence_view,
    file_change_paths, file_changes, lifecycle_fact, lifecycle_record, metadata_verdict,
    string_views, validate_metadata, DiscoveryError,
};
use crate::discovery::SessionSnapshot;
use crate::paths::{file_name, file_name_str, same_path, same_path_str};
use crate::json::{json_error_message, json_of_bytes, parse_json_bytes, JsonValue};
use crate::model::{SessionChange, SessionViewModel};
use crate::order::{
    first_match, lemma_first_match, lemma_first_match_at, lemma_lex_order,
    lemma_strictly_sorted_insert, lemma_strictly_sorted_remove, lex_lt, lex_order, strictly_sorted,
    text_less,
};
use crate::readiness::{lifecycle_step, LifecycleKind, LifecycleState, Readiness};
use crate::text::{
    chars_of, copy_opt, copy_strings, opt_chars, opt_text_equal, str_equal, sub_chars,
};
use crate::verification::{
    command_evidence, copy_opt_evidence, parse_command_execution, VerificationEvidence,
    VerificationOutcome,
};

verus! {

/// What one append to a rollout means for its observer.
#[derive(Clone, Copy, Debug, PartialEq, Eq, Structural)]
pub enum RolloutUpdate {
    Changed,
    NoChange,
    Reconcile,
}

/// Whether a byte ends a line.
pub open spec fn is_newline(b: u8) -> bool {
    b == 10u8
}

/// The test for a line break.
pub open spec fn newline_test() -> spec_fn(u8) -> bool {
    |b: u8| is_newline(b)
}

/// The next non-empty complete line of `pending` and what follows it. Empty
/// lines are dropped on the way; when no complete line remains, only the
/// leading empty lines are consumed.
pub open spec fn next_line_of(pending: Seq<u8>) -> (Option<Seq<u8>>, Seq<u8>)
    decreases pending.len(),
{
    if pending.len() > 0 && is_newline(pending[0]) {
        next_line_of(pending.skip(1))
    } else {
        match first_match(pending, newline_test()) {
            None => (None, pending),
            Some(i) => (Some(pending.take(i as int)), pending.skip(i + 1 as int)),
        }
    }
}

/// A complete line is never empty, holds no line break, and consuming it
/// shortens the pending bytes.
pub proof fn lemma_next_line_shape(pending: Seq<u8>)
    ensures
        next_line_of(pending).1.len() <= pending.len(),
        next_line_of(pending).0 matches Some(line) ==> {
            &&& line.len() > 0
            &&& next_line_of(pending).1.len() < pending.len()
            &&& forall|j: int| 0 <= j < line.len() ==> !is_newline(#[trigger] line[j])
        },
        next_line_of(pending).0 is None ==> forall|j: int|
            0 <= j < next_line_of(pending).1.len() ==> !is_newline(
                #[trigger] next_line_of(pending).1[j],
            ),
    decreases pending.len(),
{
    if pending.len() > 0 && is_newline(pending[0]) {
        lemma_next_line_shape(pending.skip(1));
    } else {
        lemma_first_match(pending, newline_test());
        match first_match(pending, newline_test()) {
            None => {},
            Some(i) => {
                assert forall|j: int| 0 <= j < pending.take(i as int).len() implies !is_newline(
                    #[trigger] pending.take(i as int)[j],
                ) by {
                    assert(pending.take(i as int)[j] == pending[j]);
                }
            },
        }
    }
}

/// All complete lines of `pending`, in order, and the bytes left over.
pub open spec fn drain_lines(pending: Seq<u8>) -> (Seq<Seq<u8>>, Seq<u8>)
    decreases pending.len(),
{
    let (line, rest) = next_line_of(pending);
    match line {
        None => (Seq::empty(), rest),
        Some(l) => {
            proof {
                lemma_next_line_shape(pending);
            }
            let (more, left) = drain_lines(rest);
            (seq![l] + more, left)
        },
    }
}

/// Appending bytes after a complete line leaves that line unchanged.
proof fn lemma_next_line_extend(pending: Seq<u8>, more: Seq<u8>)
    requires
        next_line_of(pending).0 is Some,
    ensures
        next_line_of(pending + more) == (next_line_of(pending).0, next_line_of(pending).1 + more),
    decreases pending.len(),
{
    let whole = pending + more;
    if pending.len() > 0 && is_newline(pending[0]) {
        assert(whole.skip(1) =~= pending.skip(1) + more);
        lemma_next_line_extend(pending.skip(1), more);
    } else {
        let nl = newline_test();
        lemma_first_match(pending, nl);
        let i = first_match(pending, nl)->0 as int;
        assert forall|j: int| 0 <= j < i implies !nl(#[trigger] whole[j]) by {
            assert(whole[j] == pending[j]);
        }
        assert(whole[i] == pending[i]);
        lemma_first_match_at(whole, nl, i);
        assert(whole.take(i) =~= pending.take(i));
        assert(whole.skip(i + 1) =~= pending.skip(i + 1) + more);
    }
}

/// Without a complete line, only leading line breaks are consumed, so later
/// bytes are read as if they followed the remainder directly.
proof fn lemma_next_line_incomplete(pending: Seq<u8>, more: Seq<u8>)
    requires
        next_line_of(pending).0 is None,
    ensures
        next_line_of(pending + more) == next_line_of(next_line_of(pending).1 + more),
    decreases pending.len(),
{
    let whole = pending + more;
    if pending.len() > 0 && is_newline(pending[0]) {
        assert(whole.skip(1) =~= pending.skip(1) + more);
        lemma_next_line_incomplete(pending.skip(1), more);
    } else {
        assert(next_line_of(pending).1 == pending);
    }
}

/// Reading a stream in two pieces yields the same complete lines, in the same
/// order, as reading it at once: a line split across the pieces is held back
/// until its end arrives and then read whole.
pub proof fn lemma_drain_lines_split(first: Seq<u8>, second: Seq<u8>)
    ensures
        drain_lines(first + second) == (
            drain_lines(first).0 + drain_lines(drain_lines(first).1 + second).0,
            drain_lines(drain_lines(first).1 + second).1,
        ),
    decreases first.len(),
{
    let whole = first + second;
    lemma_next_line_shape(first);
    match next_line_of(first).0 {
        None => {
            lemma_next_line_incomplete(first, second);
            let rest = next_line_of(first).1;
            assert(drain_lines(first).0 =~= Seq::<Seq<u8>>::empty());
            assert(drain_lines(first).1 == rest);
            lemma_next_line_shape(rest + second);
            lemma_next_line_shape(whole);
            assert(drain_lines(whole) == drain_lines(rest + second));
            assert(Seq::<Seq<u8>>::empty() + drain_lines(rest + second).0 =~= drain_lines(
                rest + second,
            ).0);
        },
        Some(line) => {
            lemma_next_line_extend(first, second);
            let rest = next_line_of(first).1;
            lemma_drain_lines_split(rest, second);
            lemma_next_line_shape(whole);
            assert(drain_lines(whole).0 == seq![line] + drain_lines(rest + second).0);
            assert(drain_lines(first).0 == seq![line] + drain_lines(rest).0);
            assert(seq![line] + (drain_lines(rest).0 + drain_lines(drain_lines(rest).1 + second).0)
                =~= (seq![line] + drain_lines(rest).0) + drain_lines(
                drain_lines(rest).1 + second,
            ).0);
        },
    }
}

/// The normalized facts a reader publishes.
pub struct FactsView {
    pub readiness: Readiness,
    pub result: Option<Seq<char>>,
    pub files: Seq<Seq<char>>,
    pub verification: Option<(Seq<char>, VerificationOutcome)>,
}

/// Everything an incremental reader has established.
pub struct RolloutView {
    pub offset: nat,
    pub partial: Seq<u8>,
    pub active_turn: Option<Seq<char>>,
    pub readiness: Readiness,
    pub timestamp: Option<Seq<char>>,
    pub result: Option<Seq<char>>,
    pub files: Seq<Seq<char>>,
    pub verification: Option<(Seq<char>, VerificationOutcome)>,
}

impl RolloutView {
    pub open spec fn facts(self) -> FactsView {
        FactsView {
            readiness: self.readiness,
            result: self.result,
            files: self.files,
            verification: self.verification,
        }
    }
}

/// The state of a reader that has read nothing.
pub open spec fn fresh_rollout() -> RolloutView {
    RolloutView {
        offset: 0,
        partial: Seq::empty(),
        active_turn: None,
        readiness: Readiness::Unknown,
        timestamp: None,
        result: None,
        files: Seq::empty(),
        verification: None,
    }
}

/// A `session_meta` record read while no turn is known re-identifies the
/// rollout instead of contributing facts.
pub open spec fn is_metadata_recheck(state: RolloutView, record: JsonValue) -> bool {
    &&& state.offset > 0
    &&& state.active_turn is None
    &&& state.readiness == Readiness::Unknown
    &&& record.member_is("type"@, "session_meta"@)
}

/// The changed files, verification evidence and assistant result of a record
/// taken into account.
pub open spec fn record_facts(state: RolloutView, record: JsonValue) -> RolloutView {
    RolloutView {
        files: add_all_recent(state.files, file_changes(record)),
        verification: match command_evidence(record) {
            Some(e) => Some(e),
            None => state.verification,
        },
        result: match assistant_text(record) {
            Some(r) => Some(r),
            None => state.result,
        },
        ..state
    }
}

/// A lifecycle fact taken into account: its timestamp is kept and the
/// readiness reducer takes one step.
pub open spec fn lifecycle_applied(
    state: RolloutView,
    kind: LifecycleKind,
    turn: Seq<char>,
    timestamp: Option<Seq<char>>,
) -> RolloutView {
    let next = lifecycle_step(
        LifecycleState { readiness: state.readiness, active_turn: state.active_turn },
        kind,
        turn,
    );
    RolloutView {
        timestamp,
        readiness: next.readiness,
        active_turn: next.active_turn,
        ..state
    }
}

/// The reader's state after one record, and whether the record was accepted.
/// A malformed lifecycle record is refused after its other facts were noted.
pub open spec fn record_outcome(state: RolloutView, expected_id: Seq<char>, record: JsonValue) -> (
    RolloutView,
    Result<(), DiscoveryError>,
) {
    if is_metadata_recheck(state, record) {
        (state, metadata_verdict(record, expected_id))
    } else {
        let noted = record_facts(state, record);
        match lifecycle_fact(record) {
            Err(e) => (noted, Err(e)),
            Ok(None) => (noted, Ok(())),
            Ok(Some((kind, turn, timestamp))) => (
                lifecycle_applied(noted, kind, turn, timestamp),
                Ok(()),
            ),
        }
    }
}

/// What reading the pending complete lines does to a reader: each non-empty
/// line is parsed and its record applied in turn. Reading stops at a line that
/// is not JSON (`Err(None)`) or at a refused record (`Err(Some(..))`), and the
/// lines after it stay pending.
pub open spec fn read_pending(state: RolloutView, expected_id: Seq<char>) -> (
    RolloutView,
    Result<(), Option<DiscoveryError>>,
)
    decreases state.partial.len(),
{
    let (line, rest) = next_line_of(state.partial);
    let taken = RolloutView { partial: rest, ..state };
    match line {
        None => (taken, Ok(())),
        Some(l) => match json_of_bytes(l) {
            None => (taken, Err(None)),
            Some(record) => {
                let (next, verdict) = record_outcome(taken, expected_id, record);
                match verdict {
                    Err(e) => (next, Err(Some(e))),
                    Ok(()) => {
                        proof {
                            lemma_next_line_shape(state.partial);
                            assert(next.partial == rest);
                        }
                        read_pending(next, expected_id)
                    },
                }
            },
        },
    }
}

/// A reader that has taken `bytes` past its offset and not yet read them.
pub open spec fn with_appended(state: RolloutView, bytes: Seq<u8>) -> RolloutView {
    RolloutView { offset: state.offset + bytes.len(), partial: state.partial + bytes, ..state }
}

/// The error a reader reports for the outcome of reading its pending lines.
pub open spec fn read_reported(verdict: Result<(), Option<DiscoveryError>>, result: Result<(), DiscoveryError>) -> bool {
    match verdict {
        Ok(()) => result is Ok,
        Err(Some(e)) => result == Err::<(), DiscoveryError>(e),
        Err(None) => result matches Err(DiscoveryError::Json(_)),
    }
}

/// A reader's state with `extra` more bytes counted and `more` bytes pending
/// behind what was pending.
pub open spec fn shifted(state: RolloutView, extra: nat, more: Seq<u8>) -> RolloutView {
    RolloutView { offset: state.offset + extra, partial: state.partial + more, ..state }
}

/// Reading pending lines never moves the offset.
proof fn lemma_read_keeps_offset(state: RolloutView, expected_id: Seq<char>)
    ensures
        read_pending(state, expected_id).0.offset == state.offset,
    decreases state.partial.len(),
{
    let (line, rest) = next_line_of(state.partial);
    let taken = RolloutView { partial: rest, ..state };
    match line {
        None => {},
        Some(l) => match json_of_bytes(l) {
            None => {},
            Some(record) => {
                let (next, verdict) = record_outcome(taken, expected_id, record);
                if verdict is Ok {
                    lemma_next_line_shape(state.partial);
                    lemma_read_keeps_offset(next, expected_id);
                }
            },
        },
    }
}

/// Applying a record does not look at the pending bytes, and looks at the
/// offset only to know whether anything was read.
proof fn lemma_record_outcome_shifted(
    state: RolloutView,
    expected_id: Seq<char>,
    record: JsonValue,
    extra: nat,
    more: Seq<u8>,
)
    requires
        state.offset > 0,
    ensures
        record_outcome(shifted(state, extra, more), expected_id, record) == (
            shifted(record_outcome(state, expected_id, record).0, extra, more),
            record_outcome(state, expected_id, record).1,
        ),
{
    let s2 = shifted(state, extra, more);
    assert(is_metadata_recheck(s2, record) == is_metadata_recheck(state, record));
}

/// Bytes that arrive later do not change how the lines already complete are
/// read: the same records are applied to the same facts, and the lines that
/// the later bytes complete are read afterwards.
proof fn lemma_read_pending_shifted(
    state: RolloutView,
    expected_id: Seq<char>,
    extra: nat,
    more: Seq<u8>,
)
    requires
        state.partial.len() <= state.offset,
        read_pending(state, expected_id).1 is Ok,
    ensures
        read_pending(shifted(read_pending(state, expected_id).0, extra, more), expected_id)
            == read_pending(shifted(state, extra, more), expected_id),
    decreases state.partial.len(),
{
    let (line, rest) = next_line_of(state.partial);
    let taken = RolloutView { partial: rest, ..state };
    let whole = shifted(state, extra, more);
    lemma_next_line_shape(state.partial);
    match line {
        None => {
            lemma_next_line_incomplete(state.partial, more);
            assert(shifted(taken, extra, more) == RolloutView {
                partial: rest + more,
                ..whole
            });
            assert(next_line_of(whole.partial) == next_line_of(rest + more));
        },
        Some(l) => {
            lemma_next_line_extend(state.partial, more);
            assert(next_line_of(whole.partial) == (Some(l), rest + more));
            let record = json_of_bytes(l)->0;
            let (next, verdict) = record_outcome(taken, expected_id, record);
            assert(taken.offset > 0);
            lemma_record_outcome_shifted(taken, expected_id, record, extra, more);
            assert(RolloutView { partial: rest + more, ..whole } == shifted(taken, extra, more));
            assert(next.partial == rest);
            lemma_read_pending_shifted(next, expected_id, extra, more);
        },
    }
}

/// Reading a rollout's appended bytes in two pieces establishes what reading
/// them at once does, as long as the first piece was read without a failure:
/// a line split across the pieces is held back until its end arrives and is
/// then read whole.
pub proof fn lemma_read_in_pieces(
    state: RolloutView,
    expected_id: Seq<char>,
    first: Seq<u8>,
    second: Seq<u8>,
)
    requires
        state.partial.len() <= state.offset,
        read_pending(with_appended(state, first), expected_id).1 is Ok,
    ensures
        read_pending(
            with_appended(read_pending(with_appended(state, first), expected_id).0, second),
            expected_id,
        ) == read_pending(with_appended(state, first + second), expected_id),
{
    let x = with_appended(state, first);
    lemma_read_keeps_offset(x, expected_id);
    lemma_read_pending_shifted(x, expected_id, second.len(), second);
    assert(with_appended(read_pending(x, expected_id).0, second) == shifted(
        read_pending(x, expected_id).0,
        second.len(),
        second,
    ));
    assert(state.partial + (first + second) =~= state.partial + first + second);
    assert(with_appended(state, first + second) == shifted(x, second.len(), second));
}

/// After a successful read no complete line is left pending: the bytes that
/// wait hold no line break.
proof fn lemma_read_leaves_no_line(state: RolloutView, expected_id: Seq<char>)
    requires
        read_pending(state, expected_id).1 is Ok,
    ensures
        forall|j: int|
            0 <= j < read_pending(state, expected_id).0.partial.len() ==> !is_newline(
                #[trigger] read_pending(state, expected_id).0.partial[j],
            ),
    decreases state.partial.len(),
{
    lemma_next_line_shape(state.partial);
    let (line, rest) = next_line_of(state.partial);
    let taken = RolloutView { partial: rest, ..state };
    match line {
        None => {},
        Some(l) => {
            let record = json_of_bytes(l)->0;
            let (next, verdict) = record_outcome(taken, expected_id, record);
            assert(next.partial == rest);
            lemma_read_leaves_no_line(next, expected_id);
        },
    }
}

/// A repeated notification with nothing new to read changes nothing: once a
/// read has succeeded, reading again with no new bytes succeeds, keeps every
/// fact (readiness, changed files, result, verification) and the offset, and
/// so `apply_append` reports no change.
pub proof fn lemma_repeated_notification_changes_nothing(
    state: RolloutView,
    expected_id: Seq<char>,
    bytes: Seq<u8>,
)
    requires
        read_pending(with_appended(state, bytes), expected_id).1 is Ok,
    ensures
        ({
            let after = read_pending(with_appended(state, bytes), expected_id).0;
            read_pending(with_appended(after, Seq::empty()), expected_id) == (after, Ok::<
                (),
                Option<DiscoveryError>,
            >(()))
        }),
{
    let after = read_pending(with_appended(state, bytes), expected_id).0;
    lemma_read_leaves_no_line(with_appended(state, bytes), expected_id);
    let again = with_appended(after, Seq::empty());
    assert(again.partial =~= after.partial);
    assert(again == after);
    let p = after.partial;
    lemma_first_match(p, newline_test());
    if first_match(p, newline_test()) is Some {
        let i = first_match(p, newline_test())->0 as int;
        assert(!is_newline(p[i]));
    }
    if p.len() > 0 {
        assert(!is_newline(p[0]));
    }
    assert(next_line_of(p) == (None::<Seq<u8>>, p));
    assert(RolloutView { partial: p, ..after } == after);
}

/// The published facts of a reader at some moment, kept to detect changes.
#[derive(Debug, PartialEq, Eq)]
pub struct RolloutFacts {
    pub readiness: Readiness,
    pub latest_result: Option<String>,
    pub changed_files: Vec<String>,
    pub verification: Option<VerificationEvidence>,
}

impl RolloutFacts {
    pub open spec fn view(self) -> FactsView {
        FactsView {
            readiness: self.readiness,
            result: opt_chars(self.latest_result),
            files: string_views(self.changed_files),
            verification: evidence_view(self.verification),
        }
    }
}

/// Equality of two lists of strings by content.
pub fn same_strings(a: &Vec<String>, b: &Vec<String>) -> (equal: bool)
    ensures
        equal == (string_views(*a) == string_views(*b)),
{
    if a.len() != b.len() {
        proof {
            assert(string_views(*a).len() != string_views(*b).len());
        }
        return false;
    }
    let mut index: usize = 0;
    while index < a.len()
        invariant
            a@.len() == b@.len(),
            index <= a@.len(),
            forall|j: int| 0 <= j < index ==> a@[j]@ == b@[j]@,
        decreases a.len() - index,
    {
        if !str_equal(a[index].as_str(), b[index].as_str()) {
            proof {
                assert(string_views(*a)[index as int] != string_views(*b)[index as int]);
            }
            return false;
        }
        index = index + 1;
    }
    proof {
        assert(string_views(*a) =~= string_views(*b));
    }
    true
}

/// Equality of two optional pieces of verification evidence by content.
pub fn same_evidence(a: &Option<VerificationEvidence>, b: &Option<VerificationEvidence>) -> (equal:
    bool)
    ensures
        equal == (evidence_view(*a) == evidence_view(*b)),
{
    match (a, b) {
        (Some(x), Some(y)) => str_equal(x.command.as_str(), y.command.as_str()) && x.outcome
            == y.outcome,
        (None, None) => true,
        _ => false,
    }
}

/// Incremental reader for one validated root/user rollout. It never exposes
/// rollout content; only normalized facts are kept.
#[derive(Debug)]
pub struct IncrementalRollout {
    path: String,
    expected_id: String,
    offset: u64,
    partial: Vec<u8>,
    active_turn: Option<String>,
    readiness: Readiness,
    last_lifecycle_timestamp: Option<String>,
    latest_result: Option<String>,
    changed_files: Vec<String>,
    verification: Option<VerificationEvidence>,
}

impl IncrementalRollout {
    pub closed spec fn view(self) -> RolloutView {
        RolloutView {
            offset: self.offset as nat,
            partial: self.partial@,
            active_turn: opt_chars(self.active_turn),
            readiness: self.readiness,
            timestamp: opt_chars(self.last_lifecycle_timestamp),
            result: opt_chars(self.latest_result),
            files: string_views(self.changed_files),
            verification: evidence_view(self.verification),
        }
    }

    /// The rollout file this reader follows.
    pub closed spec fn path_view(self) -> Seq<char> {
        self.path@
    }

    /// The session identifier the rollout's metadata must name.
    pub closed spec fn expected_id_view(self) -> Seq<char> {
        self.expected_id@
    }

    /// The offset fits the machine counter.
    pub open spec fn offset_fits(self, more: nat) -> bool {
        self.view().offset + more <= u64::MAX
    }

    /// A reader of `path` for the session `expected_id` that has read nothing.
    pub fn new(path: String, expected_id: String) -> (reader: Self)
        ensures
            reader.view() == fresh_rollout(),
            reader.path_view() == path@,
            reader.expected_id_view() == expected_id@,
    {
        let reader = IncrementalRollout {
            path,
            expected_id,
            offset: 0,
            partial: Vec::new(),
            active_turn: None,
            readiness: Readiness::Unknown,
            last_lifecycle_timestamp: None,
            latest_result: None,
            changed_files: Vec::new(),
            verification: None,
        };
        proof {
            assert(reader.view().files =~= Seq::<Seq<char>>::empty());
            assert(reader.view().partial =~= Seq::<u8>::empty());
        }
        reader
    }

    pub fn path(&self) -> (path: &str)
        ensures
            path@ == self.path_view(),
    {
        self.path.as_str()
    }

    pub fn expected_id(&self) -> (id: &str)
        ensures
            id@ == self.expected_id_view(),
    {
        self.expected_id.as_str()
    }

    /// How many bytes of the rollout have been consumed.
    pub fn offset(&self) -> (offset: u64)
        ensures
            offset == self.view().offset,
    {
        self.offset
    }

    pub fn readiness(&self) -> (readiness: Readiness)
        ensures
            readiness == self.view().readiness,
    {
        self.readiness
    }

    pub fn changed_files(&self) -> (files: &[String])
        ensures
            files@.map_values(|s: String| s@) == self.view().files,
    {
        self.changed_files.as_slice()
    }

    pub fn latest_result(&self) -> (result: Option<&str>)
        ensures
            match result {
                Some(r) => self.view().result == Some(r@),
                None => self.view().result is None,
            },
    {
        match &self.latest_result {
            Some(r) => Some(r.as_str()),
            None => None,
        }
    }

    pub fn verification(&self) -> (evidence: &Option<VerificationEvidence>)
        ensures
            evidence_view(*evidence) == self.view().verification,
    {
        &self.verification
    }

    pub fn lifecycle_timestamp(&self) -> (timestamp: Option<&str>)
        ensures
            match timestamp {
                Some(t) => self.view().timestamp == Some(t@),
                None => self.view().timestamp is None,
            },
    {
        match &self.last_lifecycle_timestamp {
            Some(t) => Some(t.as_str()),
            None => None,
        }
    }

    /// Forgets what was read so that the rollout is read again from its
    /// start. The last lifecycle timestamp is kept.
    pub fn restart(&mut self)
        ensures
            final(self).view() == (RolloutView { timestamp: old(self).view().timestamp, ..fresh_rollout() }),
            final(self).path_view() == old(self).path_view(),
            final(self).expected_id_view() == old(self).expected_id_view(),
    {
        self.offset = 0;
        self.partial = Vec::new();
        self.active_turn = None;
        self.readiness = Readiness::Unknown;
        self.latest_result = None;
        self.changed_files = Vec::new();
        self.verification = None;
        proof {
            assert(self.view().files =~= Seq::<Seq<char>>::empty());
            assert(self.view().partial =~= Seq::<u8>::empty());
        }
    }

    /// After an observation failure nothing is claimed about the session.
    pub fn fail_closed(&mut self)
        ensures
            final(self).view() == (RolloutView {
                active_turn: None,
                readiness: Readiness::Unknown,
                timestamp: None,
                ..old(self).view()
            }),
            final(self).path_view() == old(self).path_view(),
            final(self).expected_id_view() == old(self).expected_id_view(),
    {
        self.active_turn = None;
        self.readiness = Readiness::Unknown;
        self.last_lifecycle_timestamp = None;
    }

    /// Whether a rollout of `length` bytes was truncated behind the reader,
    /// which calls for reading every session again.
    pub fn needs_reconcile(&self, length: u64) -> (truncated: bool)
        ensures
            truncated == (length < self.view().offset),
    {
        length < self.offset
    }

    /// Takes newly read bytes: they count toward the offset and wait for
    /// their line to complete.
    pub fn append_bytes(&mut self, bytes: &[u8])
        requires
            old(self).offset_fits(bytes@.len()),
        ensures
            final(self).view() == (RolloutView {
                offset: old(self).view().offset + bytes@.len(),
                partial: old(self).view().partial + bytes@,
                ..old(self).view()
            }),
            final(self).path_view() == old(self).path_view(),
            final(self).expected_id_view() == old(self).expected_id_view(),
    {
        self.offset = self.offset + bytes.len() as u64;
        let ghost before = self.partial@;
        let ghost start = self.view();
        let mut index: usize = 0;
        while index < bytes.len()
            invariant
                index <= bytes@.len(),
                self.partial@ == before + bytes@.take(index as int),
                self.view() == (RolloutView { partial: self.partial@, ..start }),
                self.path_view() == old(self).path_view(),
                self.expected_id_view() == old(self).expected_id_view(),
            decreases bytes.len() - index,
        {
            self.partial.push(bytes[index]);
            proof {
                assert(before + bytes@.take(index + 1) =~= (before + bytes@.take(index as int)).push(
                    bytes@[index as int],
                ));
            }
            index = index + 1;
        }
        proof {
            assert(bytes@.take(bytes@.len() as int) =~= bytes@);
        }
    }

    /// Takes the next complete, non-empty line out of the pending bytes.
    pub fn next_line(&mut self) -> (line: Option<Vec<u8>>)
        ensures
            next_line_of(old(self).view().partial) == (
                match line {
                    Some(l) => Some(l@),
                    None => None::<Seq<u8>>,
                },
                final(self).view().partial,
            ),
            final(self).view() == (RolloutView { partial: final(self).view().partial, ..old(self).view() }),
            final(self).path_view() == old(self).path_view(),
            final(self).expected_id_view() == old(self).expected_id_view(),
    {
        let ghost pending = self.partial@;
        let ghost start_view = self.view();
        let len = self.partial.len();
        let mut start: usize = 0;
        assert(pending.skip(0) =~= pending);
        while start < len && self.partial[start] == 10u8
            invariant
                start <= len == pending.len(),
                self.partial@ == pending,
                next_line_of(pending) == next_line_of(pending.skip(start as int)),
            decreases len - start,
        {
            proof {
                assert(pending.skip(start as int).skip(1) =~= pending.skip(start + 1));
            }
            start = start + 1;
        }
        let ghost tail = pending.skip(start as int);
        let mut end: usize = start;
        while end < len && self.partial[end] != 10u8
            invariant
                start <= end <= len == pending.len(),
                self.partial@ == pending,
                tail == pending.skip(start as int),
                forall|j: int| 0 <= j < end - start ==> !is_newline(#[trigger] tail[j]),
            decreases len - end,
        {
            proof {
                assert(tail[end - start] == pending[end as int]);
            }
            end = end + 1;
        }
        proof {
            if end < len {
                assert(tail[end - start] == pending[end as int]);
            }
            lemma_first_match_at(tail, newline_test(), end - start);
            if tail.len() > 0 {
                assert(tail[0] == pending[start as int]);
            }
        }
        if end == len {
            let rest = byte_range(self.partial.as_slice(), start, len);
            self.partial = rest;
            proof {
                assert(rest@ =~= tail);
            }
            None
        } else {
            let line = byte_range(self.partial.as_slice(), start, end);
            let rest = byte_range(self.partial.as_slice(), end + 1, len);
            self.partial = rest;
            proof {
                assert(line@ =~= tail.take(end - start));
                assert(rest@ =~= tail.skip(end - start + 1));
            }
            Some(line)
        }
    }

    /// Takes bytes read past the offset and applies every line they complete;
    /// an incomplete last line waits for the rest of its bytes.
    pub fn read_new_bytes(&mut self, bytes: &[u8]) -> (result: Result<(), DiscoveryError>)
        requires
            old(self).offset_fits(bytes@.len()),
        ensures
            final(self).view() == read_pending(
                with_appended(old(self).view(), bytes@),
                old(self).expected_id_view(),
            ).0,
            read_reported(
                read_pending(with_appended(old(self).view(), bytes@), old(self).expected_id_view()).1,
                result,
            ),
            final(self).path_view() == old(self).path_view(),
            final(self).expected_id_view() == old(self).expected_id_view(),
    {
        self.append_bytes(bytes);
        let ghost target = read_pending(self.view(), self.expected_id_view());
        proof {
            assert(self.view() == with_appended(old(self).view(), bytes@));
        }
        loop
            invariant
                read_pending(self.view(), self.expected_id_view()) == target,
                target == read_pending(
                    with_appended(old(self).view(), bytes@),
                    old(self).expected_id_view(),
                ),
                self.path_view() == old(self).path_view(),
                self.expected_id_view() == old(self).expected_id_view(),
            decreases self.view().partial.len(),
        {
            let ghost before = self.view();
            proof {
                lemma_next_line_shape(before.partial);
            }
            match self.next_line() {
                None => {
                    return Ok(());
                },
                Some(line) => {
                    let record = match parse_json_bytes(line.as_slice()) {
                        Err(error) => {
                            return Err(DiscoveryError::Json(json_error_message(&error)));
                        },
                        Ok(value) => value,
                    };
                    match self.apply_record(&record) {
                        Err(e) => {
                            return Err(e);
                        },
                        Ok(()) => {},
                    }
                },
            }
        }
    }

    /// A reader of `path` for the session `expected_id` that has read the
    /// rollout's `contents` from its start.
    pub fn open(path: String, expected_id: String, contents: &[u8]) -> (result: Result<Self, DiscoveryError>)
        ensures
            read_reported(
                read_pending(with_appended(fresh_rollout(), contents@), expected_id@).1,
                match result {
                    Ok(_) => Ok::<(), DiscoveryError>(()),
                    Err(e) => Err(e),
                },
            ),
            result matches Ok(reader) ==> {
                &&& reader.view() == read_pending(with_appended(fresh_rollout(), contents@), expected_id@).0
                &&& reader.path_view() == path@
                &&& reader.expected_id_view() == expected_id@
            },
    {
        let mut reader = IncrementalRollout::new(path, expected_id);
        let size = contents.len();
        proof {
            assert(size <= u64::MAX);
        }
        match reader.read_new_bytes(contents) {
            Ok(()) => Ok(reader),
            Err(e) => Err(e),
        }
    }

    /// Takes what was appended to a rollout now `length` bytes long:
    /// `appended` holds the bytes past the offset. A rollout shorter than
    /// what was read was truncated and calls for reconciliation, with nothing
    /// read; otherwise the new lines are applied and the update tells whether
    /// the published facts changed.
    pub fn apply_append(&mut self, length: u64, appended: &[u8]) -> (result: Result<RolloutUpdate, DiscoveryError>)
        requires
            length >= old(self).view().offset ==> old(self).offset_fits(appended@.len()),
        ensures
            final(self).path_view() == old(self).path_view(),
            final(self).expected_id_view() == old(self).expected_id_view(),
            length < old(self).view().offset ==> result == Ok::<RolloutUpdate, DiscoveryError>(
                RolloutUpdate::Reconcile,
            ) && final(self).view() == old(self).view(),
            length >= old(self).view().offset ==> {
                let (after, verdict) = read_pending(
                    with_appended(old(self).view(), appended@),
                    old(self).expected_id_view(),
                );
                &&& final(self).view() == after
                &&& verdict is Ok ==> result == Ok::<RolloutUpdate, DiscoveryError>(
                    if old(self).view().facts() == after.facts() {
                        RolloutUpdate::NoChange
                    } else {
                        RolloutUpdate::Changed
                    },
                )
                &&& verdict is Err ==> read_reported(
                    verdict,
                    match result {
                        Ok(_) => Ok::<(), DiscoveryError>(()),
                        Err(e) => Err(e),
                    },
                )
            },
    {
        if self.needs_reconcile(length) {
            return Ok(RolloutUpdate::Reconcile);
        }
        let previous = self.facts();
        match self.read_new_bytes(appended) {
            Err(e) => Err(e),
            Ok(()) => Ok(self.update_since(&previous)),
        }
    }

    /// Applies one parsed record.
    pub fn apply_record(&mut self, record: &JsonValue) -> (result: Result<(), DiscoveryError>)
        ensures
            (final(self).view(), result) == record_outcome(
                old(self).view(),
                old(self).expected_id_view(),
                *record,
            ),
            final(self).path_view() == old(self).path_view(),
            final(self).expected_id_view() == old(self).expected_id_view(),
    {
        if self.offset > 0 && self.active_turn.is_none() && self.readiness == Readiness::Unknown
            && record.member_equals("type", "session_meta") {
            return validate_metadata(record, self.expected_id.as_str());
        }
        let paths = file_change_paths(record);
        append_changed_files(&mut self.changed_files, paths);
        match parse_command_execution(record) {
            Some(evidence) => {
                self.verification = Some(evidence);
            },
            None => {},
        }
        match assistant_result(record) {
            Some(result) => {
                self.latest_result = Some(result);
            },
            None => {},
        }
        let fact = match lifecycle_record(record) {
            Err(e) => {
                return Err(e);
            },
            Ok(f) => f,
        };
        match fact {
            None => Ok(()),
            Some((kind, turn, timestamp)) => {
                self.last_lifecycle_timestamp = timestamp;
                match kind {
                    LifecycleKind::TaskStarted => {
                        self.active_turn = Some(turn);
                        self.readiness = Readiness::Working;
                    },
                    LifecycleKind::TaskComplete => {
                        let matches = match &self.active_turn {
                            Some(active) => str_equal(active.as_str(), turn.as_str()),
                            None => false,
                        };
                        if matches {
                            self.readiness = Readiness::Ready;
                        } else {
                            self.readiness = Readiness::Unknown;
                        }
                    },
                }
                Ok(())
            },
        }
    }

    /// The facts published now, to compare with after more bytes are read.
    pub fn facts(&self) -> (facts: RolloutFacts)
        ensures
            facts.view() == self.view().facts(),
    {
        let files = copy_strings(&self.changed_files);
        RolloutFacts {
            readiness: self.readiness,
            latest_result: copy_opt(&self.latest_result),
            changed_files: files,
            verification: copy_opt_evidence(&self.verification),
        }
    }

    /// Whether the published facts differ from `previous`. One notification
    /// can cover several records; the complete normalized state is published
    /// as one update.
    pub fn update_since(&self, previous: &RolloutFacts) -> (update: RolloutUpdate)
        ensures
            update == (if previous.view() == self.view().facts() {
                RolloutUpdate::NoChange
            } else {
                RolloutUpdate::Changed
            }),
    {
        let same = self.readiness == previous.readiness && opt_text_equal(
            &self.latest_result,
            &previous.latest_result,
        ) && same_strings(&self.changed_files, &previous.changed_files) && same_evidence(
            &self.verification,
            &previous.verification,
        );
        if same {
            RolloutUpdate::NoChange
        } else {
            RolloutUpdate::Changed
        }
    }
}

/// The bytes `v[from..to]`.
fn byte_range(v: &[u8], from: usize, to: usize) -> (part: Vec<u8>)
    requires
        from <= to <= v@.len(),
    ensures
        part@ == v@.subrange(from as int, to as int),
{
    let mut part: Vec<u8> = Vec::new();
    let mut index: usize = from;
    while index < to
        invariant
            from <= index <= to,
            to <= v@.len(),
            part@ == v@.subrange(from as int, index as int),
        decreases to - index,
    {
        part.push(v[index]);
        proof {
            assert(v@.subrange(from as int, index + 1) =~= v@.subrange(from as int, index as int).push(
                v@[index as int],
            ));
        }
        index = index + 1;
    }
    part
}


/// One watched session: its snapshot and the reader following its rollout.
#[derive(Debug)]
pub struct WatchedSession {
    pub snapshot: SessionSnapshot,
    pub rollout: IncrementalRollout,
}

/// The identifiers of watched sessions.
pub open spec fn watched_ids(t: Seq<WatchedSession>) -> Seq<Seq<char>> {
    t.map_values(|s: WatchedSession| s.snapshot.id@)
}

pub open spec fn not_below(id: Seq<char>) -> spec_fn(Seq<char>) -> bool {
    |x: Seq<char>| !lex_lt(x, id)
}

/// Where the session `id` belongs among sessions kept in identifier order.
pub open spec fn table_position(ids: Seq<Seq<char>>, id: Seq<char>) -> nat {
    match first_match(ids, not_below(id)) {
        Some(k) => k,
        None => ids.len(),
    }
}

/// The table without the session `id`, and that session if it was there.
pub open spec fn table_take(t: Seq<WatchedSession>, id: Seq<char>) -> (
    Seq<WatchedSession>,
    Option<WatchedSession>,
) {
    let k = table_position(watched_ids(t), id) as int;
    if watched_ids(t).contains(id) {
        (t.remove(k), Some(t[k]))
    } else {
        (t, None)
    }
}

/// The table with `entry` in its place, replacing a session with the same
/// identifier.
pub open spec fn table_put(t: Seq<WatchedSession>, entry: WatchedSession) -> Seq<WatchedSession> {
    let id = entry.snapshot.id@;
    let k = table_position(watched_ids(t), id) as int;
    if watched_ids(t).contains(id) {
        t.update(k, entry)
    } else {
        t.insert(k, entry)
    }
}

pub open spec fn table_wf(t: Seq<WatchedSession>) -> bool {
    strictly_sorted(watched_ids(t), lex_order())
}

/// Where `id` belongs, and whether it is there.
fn locate(t: &Vec<WatchedSession>, id: &str) -> (found: (usize, bool))
    requires
        table_wf(t@),
    ensures
        found.0 == table_position(watched_ids(t@), id@),
        found.1 == watched_ids(t@).contains(id@),
        found.1 ==> found.0 < t@.len() && watched_ids(t@)[found.0 as int] == id@,
        found.0 <= t@.len(),
{
    proof {
        lemma_lex_order();
    }
    let ghost ids = watched_ids(t@);
    let ghost pred = not_below(id@);
    let mut index: usize = 0;
    while index < t.len() && text_less(t[index].snapshot.id.as_str(), id)
        invariant
            index <= t@.len(),
            ids == watched_ids(t@),
            ids.len() == t@.len(),
            pred == not_below(id@),
            forall|j: int| 0 <= j < index ==> !pred(#[trigger] ids[j]),
        decreases t.len() - index,
    {
        proof {
            assert(ids[index as int] == t@[index as int].snapshot.id@);
        }
        index = index + 1;
    }
    proof {
        if index < t@.len() {
            assert(ids[index as int] == t@[index as int].snapshot.id@);
        }
        lemma_first_match_at(ids, pred, index as int);
    }
    let found = index < t.len() && str_equal(t[index].snapshot.id.as_str(), id);
    proof {
        if found {
            assert(ids[index as int] == t@[index as int].snapshot.id@);
        } else if ids.contains(id@) {
            let j = choose|j: int| 0 <= j < ids.len() && ids[j] == id@;
            if j < index {
                assert(!pred(ids[j]));
                assert(lex_order()(id@, id@));
            } else if j > index {
                assert(ids[index as int] == t@[index as int].snapshot.id@);
                assert(lex_order()(ids[index as int], ids[j]));
                assert(lex_order()(id@, ids[index as int]) || lex_order()(ids[index as int], id@));
                assert(lex_order()(id@, id@));
            } else {
                assert(ids[index as int] == t@[index as int].snapshot.id@);
            }
        }
    }
    (index, found)
}

/// Takes the session `id` out of the table.
fn take_session(t: &mut Vec<WatchedSession>, id: &str) -> (taken: Option<WatchedSession>)
    requires
        table_wf(old(t)@),
    ensures
        (final(t)@, taken) == table_take(old(t)@, id@),
        table_wf(final(t)@),
{
    let (k, found) = locate(t, id);
    if found {
        let ghost before = t@;
        let session = t.remove(k);
        proof {
            assert(watched_ids(t@) =~= watched_ids(before).remove(k as int));
            lemma_strictly_sorted_remove(watched_ids(before), k as int, lex_order());
        }
        Some(session)
    } else {
        None
    }
}

/// Puts `entry` in its place in the table.
fn put_session(t: &mut Vec<WatchedSession>, entry: WatchedSession)
    requires
        table_wf(old(t)@),
    ensures
        final(t)@ == table_put(old(t)@, entry),
        table_wf(final(t)@),
{
    proof {
        lemma_lex_order();
    }
    let ghost before = t@;
    let ghost old_ids = watched_ids(t@);
    let ghost id = entry.snapshot.id@;
    let (k, found) = locate(t, entry.snapshot.id.as_str());
    if found {
        t.set(k, entry);
        proof {
            assert(watched_ids(t@) =~= old_ids);
        }
    } else {
        proof {
            lemma_first_match(old_ids, not_below(id));
            if (k as int) < old_ids.len() {
                assert(old_ids[k as int] != id);
                assert(lex_order()(id, old_ids[k as int]) || lex_order()(old_ids[k as int], id));
            }
            assert forall|j: int| 0 <= j < k implies lex_order()(#[trigger] old_ids[j], id) by {
                assert(!not_below(id)(old_ids[j]));
            }
            lemma_strictly_sorted_insert(old_ids, k as int, id, lex_order());
        }
        t.insert(k, entry);
        proof {
            assert(watched_ids(t@) =~= old_ids.insert(k as int, id));
        }
    }
}

/// A session view shows its snapshot: every field carried over, nothing
/// needing attention.
pub open spec fn shows(view: SessionViewModel, snapshot: SessionSnapshot) -> bool {
    &&& view.id == snapshot.id
    &&& view.title == snapshot.title
    &&& view.project_identity == snapshot.project_identity
    &&& view.readiness == snapshot.readiness
    &&& view.latest_result == snapshot.latest_result
    &&& !view.needs_attention
    &&& view.recency_at_ms == snapshot.recency_at_ms
    &&& view.changed_files@ == snapshot.changed_files@
    &&& view.verification == snapshot.verification
}

/// A full snapshot change showing every watched session, in identifier order.
pub open spec fn is_full_snapshot(change: SessionChange, t: Seq<WatchedSession>) -> bool {
    match change {
        SessionChange::Snapshot(views) => views@.len() == t.len() && forall|i: int|
            0 <= i < t.len() ==> shows(#[trigger] views@[i], t[i].snapshot),
        _ => false,
    }
}

fn full_snapshot(t: &Vec<WatchedSession>) -> (change: SessionChange)
    ensures
        is_full_snapshot(change, t@),
{
    let mut views: Vec<SessionViewModel> = Vec::new();
    let mut i: usize = 0;
    while i < t.len()
        invariant
            i <= t@.len(),
            views@.len() == i,
            forall|j: int| 0 <= j < i ==> shows(#[trigger] views@[j], t@[j].snapshot),
        decreases t.len() - i,
    {
        views.push(SessionViewModel::from_snapshot(&t[i].snapshot));
        i = i + 1;
    }
    SessionChange::Snapshot(views)
}

/// The kind of a file-system notification.
#[derive(Clone, Copy, Debug, PartialEq, Eq, Structural)]
pub enum WatchEventKind {
    Any,
    Access,
    Create,
    Modify,
    Remove,
    Other,
}

/// The file name of a path: its last component, read as `paths` reads it.
pub open spec fn file_name_of(path: Seq<char>) -> Seq<char> {
    file_name(path)
}

/// Whether a path names the state database or one of its side files.
pub open spec fn is_state_file(name: Seq<char>) -> bool {
    name.len() >= "state_5.sqlite"@.len() && name.take("state_5.sqlite"@.len() as int)
        == "state_5.sqlite"@
}

/// A session whose rollout is about to be read again from disk.
#[derive(Debug)]
pub struct FreshSession {
    pub snapshot: SessionSnapshot,
    pub rollout: Result<IncrementalRollout, String>,
}

/// Progress of a reconciliation: the previously watched sessions not met
/// yet, the sessions watched from now on, and whether anything changed.
pub struct ReconcileState {
    pub previous: Seq<WatchedSession>,
    pub next: Seq<WatchedSession>,
    pub changed: bool,
}

/// One fresh session taken into account. A session is new, or changed when
/// its reread rollout publishes other facts than before; a rollout that
/// could not be read again stops the reconciliation.
pub open spec fn reconcile_step(state: ReconcileState, fresh: FreshSession) -> Result<
    ReconcileState,
    (Seq<WatchedSession>, String),
> {
    let (rest, existing) = table_take(state.previous, fresh.snapshot.id@);
    match fresh.rollout {
        Err(e) => Err((rest, e)),
        Ok(r) => Ok(
            ReconcileState {
                previous: rest,
                next: table_put(state.next, WatchedSession { snapshot: fresh.snapshot, rollout: r }),
                changed: state.changed || match existing {
                    None => true,
                    Some(x) => x.rollout.view().facts() != r.view().facts(),
                },
            },
        ),
    }
}

pub open spec fn reconcile_fold(start: Seq<WatchedSession>, fresh: Seq<FreshSession>) -> Result<
    ReconcileState,
    (Seq<WatchedSession>, String),
>
    decreases fresh.len(),
{
    if fresh.len() == 0 {
        Ok(ReconcileState { previous: start, next: Seq::empty(), changed: false })
    } else {
        match reconcile_fold(start, fresh.drop_last()) {
            Err(x) => Err(x),
            Ok(state) => reconcile_step(state, fresh.last()),
        }
    }
}

/// The watched sessions after an observation failure: nothing is claimed
/// about a session any more.
pub open spec fn failed_closed(before: WatchedSession, after: WatchedSession) -> bool {
    if before.rollout.view().readiness != Readiness::Unknown {
        &&& after.snapshot == (SessionSnapshot { readiness: Readiness::Unknown, ..before.snapshot })
        &&& after.rollout.view() == (RolloutView {
            active_turn: None,
            readiness: Readiness::Unknown,
            timestamp: None,
            ..before.rollout.view()
        })
        &&& after.rollout.path_view() == before.rollout.path_view()
        &&& after.rollout.expected_id_view() == before.rollout.expected_id_view()
    } else {
        after == before
    }
}

pub open spec fn not_unknown() -> spec_fn(WatchedSession) -> bool {
    |t: WatchedSession| t.rollout.view().readiness != Readiness::Unknown
}

/// The degradation notices of the sessions that claimed a readiness.
pub open spec fn degradation_notices(t: Seq<WatchedSession>) -> Seq<SessionChange> {
    crate::order::keep_where(t, not_unknown()).map_values(
        |s: WatchedSession| SessionChange::ObservationDegraded { id: s.snapshot.id },
    )
}

/// Live observation of the recent sessions: one reader per watched session,
/// kept in identifier order. Watching the file system and reading the state
/// database and the rollouts are the application's part; the watcher decides
/// what each notification means and what the display is told.
#[derive(Debug)]
pub struct LiveWatcher {
    database_path: String,
    sessions_dir: String,
    watched: Vec<WatchedSession>,
}

impl LiveWatcher {
    /// The watched sessions, in identifier order.
    pub closed spec fn watched(self) -> Seq<WatchedSession> {
        self.watched@
    }

    pub closed spec fn database_view(self) -> Seq<char> {
        self.database_path@
    }

    pub closed spec fn sessions_dir_view(self) -> Seq<char> {
        self.sessions_dir@
    }

    pub open spec fn wf(self) -> bool {
        table_wf(self.watched())
    }

    /// A watcher of the state database at `database_path` and of the
    /// rollouts under `sessions_dir`, tracking nothing yet.
    pub fn new(database_path: String, sessions_dir: String) -> (watcher: Self)
        ensures
            watcher.wf(),
            watcher.watched().len() == 0,
            watcher.database_view() == database_path@,
            watcher.sessions_dir_view() == sessions_dir@,
    {
        LiveWatcher { database_path, sessions_dir, watched: Vec::new() }
    }

    pub fn database_path(&self) -> (path: &str)
        ensures
            path@ == self.database_view(),
    {
        self.database_path.as_str()
    }

    pub fn sessions_dir(&self) -> (path: &str)
        ensures
            path@ == self.sessions_dir_view(),
    {
        self.sessions_dir.as_str()
    }

    pub fn watched_sessions(&self) -> (sessions: &[WatchedSession])
        ensures
            sessions@ == self.watched(),
    {
        self.watched.as_slice()
    }

    /// Starts tracking a session whose rollout was opened; a session with
    /// the same identifier is replaced.
    pub fn track(&mut self, snapshot: SessionSnapshot, rollout: IncrementalRollout)
        requires
            old(self).wf(),
        ensures
            final(self).wf(),
            final(self).watched() == table_put(
                old(self).watched(),
                WatchedSession { snapshot, rollout },
            ),
            final(self).database_view() == old(self).database_view(),
            final(self).sessions_dir_view() == old(self).sessions_dir_view(),
    {
        put_session(&mut self.watched, WatchedSession { snapshot, rollout });
    }

    /// The first display state: every watched session.
    pub fn initial_changes(&self) -> (changes: Vec<SessionChange>)
        ensures
            changes@.len() == 1,
            is_full_snapshot(changes@[0], self.watched()),
    {
        let mut changes: Vec<SessionChange> = Vec::new();
        changes.push(full_snapshot(&self.watched));
        changes
    }

    /// After an observation failure no watched session keeps a claimed
    /// readiness; each one that had one is reported degraded.
    pub fn fail_closed(&mut self) -> (changes: Vec<SessionChange>)
        requires
            old(self).wf(),
        ensures
            final(self).wf(),
            final(self).watched().len() == old(self).watched().len(),
            forall|i: int|
                0 <= i < old(self).watched().len() ==> failed_closed(
                    old(self).watched()[i],
                    #[trigger] final(self).watched()[i],
                ),
            changes@ == degradation_notices(old(self).watched()),
            final(self).database_view() == old(self).database_view(),
            final(self).sessions_dir_view() == old(self).sessions_dir_view(),
    {
        let ghost before = self.watched@;
        let mut rest: Vec<WatchedSession> = Vec::new();
        std::mem::swap(&mut rest, &mut self.watched);
        let mut done: Vec<WatchedSession> = Vec::new();
        let mut changes: Vec<SessionChange> = Vec::new();
        let ghost mut consumed: int = 0;
        proof {
            assert(before.skip(0) =~= before);
            assert(degradation_notices(before.take(0)) =~= Seq::<SessionChange>::empty());
        }
        while rest.len() > 0
            invariant
                0 <= consumed <= before.len(),
                rest@ == before.skip(consumed),
                done@.len() == consumed,
                forall|i: int| 0 <= i < consumed ==> failed_closed(before[i], #[trigger] done@[i]),
                forall|i: int| 0 <= i < consumed ==> (#[trigger] done@[i]).snapshot.id == before[i].snapshot.id,
                changes@ == degradation_notices(before.take(consumed)),
            decreases rest.len(),
        {
            let mut session = rest.remove(0);
            proof {
                assert(session == before[consumed]);
                assert(rest@ =~= before.skip(consumed + 1));
                assert(before.take(consumed + 1).drop_last() =~= before.take(consumed));
                assert(before.take(consumed + 1).last() == session);
            }
            let ghost prior = session;
            if session.rollout.readiness() != Readiness::Unknown {
                session.rollout.fail_closed();
                session.snapshot.readiness = Readiness::Unknown;
                let ghost notices = changes@;
                changes.push(SessionChange::ObservationDegraded { id: session.snapshot.id.clone() });
                proof {
                    assert(changes@ =~= notices.push(
                        SessionChange::ObservationDegraded { id: prior.snapshot.id },
                    ));
                    assert(crate::order::keep_where(before.take(consumed + 1), not_unknown())
                        == crate::order::keep_where(before.take(consumed), not_unknown()).push(
                        prior,
                    ));
                    assert(degradation_notices(before.take(consumed + 1)) =~= degradation_notices(
                        before.take(consumed),
                    ).push(SessionChange::ObservationDegraded { id: prior.snapshot.id }));
                }
            } else {
                proof {
                    assert(degradation_notices(before.take(consumed + 1)) =~= degradation_notices(
                        before.take(consumed),
                    ));
                }
            }
            done.push(session);
            proof {
                consumed = consumed + 1;
            }
        }
        proof {
            assert(watched_ids(done@) =~= watched_ids(before));
            assert(before.take(consumed) =~= before);
        }
        self.watched = done;
        changes
    }

    /// Gives up observation: every session is failed closed, then the
    /// display is told that observation has ended.
    pub fn degrade(&mut self) -> (changes: Vec<SessionChange>)
        requires
            old(self).wf(),
        ensures
            final(self).wf(),
            final(self).watched().len() == old(self).watched().len(),
            forall|i: int|
                0 <= i < old(self).watched().len() ==> failed_closed(
                    old(self).watched()[i],
                    #[trigger] final(self).watched()[i],
                ),
            changes@ == degradation_notices(old(self).watched()).push(
                SessionChange::ObservationTerminated,
            ),
            final(self).database_view() == old(self).database_view(),
            final(self).sessions_dir_view() == old(self).sessions_dir_view(),
    {
        let mut changes = self.fail_closed();
        changes.push(SessionChange::ObservationTerminated);
        changes
    }

    /// What to publish once a notification was handled, and whether to keep
    /// watching: the changes it brought; or, when handling it failed, the
    /// notices of `degrade`, after which watching stops.
    pub fn after_event(&mut self, outcome: Result<Vec<SessionChange>, String>) -> (step: (
        Vec<SessionChange>,
        bool,
    ))
        requires
            old(self).wf(),
        ensures
            final(self).wf(),
            final(self).database_view() == old(self).database_view(),
            final(self).sessions_dir_view() == old(self).sessions_dir_view(),
            match outcome {
                Ok(changes) => step.0 == changes && step.1 && final(self).watched() == old(
                    self,
                ).watched(),
                Err(_) => {
                    &&& !step.1
                    &&& final(self).watched().len() == old(self).watched().len()
                    &&& forall|i: int|
                        0 <= i < old(self).watched().len() ==> failed_closed(
                            old(self).watched()[i],
                            #[trigger] final(self).watched()[i],
                        )
                    &&& step.0@ == degradation_notices(old(self).watched()).push(
                        SessionChange::ObservationTerminated,
                    )
                },
            },
    {
        match outcome {
            Ok(changes) => (changes, true),
            Err(_) => (self.degrade(), false),
        }
    }

    /// Whether a notification calls for reading every session again: any
    /// creation, removal or unclassified event, or any change to the state
    /// database or its side files.
    pub fn needs_reconcile(&self, kind: WatchEventKind, paths: &[String]) -> (reconcile: bool)
        ensures
            reconcile == (kind == WatchEventKind::Other || kind == WatchEventKind::Create || kind
                == WatchEventKind::Remove || exists|i: int|
                0 <= i < paths@.len() && (same_path(paths@[i]@, self.database_view())
                    || is_state_file(file_name_of(#[trigger] paths@[i]@)))),
    {
        if kind == WatchEventKind::Other || kind == WatchEventKind::Create || kind
            == WatchEventKind::Remove {
            return true;
        }
        let mut i: usize = 0;
        while i < paths.len()
            invariant
                i <= paths@.len(),
                forall|j: int|
                    0 <= j < i ==> !(same_path(paths@[j]@, self.database_view())
                        || is_state_file(file_name_of(#[trigger] paths@[j]@))),
            decreases paths.len() - i,
        {
            if same_path_str(paths[i].as_str(), self.database_path.as_str()) || names_state_file(
                paths[i].as_str(),
            ) {
                return true;
            }
            i = i + 1;
        }
        false
    }

    /// The first watched session, in identifier order, whose rollout is at
    /// `path`, paths compared by their components.
    pub fn session_for_path(&self, path: &str) -> (index: Option<usize>)
        ensures
            match index {
                Some(k) => k < self.watched().len() && same_path(
                    self.watched()[k as int].snapshot.rollout_path@,
                    path@,
                ) && forall|j: int|
                    0 <= j < k ==> !same_path(
                        (#[trigger] self.watched()[j]).snapshot.rollout_path@,
                        path@,
                    ),
                None => forall|j: int|
                    0 <= j < self.watched().len() ==> !same_path(
                        (#[trigger] self.watched()[j]).snapshot.rollout_path@,
                        path@,
                    ),
            },
    {
        let mut k: usize = 0;
        while k < self.watched.len()
            invariant
                k <= self.watched@.len(),
                forall|j: int|
                    0 <= j < k ==> !same_path(
                        (#[trigger] self.watched@[j]).snapshot.rollout_path@,
                        path@,
                    ),
            decreases self.watched.len() - k,
        {
            if same_path_str(self.watched[k].snapshot.rollout_path.as_str(), path) {
                return Some(k);
            }
            k = k + 1;
        }
        None
    }

    /// The reader of the `index`-th watched session, to read newly appended
    /// bytes into.
    pub fn rollout_mut(&mut self, index: usize) -> (rollout: &mut IncrementalRollout)
        requires
            index < old(self).watched().len(),
        ensures
            *rollout == old(self).watched()[index as int].rollout,
            final(self).watched() == old(self).watched().update(
                index as int,
                WatchedSession {
                    snapshot: old(self).watched()[index as int].snapshot,
                    rollout: *final(rollout),
                },
            ),
            final(self).database_view() == old(self).database_view(),
            final(self).sessions_dir_view() == old(self).sessions_dir_view(),
    {
        &mut self.watched[index].rollout
    }

    /// Publishes the facts of the `index`-th reader in its session's
    /// snapshot and reports the updated session.
    pub fn publish(&mut self, index: usize) -> (change: SessionChange)
        requires
            old(self).wf(),
            index < old(self).watched().len(),
        ensures
            final(self).wf(),
            final(self).watched().len() == old(self).watched().len(),
            ({
                let before = old(self).watched()[index as int];
                let after = final(self).watched()[index as int];
                &&& after.rollout == before.rollout
                &&& after.snapshot.readiness == before.rollout.view().readiness
                &&& opt_chars(after.snapshot.latest_result) == before.rollout.view().result
                &&& string_views(after.snapshot.changed_files) == before.rollout.view().files
                &&& evidence_view(after.snapshot.verification) == before.rollout.view().verification
                &&& after.snapshot == (SessionSnapshot {
                    readiness: after.snapshot.readiness,
                    latest_result: after.snapshot.latest_result,
                    changed_files: after.snapshot.changed_files,
                    verification: after.snapshot.verification,
                    ..before.snapshot
                })
                &&& change matches SessionChange::Updated(view) && shows(view, after.snapshot)
            }),
            forall|j: int|
                0 <= j < old(self).watched().len() && j != index ==> #[trigger] final(self).watched()[j]
                    == old(self).watched()[j],
            final(self).database_view() == old(self).database_view(),
            final(self).sessions_dir_view() == old(self).sessions_dir_view(),
    {
        let ghost before = self.watched@;
        let mut session = self.watched.remove(index);
        session.snapshot.readiness = session.rollout.readiness();
        session.snapshot.latest_result = copy_opt(&session.rollout.latest_result);
        session.snapshot.changed_files = copy_strings(&session.rollout.changed_files);
        session.snapshot.verification = copy_opt_evidence(&session.rollout.verification);
        let view = SessionViewModel::from_snapshot(&session.snapshot);
        self.watched.insert(index, session);
        proof {
            assert(self.watched@ =~= before.update(index as int, session));
            assert(watched_ids(self.watched@) =~= watched_ids(before));
        }
        SessionChange::Updated(view)
    }

    /// Rebuilds the watched readers from sessions read again from disk, in
    /// the order the state database lists them. The display is sent the full
    /// set of sessions when any session is new, changed or gone, and nothing
    /// otherwise. A rollout that could not be read stops the rebuild with its
    /// error; the sessions met until then are no longer watched.
    pub fn reconcile(&mut self, fresh: Vec<FreshSession>) -> (result: Result<
        Vec<SessionChange>,
        String,
    >)
        requires
            old(self).wf(),
        ensures
            final(self).wf(),
            final(self).database_view() == old(self).database_view(),
            final(self).sessions_dir_view() == old(self).sessions_dir_view(),
            match reconcile_fold(old(self).watched(), fresh@) {
                Err((rest, e)) => result == Err::<Vec<SessionChange>, String>(e)
                    && final(self).watched() == rest,
                Ok(state) => final(self).watched() == state.next && (if state.changed
                    || state.previous.len() > 0 {
                    result matches Ok(changes) && changes@.len() == 1 && is_full_snapshot(
                        changes@[0],
                        state.next,
                    )
                } else {
                    result matches Ok(changes) && changes@.len() == 0
                }),
            },
    {
        let ghost start = self.watched@;
        let ghost all = fresh@;
        let mut next: Vec<WatchedSession> = Vec::new();
        let mut changed = false;
        let mut rest = fresh;
        let ghost mut consumed: int = 0;
        proof {
            assert(all.skip(0) =~= all);
            assert(all.take(0) =~= Seq::<FreshSession>::empty());
            assert(watched_ids(next@) =~= Seq::<Seq<char>>::empty());
        }
        while rest.len() > 0
            invariant
                0 <= consumed <= all.len(),
                rest@ == all.skip(consumed),
                start == old(self).watched(),
                all == fresh@,
                table_wf(self.watched@),
                table_wf(next@),
                self.database_path@ == old(self).database_view(),
                self.sessions_dir@ == old(self).sessions_dir_view(),
                reconcile_fold(start, all.take(consumed)) == Ok::<
                    ReconcileState,
                    (Seq<WatchedSession>, String),
                >(ReconcileState { previous: self.watched@, next: next@, changed }),
            decreases rest.len(),
        {
            let item = rest.remove(0);
            proof {
                assert(item == all[consumed]);
                assert(rest@ =~= all.skip(consumed + 1));
                assert(all.take(consumed + 1).drop_last() =~= all.take(consumed));
                assert(all.take(consumed + 1).last() == item);
            }
            let ghost state = ReconcileState { previous: self.watched@, next: next@, changed };
            let FreshSession { snapshot, rollout } = item;
            let existing = take_session(&mut self.watched, snapshot.id.as_str());
            let reader = match rollout {
                Err(e) => {
                    proof {
                        assert(reconcile_fold(start, all.take(consumed + 1)) == reconcile_step(
                            state,
                            item,
                        ));
                        assert(reconcile_step(state, item) == Err::<
                            ReconcileState,
                            (Seq<WatchedSession>, String),
                        >((self.watched@, e)));
                        lemma_reconcile_error_persists(start, all, consumed + 1);
                        assert(reconcile_fold(start, all) == Err::<
                            ReconcileState,
                            (Seq<WatchedSession>, String),
                        >((self.watched@, e)));
                    }
                    return Err(e);
                },
                Ok(r) => r,
            };
            match &existing {
                None => {
                    changed = true;
                },
                Some(previous) => {
                    let facts = previous.rollout.facts();
                    if reader.update_since(&facts) == RolloutUpdate::Changed {
                        changed = true;
                    }
                },
            }
            put_session(&mut next, WatchedSession { snapshot, rollout: reader });
            proof {
                consumed = consumed + 1;
            }
        }
        proof {
            assert(all.take(consumed) =~= all);
        }
        let gone = self.watched.len() > 0;
        self.watched = next;
        if changed || gone {
            let mut changes: Vec<SessionChange> = Vec::new();
            changes.push(full_snapshot(&self.watched));
            Ok(changes)
        } else {
            Ok(Vec::new())
        }
    }
}

/// Once a rollout cannot be read again, the reconciliation stops there.
proof fn lemma_reconcile_error_persists(start: Seq<WatchedSession>, fresh: Seq<FreshSession>, n: int)
    requires
        0 <= n <= fresh.len(),
        reconcile_fold(start, fresh.take(n)) is Err,
    ensures
        reconcile_fold(start, fresh) == reconcile_fold(start, fresh.take(n)),
    decreases fresh.len() - n,
{
    if n < fresh.len() {
        assert(fresh.take(n + 1).drop_last() =~= fresh.take(n));
        lemma_reconcile_error_persists(start, fresh, n + 1);
    } else {
        assert(fresh.take(n) =~= fresh);
    }
}

/// Whether a path's file name starts with the state database's name.
fn names_state_file(path: &str) -> (state: bool)
    ensures
        state == is_state_file(file_name_of(path@)),
{
    let name = file_name_str(path);
    let prefix = chars_of("state_5.sqlite");
    if name.len() < prefix.len() {
        return false;
    }
    let head = sub_chars(name.as_slice(), 0, prefix.len());
    proof {
        assert(head@ =~= name@.take(prefix@.len() as int));
    }
    crate::text::chars_equal(head.as_slice(), prefix.as_slice())
}

/// The reader's state after a sequence of records, and the first refusal.
pub open spec fn read_records(state: RolloutView, expected_id: Seq<char>, records: Seq<JsonValue>) -> (
    RolloutView,
    Result<(), DiscoveryError>,
)
    decreases records.len(),
{
    if records.len() == 0 {
        (state, Ok(()))
    } else {
        let (before, verdict) = read_records(state, expected_id, records.drop_last());
        match verdict {
            Err(e) => (before, Err(e)),
            Ok(()) => record_outcome(before, expected_id, records.last()),
        }
    }
}

/// Reading records one at a time as they are appended establishes what
/// reading the whole rollout at once establishes: the same readiness and
/// active turn as the lifecycle reducer over the same facts, the same
/// timestamp, result, changed files and verification, and the same first
/// refusal. Metadata records are left out, since the incremental reader
/// checks them again where the batch reader has checked them already.
pub proof fn lemma_incremental_matches_batch(expected_id: Seq<char>, records: Seq<JsonValue>)
    requires
        forall|i: int| 0 <= i < records.len() ==> !(#[trigger] records[i]).member_is(
            "type"@,
            "session_meta"@,
        ),
    ensures
        match crate::discovery::digest_records(records) {
            Ok(d) => {
                let fold = crate::readiness::lifecycle_fold(d.events);
                &&& read_records(fresh_rollout(), expected_id, records).1 is Ok
                &&& read_records(fresh_rollout(), expected_id, records).0 == (RolloutView {
                    offset: 0,
                    partial: Seq::empty(),
                    active_turn: fold.active_turn,
                    readiness: fold.readiness,
                    timestamp: d.timestamp,
                    result: d.result,
                    files: d.files,
                    verification: d.verification,
                })
            },
            Err(e) => read_records(fresh_rollout(), expected_id, records).1 == Err::<
                (),
                DiscoveryError,
            >(e),
        },
    decreases records.len(),
{
    if records.len() > 0 {
        let prefix = records.drop_last();
        assert forall|i: int| 0 <= i < prefix.len() implies !(#[trigger] prefix[i]).member_is(
            "type"@,
            "session_meta"@,
        ) by {
            assert(prefix[i] == records[i]);
        }
        lemma_incremental_matches_batch(expected_id, prefix);
        let last = records.last();
        assert(!last.member_is("type"@, "session_meta"@)) by {
            assert(last == records[records.len() - 1]);
        }
        match crate::discovery::digest_records(prefix) {
            Err(e) => {},
            Ok(d) => {
                match lifecycle_fact(last) {
                    Ok(Some((kind, turn, timestamp))) => {
                        crate::readiness::lemma_fold_append(d.events, kind, turn);
                    },
                    _ => {},
                }
            },
        }
    }
}

/// Records that carry no lifecycle fact never change the readiness or the
/// active turn; they only add changed files, verification evidence and
/// assistant results.
pub proof fn lemma_other_records_keep_readiness(
    state: RolloutView,
    expected_id: Seq<char>,
    record: JsonValue,
)
    requires
        lifecycle_fact(record) == Ok::<
            Option<(LifecycleKind, Seq<char>, Option<Seq<char>>)>,
            DiscoveryError,
        >(None),
    ensures
        record_outcome(state, expected_id, record).0.readiness == state.readiness,
        record_outcome(state, expected_id, record).0.active_turn == state.active_turn,
        record_outcome(state, expected_id, record).0.timestamp == state.timestamp,
{
}

/// After an observation failure no session keeps a claimed readiness,
/// provided each snapshot showed what its reader had established.
pub proof fn lemma_failure_leaves_nothing_claimed(before: Seq<WatchedSession>, after: Seq<WatchedSession>)
    requires
        before.len() == after.len(),
        forall|i: int|
            0 <= i < before.len() ==> failed_closed(before[i], #[trigger] after[i]),
        forall|i: int|
            0 <= i < before.len() ==> (#[trigger] before[i]).snapshot.readiness
                == before[i].rollout.view().readiness,
    ensures
        forall|i: int|
            0 <= i < after.len() ==> (#[trigger] after[i]).snapshot.readiness == Readiness::Unknown
                && after[i].rollout.view().readiness == Readiness::Unknown,
{
    assert forall|i: int| 0 <= i < after.len() implies (#[trigger] after[i]).snapshot.readiness
        == Readiness::Unknown && after[i].rollout.view().readiness == Readiness::Unknown by {
        assert(failed_closed(before[i], after[i]));
    }
}

/// In a table kept in identifier order, the position of a present
/// identifier is where it stands.
proof fn lemma_table_position_present(t: Seq<WatchedSession>, j: int)
    requires
        table_wf(t),
        0 <= j < t.len(),
    ensures
        table_position(watched_ids(t), t[j].snapshot.id@) == j,
        watched_ids(t).contains(t[j].snapshot.id@),
{
    lemma_lex_order();
    let ids = watched_ids(t);
    let id = t[j].snapshot.id@;
    assert(ids[j] == id);
    lemma_first_match(ids, not_below(id));
    crate::order::lemma_lex_irreflexive(id);
    match first_match(ids, not_below(id)) {
        None => {
            assert(!not_below(id)(ids[j]));
        },
        Some(k) => {
            if (k as int) < j {
                assert(lex_order()(ids[k as int], ids[j]));
            } else if (k as int) > j {
                assert(!not_below(id)(ids[j]));
            }
        },
    }
}

/// Two sessions of a table with the same identifier are the same session.
proof fn lemma_table_unique(t: Seq<WatchedSession>, a: int, b: int)
    requires
        table_wf(t),
        0 <= a < t.len(),
        0 <= b < t.len(),
        t[a].snapshot.id@ == t[b].snapshot.id@,
    ensures
        a == b,
{
    lemma_lex_order();
    assert(watched_ids(t)[a] == watched_ids(t)[b]);
    crate::order::lemma_strictly_sorted_unique(watched_ids(t), a, b, lex_order());
}

/// Taking a session out of a table keeps the table ordered, yields the
/// session with that identifier if there is one, and keeps every other one.
proof fn lemma_table_take(t: Seq<WatchedSession>, id: Seq<char>)
    requires
        table_wf(t),
    ensures
        table_wf(table_take(t, id).0),
        match table_take(t, id).1 {
            Some(x) => t.contains(x) && x.snapshot.id@ == id,
            None => forall|w: WatchedSession| t.contains(w) ==> w.snapshot.id@ != id,
        },
        forall|w: WatchedSession|
            #![trigger table_take(t, id).0.contains(w)]
            table_take(t, id).0.contains(w) <==> (t.contains(w) && w.snapshot.id@ != id),
{
    lemma_lex_order();
    let ids = watched_ids(t);
    if ids.contains(id) {
        let j = choose|j: int| 0 <= j < ids.len() && ids[j] == id;
        assert(t[j].snapshot.id@ == id);
        lemma_table_position_present(t, j);
        let r = t.remove(j);
        assert(watched_ids(r) =~= ids.remove(j));
        lemma_strictly_sorted_remove(ids, j, lex_order());
        assert(t.contains(t[j]));
        assert forall|w: WatchedSession| #![trigger r.contains(w)] r.contains(w) <==> (t.contains(w)
            && w.snapshot.id@ != id) by {
            if r.contains(w) {
                let i = choose|i: int| 0 <= i < r.len() && r[i] == w;
                let si = if i < j { i } else { i + 1 };
                assert(r[i] == t[si]);
                if w.snapshot.id@ == id {
                    lemma_table_unique(t, si, j);
                }
            }
            if t.contains(w) && w.snapshot.id@ != id {
                let i = choose|i: int| 0 <= i < t.len() && t[i] == w;
                assert(i != j);
                let ri = if i < j { i } else { i - 1 };
                assert(r[ri] == w);
            }
        }
    } else {
        assert forall|w: WatchedSession| t.contains(w) implies w.snapshot.id@ != id by {
            let i = choose|i: int| 0 <= i < t.len() && t[i] == w;
            assert(ids[i] == w.snapshot.id@);
        }
    }
}

/// Putting a session into a table keeps the table ordered, holds that
/// session, and keeps every session with another identifier.
proof fn lemma_table_put(t: Seq<WatchedSession>, e: WatchedSession)
    requires
        table_wf(t),
    ensures
        table_wf(table_put(t, e)),
        forall|w: WatchedSession|
            #![trigger table_put(t, e).contains(w)]
            table_put(t, e).contains(w) <==> (w == e || (t.contains(w) && w.snapshot.id@
                != e.snapshot.id@)),
{
    lemma_lex_order();
    let ids = watched_ids(t);
    let id = e.snapshot.id@;
    let k = table_position(ids, id) as int;
    let r = table_put(t, e);
    if ids.contains(id) {
        let j = choose|j: int| 0 <= j < ids.len() && ids[j] == id;
        assert(t[j].snapshot.id@ == id);
        lemma_table_position_present(t, j);
        assert(r == t.update(j, e));
        assert(watched_ids(r) =~= ids);
        assert forall|w: WatchedSession| #![trigger r.contains(w)] r.contains(w) <==> (w == e || (
        t.contains(w) && w.snapshot.id@ != id)) by {
            if r.contains(w) && w != e {
                let i = choose|i: int| 0 <= i < r.len() && r[i] == w;
                assert(i != j);
                assert(t[i] == w);
                if w.snapshot.id@ == id {
                    lemma_table_unique(t, i, j);
                }
            }
            if w == e {
                assert(r[j] == e);
            }
            if t.contains(w) && w.snapshot.id@ != id {
                let i = choose|i: int| 0 <= i < t.len() && t[i] == w;
                assert(i != j);
                assert(r[i] == w);
            }
        }
    } else {
        lemma_first_match(ids, not_below(id));
        if k < ids.len() {
            assert(ids[k] != id);
            assert(lex_order()(id, ids[k]) || lex_order()(ids[k], id));
        }
        assert forall|j: int| 0 <= j < k implies lex_order()(#[trigger] ids[j], id) by {
            assert(!not_below(id)(ids[j]));
        }
        lemma_strictly_sorted_insert(ids, k, id, lex_order());
        assert(watched_ids(r) =~= ids.insert(k, id));
        assert forall|w: WatchedSession| #![trigger r.contains(w)] r.contains(w) <==> (w == e || (
        t.contains(w) && w.snapshot.id@ != id)) by {
            if r.contains(w) && w != e {
                let i = choose|i: int| 0 <= i < r.len() && r[i] == w;
                assert(i != k);
                let ti = if i < k { i } else { i - 1 };
                assert(t[ti] == w);
                assert(ids[ti] == w.snapshot.id@);
            }
            if w == e {
                assert(r[k] == e);
            }
            if t.contains(w) && w.snapshot.id@ != id {
                let i = choose|i: int| 0 <= i < t.len() && t[i] == w;
                let ri = if i < k { i } else { i + 1 };
                assert(r[ri] == w);
            }
        }
    }
}

/// The session a fresh entry is tracked as.
pub open spec fn entry_of(fresh: FreshSession) -> WatchedSession {
    WatchedSession { snapshot: fresh.snapshot, rollout: fresh.rollout->Ok_0 }
}

pub open spec fn distinct_fresh_ids(fresh: Seq<FreshSession>) -> bool {
    forall|i: int, j: int|
        0 <= i < j < fresh.len() ==> (#[trigger] fresh[i]).snapshot.id@ != (
        #[trigger] fresh[j]).snapshot.id@
}

pub open spec fn all_reread(fresh: Seq<FreshSession>) -> bool {
    forall|i: int| 0 <= i < fresh.len() ==> (#[trigger] fresh[i]).rollout is Ok
}

/// A first reconciliation tracks exactly the fresh sessions.
proof fn lemma_reconcile_tracks_fresh(start: Seq<WatchedSession>, fresh: Seq<FreshSession>)
    requires
        table_wf(start),
        distinct_fresh_ids(fresh),
        all_reread(fresh),
    ensures
        reconcile_fold(start, fresh) is Ok,
        table_wf(reconcile_fold(start, fresh)->Ok_0.next),
        table_wf(reconcile_fold(start, fresh)->Ok_0.previous),
        forall|w: WatchedSession|
            #![trigger reconcile_fold(start, fresh)->Ok_0.next.contains(w)]
            reconcile_fold(start, fresh)->Ok_0.next.contains(w) <==> exists|i: int|
                0 <= i < fresh.len() && w == entry_of(#[trigger] fresh[i]),
    decreases fresh.len(),
{
    if fresh.len() == 0 {
        assert forall|w: WatchedSession|
            #![trigger reconcile_fold(start, fresh)->Ok_0.next.contains(w)]
            reconcile_fold(start, fresh)->Ok_0.next.contains(w) <==> exists|i: int|
                0 <= i < fresh.len() && w == entry_of(#[trigger] fresh[i]) by {}
    } else {
        let prefix = fresh.drop_last();
        assert(distinct_fresh_ids(prefix)) by {
            assert forall|i: int, j: int| 0 <= i < j < prefix.len() implies (
            #[trigger] prefix[i]).snapshot.id@ != (#[trigger] prefix[j]).snapshot.id@ by {
                assert(prefix[i] == fresh[i] && prefix[j] == fresh[j]);
            }
        }
        assert(all_reread(prefix)) by {
            assert forall|i: int| 0 <= i < prefix.len() implies (#[trigger] prefix[i]).rollout is Ok by {
                assert(prefix[i] == fresh[i]);
            }
        }
        lemma_reconcile_tracks_fresh(start, prefix);
        let st = reconcile_fold(start, prefix)->Ok_0;
        let last = fresh.last();
        assert(last == fresh[fresh.len() - 1]);
        assert(last.rollout is Ok);
        let entry = entry_of(last);
        lemma_table_take(st.previous, last.snapshot.id@);
        lemma_table_put(st.next, entry);
        let next = table_put(st.next, entry);
        assert forall|w: WatchedSession| #![trigger next.contains(w)] next.contains(w)
            <==> exists|i: int| 0 <= i < fresh.len() && w == entry_of(#[trigger] fresh[i]) by {
            if next.contains(w) {
                if w == entry {
                    assert(w == entry_of(fresh[fresh.len() - 1]));
                } else {
                    assert(st.next.contains(w));
                    let i = choose|i: int| 0 <= i < prefix.len() && w == entry_of(#[trigger] prefix[i]);
                    assert(prefix[i] == fresh[i]);
                }
            }
            if exists|i: int| 0 <= i < fresh.len() && w == entry_of(#[trigger] fresh[i]) {
                let i = choose|i: int| 0 <= i < fresh.len() && w == entry_of(#[trigger] fresh[i]);
                if i < fresh.len() - 1 {
                    assert(prefix[i] == fresh[i]);
                    assert(st.next.contains(w));
                    assert(fresh[i].snapshot.id@ != fresh[fresh.len() - 1].snapshot.id@);
                }
            }
        }
    }
}

/// A second pass over the same sessions, each reread to the same facts,
/// meets every tracked session once and finds nothing changed.
proof fn lemma_reconcile_again(
    table: Seq<WatchedSession>,
    fresh: Seq<FreshSession>,
    again: Seq<FreshSession>,
    k: int,
)
    requires
        table_wf(table),
        distinct_fresh_ids(fresh),
        all_reread(fresh),
        all_reread(again),
        again.len() == fresh.len(),
        forall|i: int|
            0 <= i < fresh.len() ==> (#[trigger] again[i]).snapshot.id@ == fresh[i].snapshot.id@
                && again[i].rollout->Ok_0.view().facts() == fresh[i].rollout->Ok_0.view().facts(),
        forall|w: WatchedSession|
            #![trigger table.contains(w)]
            table.contains(w) <==> exists|i: int|
                0 <= i < fresh.len() && w == entry_of(#[trigger] fresh[i]),
        0 <= k <= again.len(),
    ensures
        reconcile_fold(table, again.take(k)) is Ok,
        !reconcile_fold(table, again.take(k))->Ok_0.changed,
        table_wf(reconcile_fold(table, again.take(k))->Ok_0.previous),
        forall|w: WatchedSession|
            #![trigger reconcile_fold(table, again.take(k))->Ok_0.previous.contains(w)]
            reconcile_fold(table, again.take(k))->Ok_0.previous.contains(w) <==> exists|i: int|
                k <= i < fresh.len() && w == entry_of(#[trigger] fresh[i]),
        table_wf(reconcile_fold(table, again.take(k))->Ok_0.next),
    decreases k,
{
    if k == 0 {
        assert(again.take(0) =~= Seq::<FreshSession>::empty());
        assert(table_wf(Seq::<WatchedSession>::empty())) by {
            assert(watched_ids(Seq::<WatchedSession>::empty()) =~= Seq::<Seq<char>>::empty());
        }
    } else {
        lemma_reconcile_again(table, fresh, again, k - 1);
        assert(again.take(k).drop_last() =~= again.take(k - 1));
        assert(again.take(k).last() == again[k - 1]);
        let st = reconcile_fold(table, again.take(k - 1))->Ok_0;
        let item = again[k - 1];
        let id = item.snapshot.id@;
        lemma_table_take(st.previous, id);
        lemma_table_put(st.next, entry_of(item));
        let target = entry_of(fresh[k - 1]);
        assert(st.previous.contains(target));
        let (rest, existing) = table_take(st.previous, id);
        match existing {
            Some(x) => {
                let a = choose|a: int| 0 <= a < st.previous.len() && st.previous[a] == x;
                let b = choose|b: int| 0 <= b < st.previous.len() && st.previous[b] == target;
                lemma_table_unique(st.previous, a, b);
                assert(x == target);
            },
            None => {
                assert(false);
            },
        }
        assert forall|w: WatchedSession| #![trigger rest.contains(w)] rest.contains(w)
            <==> exists|i: int| k <= i < fresh.len() && w == entry_of(#[trigger] fresh[i]) by {
            if rest.contains(w) {
                let i = choose|i: int| k - 1 <= i < fresh.len() && w == entry_of(#[trigger] fresh[i]);
                if i == k - 1 {
                    assert(w.snapshot.id@ == id);
                }
            }
            if exists|i: int| k <= i < fresh.len() && w == entry_of(#[trigger] fresh[i]) {
                let i = choose|i: int| k <= i < fresh.len() && w == entry_of(#[trigger] fresh[i]);
                assert(fresh[k - 1].snapshot.id@ != fresh[i].snapshot.id@);
                assert(st.previous.contains(w));
            }
        }
    }
}

/// Reconciling again with the same sessions, each reread to the same facts,
/// reports nothing: no session is new, changed or gone.
pub proof fn lemma_reconcile_is_idempotent(
    start: Seq<WatchedSession>,
    fresh: Seq<FreshSession>,
    again: Seq<FreshSession>,
)
    requires
        table_wf(start),
        distinct_fresh_ids(fresh),
        all_reread(fresh),
        all_reread(again),
        again.len() == fresh.len(),
        forall|i: int|
            0 <= i < fresh.len() ==> (#[trigger] again[i]).snapshot.id@ == fresh[i].snapshot.id@
                && again[i].rollout->Ok_0.view().facts() == fresh[i].rollout->Ok_0.view().facts(),
    ensures
        reconcile_fold(start, fresh) is Ok,
        reconcile_fold(reconcile_fold(start, fresh)->Ok_0.next, again) is Ok,
        !reconcile_fold(reconcile_fold(start, fresh)->Ok_0.next, again)->Ok_0.changed,
        reconcile_fold(reconcile_fold(start, fresh)->Ok_0.next, again)->Ok_0.previous.len() == 0,
{
    lemma_reconcile_tracks_fresh(start, fresh);
    let table = reconcile_fold(start, fresh)->Ok_0.next;
    lemma_reconcile_again(table, fresh, again, again.len() as int);
    assert(again.take(again.len() as int) =~= again);
    let left = reconcile_fold(table, again)->Ok_0.previous;
    if left.len() > 0 {
        assert(left.contains(left[0]));
    }
}

/// The sessions not met yet during a reconciliation are among those watched
/// before it.
proof fn lemma_reconcile_previous(start: Seq<WatchedSession>, fresh: Seq<FreshSession>)
    requires
        table_wf(start),
        all_reread(fresh),
    ensures
        reconcile_fold(start, fresh) is Ok,
        table_wf(reconcile_fold(start, fresh)->Ok_0.previous),
        forall|w: WatchedSession|
            #![trigger reconcile_fold(start, fresh)->Ok_0.previous.contains(w)]
            reconcile_fold(start, fresh)->Ok_0.previous.contains(w) ==> start.contains(w),
    decreases fresh.len(),
{
    if fresh.len() > 0 {
        let prefix = fresh.drop_last();
        assert(all_reread(prefix)) by {
            assert forall|i: int| 0 <= i < prefix.len() implies (#[trigger] prefix[i]).rollout is Ok by {
                assert(prefix[i] == fresh[i]);
            }
        }
        lemma_reconcile_previous(start, prefix);
        let st = reconcile_fold(start, prefix)->Ok_0;
        let last = fresh.last();
        assert(last == fresh[fresh.len() - 1]);
        lemma_table_take(st.previous, last.snapshot.id@);
    }
}

/// Whether a reread session publishes other facts than every watched session
/// of its identifier: it is new, or its rollout grew while no notification
/// was handled.
pub open spec fn reread_differs(start: Seq<WatchedSession>, fresh: FreshSession) -> bool {
    forall|w: WatchedSession|
        #![trigger start.contains(w)]
        start.contains(w) && w.snapshot.id@ == fresh.snapshot.id@ ==> w.rollout.view().facts()
            != fresh.rollout->Ok_0.view().facts()
}

/// A reconciliation that rereads every session notices a session whose
/// rollout changed without a notification (or that is new): it succeeds and
/// counts as a change, so `reconcile` reports a full snapshot of the sessions
/// as reread.
pub proof fn lemma_missed_append_is_reported(
    start: Seq<WatchedSession>,
    fresh: Seq<FreshSession>,
    k: int,
)
    requires
        table_wf(start),
        all_reread(fresh),
        0 <= k < fresh.len(),
        reread_differs(start, fresh[k]),
    ensures
        reconcile_fold(start, fresh) is Ok,
        reconcile_fold(start, fresh)->Ok_0.changed,
    decreases fresh.len(),
{
    let prefix = fresh.drop_last();
    assert(all_reread(prefix)) by {
        assert forall|i: int| 0 <= i < prefix.len() implies (#[trigger] prefix[i]).rollout is Ok by {
            assert(prefix[i] == fresh[i]);
        }
    }
    lemma_reconcile_previous(start, prefix);
    let st = reconcile_fold(start, prefix)->Ok_0;
    let last = fresh.last();
    assert(last == fresh[fresh.len() - 1]);
    lemma_table_take(st.previous, last.snapshot.id@);
    if k < fresh.len() - 1 {
        assert(prefix[k] == fresh[k]);
        lemma_missed_append_is_reported(start, prefix, k);
    } else {
        match table_take(st.previous, last.snapshot.id@).1 {
            Some(x) => {
                assert(st.previous.contains(x));
                assert(start.contains(x));
            },
            None => {},
        }
    }
}
} // verus!
