//! Interpretation of recorded sessions: the metadata check, the lifecycle,
//! verification, file-change and assistant-result facts of rollout records,
//! and the snapshot built from one rollout.
//!
//! Each rollout line is parsed as JSON here; reading the state database and
//! the rollout files from disk is the application's part.

use vstd::prelude::*;

use crate::json::{json_error_message, json_of_text, parse_json_text, JsonValue};
use crate::model::WorkflowEvent;
use crate::order::{keep_where, lemma_keep_where};
use crate::project::ProjectIdentity;
use crate::readiness::{
    event_facts, lifecycle_fold, reduce_lifecycle, LifecycleEvent, LifecycleKind, Readiness,
};
use crate::text::{
    chars_equal_str, chars_of, eq_ignore_ascii_case, eq_ignore_ascii_case_str, is_blank,
    is_blank_str, is_separator, last_segment, last_segment_start, opt_chars, string_from_chars,
    sub_chars, trim, trim_bounds,
};
use crate::verification::{command_evidence, parse_command_execution, VerificationEvidence};

verus! {

pub const RECENT_SESSION_LIMIT: usize = 20;

pub const CHANGED_FILE_LIMIT: usize = 5;

/// One recent root/user session as recorded on disk.
#[derive(Debug, PartialEq, Eq)]
pub struct SessionSnapshot {
    pub id: String,
    pub title: Option<String>,
    pub cwd: Option<String>,
    pub project_label: Option<String>,
    pub project_identity: Option<ProjectIdentity>,
    pub readiness: Readiness,
    pub latest_result: Option<String>,
    pub recency_at_ms: i64,
    pub lifecycle_timestamp: Option<String>,
    pub changed_files: Vec<String>,
    pub rollout_path: String,
    pub verification: Option<VerificationEvidence>,
    pub workflow_events: Vec<WorkflowEvent>,
}

/// A thread row of the state database that may become a snapshot.
#[derive(Debug, PartialEq, Eq)]
pub struct Candidate {
    pub id: String,
    pub title: Option<String>,
    pub cwd: Option<String>,
    pub rollout_path: String,
    pub recency_at_ms: i64,
}

/// Why a candidate session was not turned into a snapshot.
#[derive(Debug, PartialEq, Eq)]
pub enum DiscoveryError {
    Database(String),
    Rollout(String),
    Json(String),
    InvalidMetadata,
    IdentityMismatch,
    MalformedLifecycle,
}

impl DiscoveryError {
    /// The human-readable description of the error.
    pub open spec fn text(self) -> Seq<char> {
        match self {
            DiscoveryError::Database(m) => "database error: "@ + m@,
            DiscoveryError::Rollout(m) => "rollout read error: "@ + m@,
            DiscoveryError::Json(m) => "rollout JSON error: "@ + m@,
            DiscoveryError::InvalidMetadata => "invalid rollout session metadata"@,
            DiscoveryError::IdentityMismatch => "rollout identity mismatch"@,
            DiscoveryError::MalformedLifecycle => "malformed lifecycle record"@,
        }
    }

    pub fn message(&self) -> (text: String)
        ensures
            text@ == self.text(),
    {
        let mut text = String::new();
        match self {
            DiscoveryError::Database(m) => {
                text.append("database error: ");
                text.append(m.as_str());
            },
            DiscoveryError::Rollout(m) => {
                text.append("rollout read error: ");
                text.append(m.as_str());
            },
            DiscoveryError::Json(m) => {
                text.append("rollout JSON error: ");
                text.append(m.as_str());
            },
            DiscoveryError::InvalidMetadata => {
                text.append("invalid rollout session metadata");
            },
            DiscoveryError::IdentityMismatch => {
                text.append("rollout identity mismatch");
            },
            DiscoveryError::MalformedLifecycle => {
                text.append("malformed lifecycle record");
            },
        }
        text
    }
}

/// `s` without trailing path separators.
pub open spec fn trim_end_separators(s: Seq<char>) -> Seq<char>
    decreases s.len(),
{
    if s.len() > 0 && is_separator(s.last()) {
        trim_end_separators(s.drop_last())
    } else {
        s
    }
}

/// The display label of a working directory: its final path component,
/// ignoring surrounding white space and trailing separators. Drive roots,
/// empty paths and `.`/`..` components have no label.
pub open spec fn project_label_of(cwd: Option<Seq<char>>) -> Option<Seq<char>> {
    match cwd {
        None => None,
        Some(c) => {
            let path = trim_end_separators(trim(c));
            if path.len() == 0 || path.last() == ':' {
                None
            } else {
                let component = trim(last_segment(path));
                if component.len() == 0 || component == "."@ || component == ".."@ {
                    None
                } else {
                    Some(component)
                }
            }
        },
    }
}

pub fn project_label(cwd: Option<&str>) -> (label: Option<String>)
    ensures
        opt_chars(label) == project_label_of(
            match cwd {
                Some(c) => Some(c@),
                None => None,
            },
        ),
{
    let cwd = match cwd {
        Some(c) => c,
        None => {
            return None;
        },
    };
    let chars = chars_of(cwd);
    let (start, trimmed_end) = trim_bounds(chars.as_slice());
    let ghost trimmed = chars@.subrange(start as int, trimmed_end as int);
    let mut end = trimmed_end;
    assert(chars@.subrange(start as int, end as int) == trimmed);
    while end > start && (chars[end - 1] == '/' || chars[end - 1] == '\\')
        invariant
            start <= end <= trimmed_end <= chars@.len(),
            trim_end_separators(trimmed) == trim_end_separators(
                chars@.subrange(start as int, end as int),
            ),
        decreases end - start,
    {
        proof {
            assert(chars@.subrange(start as int, end as int).drop_last() =~= chars@.subrange(
                start as int,
                end - 1,
            ));
        }
        end = end - 1;
    }
    let path = sub_chars(chars.as_slice(), start, end);
    proof {
        if path@.len() > 0 {
            assert(path@.last() == chars@[end - 1]);
        }
        assert(trim_end_separators(path@) == path@);
    }
    if end == start || chars[end - 1] == ':' {
        return None;
    }
    let segment_start = last_segment_start(path.as_slice());
    let segment = sub_chars(path.as_slice(), segment_start, path.len());
    let (a, b) = trim_bounds(segment.as_slice());
    if a == b {
        return None;
    }
    let component = sub_chars(segment.as_slice(), a, b);
    if chars_equal_str(component.as_slice(), ".") || chars_equal_str(component.as_slice(), "..") {
        return None;
    }
    Some(string_from_chars(component.as_slice()))
}

/// The metadata line must name a user session whose identifiers are the
/// expected one.
pub open spec fn metadata_verdict(metadata: JsonValue, expected_id: Seq<char>) -> Result<
    (),
    DiscoveryError,
> {
    if !metadata.member_is("type"@, "session_meta"@) {
        Err(DiscoveryError::InvalidMetadata)
    } else {
        match metadata.member("payload"@) {
            None => Err(DiscoveryError::InvalidMetadata),
            Some(payload) => if !payload.member_is("id"@, expected_id) || !payload.member_is(
                "session_id"@,
                expected_id,
            ) || !payload.member_is("thread_source"@, "user"@) {
                Err(DiscoveryError::IdentityMismatch)
            } else {
                Ok(())
            },
        }
    }
}

pub fn validate_metadata(metadata: &JsonValue, expected_id: &str) -> (result: Result<
    (),
    DiscoveryError,
>)
    ensures
        result == metadata_verdict(*metadata, expected_id@),
{
    if !metadata.member_equals("type", "session_meta") {
        return Err(DiscoveryError::InvalidMetadata);
    }
    let payload = match metadata.get("payload") {
        Some(p) => p,
        None => {
            return Err(DiscoveryError::InvalidMetadata);
        },
    };
    if !payload.member_equals("id", expected_id) {
        return Err(DiscoveryError::IdentityMismatch);
    }
    if !payload.member_equals("session_id", expected_id) {
        return Err(DiscoveryError::IdentityMismatch);
    }
    if !payload.member_equals("thread_source", "user") {
        return Err(DiscoveryError::IdentityMismatch);
    }
    Ok(())
}

/// The lifecycle fact of an `event_msg` record: its kind, its non-empty turn
/// identifier and the record's timestamp. Other records carry none; an
/// `event_msg` without payload, or a start or completion without a turn, is
/// malformed.
pub open spec fn lifecycle_fact(record: JsonValue) -> Result<
    Option<(LifecycleKind, Seq<char>, Option<Seq<char>>)>,
    DiscoveryError,
> {
    if !record.member_is("type"@, "event_msg"@) {
        Ok(None)
    } else {
        match record.member("payload"@) {
            None => Err(DiscoveryError::MalformedLifecycle),
            Some(payload) => {
                let kind = if payload.member_is("type"@, "task_started"@) {
                    Some(LifecycleKind::TaskStarted)
                } else if payload.member_is("type"@, "task_complete"@) {
                    Some(LifecycleKind::TaskComplete)
                } else {
                    None
                };
                match kind {
                    None => Ok(None),
                    Some(k) => match payload.text_member("turn_id"@) {
                        Some(turn) => if turn.len() > 0 {
                            Ok(Some((k, turn, record.text_member("timestamp"@))))
                        } else {
                            Err(DiscoveryError::MalformedLifecycle)
                        },
                        None => Err(DiscoveryError::MalformedLifecycle),
                    },
                }
            },
        }
    }
}

pub open spec fn fact_view(fact: Result<Option<(LifecycleKind, String, Option<String>)>, DiscoveryError>) -> Result<
    Option<(LifecycleKind, Seq<char>, Option<Seq<char>>)>,
    DiscoveryError,
> {
    match fact {
        Ok(Some((k, t, ts))) => Ok(Some((k, t@, opt_chars(ts)))),
        Ok(None) => Ok(None),
        Err(e) => Err(e),
    }
}

pub fn lifecycle_record(record: &JsonValue) -> (fact: Result<
    Option<(LifecycleKind, String, Option<String>)>,
    DiscoveryError,
>)
    ensures
        fact_view(fact) == lifecycle_fact(*record),
{
    if !record.member_equals("type", "event_msg") {
        return Ok(None);
    }
    let payload = match record.get("payload") {
        Some(p) => p,
        None => {
            return Err(DiscoveryError::MalformedLifecycle);
        },
    };
    let kind = if payload.member_equals("type", "task_started") {
        LifecycleKind::TaskStarted
    } else if payload.member_equals("type", "task_complete") {
        LifecycleKind::TaskComplete
    } else {
        return Ok(None);
    };
    let turn = match payload.str_member("turn_id") {
        Some(t) => t,
        None => {
            return Err(DiscoveryError::MalformedLifecycle);
        },
    };
    if turn.unicode_len() == 0 {
        return Err(DiscoveryError::MalformedLifecycle);
    }
    let timestamp = match record.str_member("timestamp") {
        Some(t) => Some(t.to_owned()),
        None => None,
    };
    Ok(Some((kind, turn.to_owned(), timestamp)))
}


/// Whether a completed item's type names a file change.
pub open spec fn is_file_change_kind(kind: Seq<char>) -> bool {
    eq_ignore_ascii_case(kind, "filechange"@) || eq_ignore_ascii_case(kind, "file_change"@)
}

/// The non-blank `path` members of change entries, in order.
pub open spec fn change_entry_paths(items: Seq<JsonValue>) -> Seq<Seq<char>>
    decreases items.len(),
{
    if items.len() == 0 {
        Seq::empty()
    } else {
        let prefix = change_entry_paths(items.drop_last());
        match items.last().text_member("path"@) {
            Some(path) => if !is_blank(path) {
                prefix.push(path)
            } else {
                prefix
            },
            None => prefix,
        }
    }
}

/// The non-blank keys of a change map, in order.
pub open spec fn change_map_paths(entries: Seq<(String, JsonValue)>) -> Seq<Seq<char>>
    decreases entries.len(),
{
    if entries.len() == 0 {
        Seq::empty()
    } else {
        let prefix = change_map_paths(entries.drop_last());
        if !is_blank(entries.last().0@) {
            prefix.push(entries.last().0@)
        } else {
            prefix
        }
    }
}

/// The paths that a structured file-change event reports; every other record
/// reports none.
pub open spec fn file_changes(record: JsonValue) -> Seq<Seq<char>> {
    match record.member("payload"@) {
        None => Seq::empty(),
        Some(payload) => {
            let item = payload.member("item"@);
            let kind = match item {
                Some(i) => i.text_member("type"@),
                None => None,
            };
            if !(record.member_is("type"@, "event_msg"@) && payload.member_is(
                "type"@,
                "item_completed"@,
            ) && kind is Some && is_file_change_kind(kind->0)) {
                Seq::empty()
            } else {
                match item->0.member("changes"@) {
                    Some(JsonValue::Array(items)) => change_entry_paths(items@),
                    Some(JsonValue::Object(entries)) => change_map_paths(entries@),
                    _ => Seq::empty(),
                }
            }
        },
    }
}

pub open spec fn string_views(v: Vec<String>) -> Seq<Seq<char>> {
    seq_views(v@)
}

/// The characters of each string.
pub open spec fn seq_views(v: Seq<String>) -> Seq<Seq<char>> {
    v.map_values(|s: String| s@)
}

pub fn file_change_paths(record: &JsonValue) -> (paths: Vec<String>)
    ensures
        string_views(paths) == file_changes(*record),
{
    let payload = match record.get("payload") {
        Some(p) => p,
        None => {
            return Vec::new();
        },
    };
    let item = payload.get("item");
    let kind_matches = match item {
        Some(i) => match i.str_member("type") {
            Some(kind) => eq_ignore_ascii_case_str(kind, "filechange") || eq_ignore_ascii_case_str(
                kind,
                "file_change",
            ),
            None => false,
        },
        None => false,
    };
    if !(record.member_equals("type", "event_msg") && payload.member_equals("type", "item_completed")
        && kind_matches) {
        return Vec::new();
    }
    let item = match item {
        Some(i) => i,
        None => {
            return Vec::new();
        },
    };
    let mut paths: Vec<String> = Vec::new();
    match item.get("changes") {
        Some(JsonValue::Array(items)) => {
            let mut index: usize = 0;
            while index < items.len()
                invariant
                    index <= items@.len(),
                    string_views(paths) == change_entry_paths(items@.take(index as int)),
                decreases items.len() - index,
            {
                proof {
                    assert(items@.take(index + 1).drop_last() =~= items@.take(index as int));
                    assert(items@.take(index + 1).last() == items@[index as int]);
                }
                match items[index].str_member("path") {
                    Some(path) => {
                        if !is_blank_str(path) {
                            let ghost before_push = paths@;
                            let owned = path.to_owned();
                            paths.push(owned);
                            proof {
                                assert(string_views(paths) =~= before_push.map_values(
                                    |s: String| s@,
                                ).push(owned@));
                            }
                        }
                    },
                    None => {},
                }
                index = index + 1;
            }
            proof {
                assert(items@.take(items@.len() as int) =~= items@);
            }
        },
        Some(JsonValue::Object(entries)) => {
            let mut index: usize = 0;
            while index < entries.len()
                invariant
                    index <= entries@.len(),
                    string_views(paths) == change_map_paths(entries@.take(index as int)),
                decreases entries.len() - index,
            {
                proof {
                    assert(entries@.take(index + 1).drop_last() =~= entries@.take(index as int));
                    assert(entries@.take(index + 1).last() == entries@[index as int]);
                }
                if !is_blank_str(entries[index].0.as_str()) {
                    let ghost before_push = paths@;
                    let owned = entries[index].0.clone();
                    paths.push(owned);
                    proof {
                        assert(string_views(paths) =~= before_push.map_values(|s: String| s@).push(
                            owned@,
                        ));
                    }
                }
                index = index + 1;
            }
            proof {
                assert(entries@.take(entries@.len() as int) =~= entries@);
            }
        },
        _ => {},
    }
    paths
}

pub open spec fn differs_from(path: Seq<char>) -> spec_fn(Seq<char>) -> bool {
    |f: Seq<char>| f != path
}

/// Records one changed path: it moves to the end, and the oldest entry is
/// dropped when the list grows past the limit.
pub open spec fn add_recent(files: Seq<Seq<char>>, path: Seq<char>) -> Seq<Seq<char>> {
    let moved = keep_where(files, differs_from(path)).push(path);
    if moved.len() > CHANGED_FILE_LIMIT {
        moved.drop_first()
    } else {
        moved
    }
}

/// Records several changed paths in order.
pub open spec fn add_all_recent(files: Seq<Seq<char>>, paths: Seq<Seq<char>>) -> Seq<Seq<char>>
    decreases paths.len(),
{
    if paths.len() == 0 {
        files
    } else {
        add_recent(add_all_recent(files, paths.drop_last()), paths.last())
    }
}

pub fn append_changed_files(files: &mut Vec<String>, paths: Vec<String>)
    ensures
        string_views(*final(files)) == add_all_recent(string_views(*old(files)), string_views(paths)),
{
    let ghost start = string_views(*files);
    let ghost all = string_views(paths);
    let mut rest = paths;
    let ghost mut consumed: int = 0;
    let ghost input = rest@;
    assert(input.skip(0) =~= input);
    assert(all.take(0) =~= Seq::<Seq<char>>::empty());
    while rest.len() > 0
        invariant
            0 <= consumed <= input.len(),
            rest@ == input.skip(consumed),
            all == input.map_values(|s: String| s@),
            string_views(*files) == add_all_recent(start, all.take(consumed)),
        decreases rest.len(),
    {
        let path = rest.remove(0);
        proof {
            assert(path == input[consumed]);
            assert(rest@ =~= input.skip(consumed + 1));
            assert(all.take(consumed + 1).drop_last() =~= all.take(consumed));
            assert(all.take(consumed + 1).last() == path@);
        }
        let ghost before = string_views(*files);
        let mut kept: Vec<String> = Vec::new();
        let mut index: usize = 0;
        while index < files.len()
            invariant
                index <= files@.len(),
                before == string_views(*files),
                string_views(kept) == keep_where(before.take(index as int), differs_from(path@)),
            decreases files.len() - index,
        {
            proof {
                assert(before.take(index + 1).drop_last() =~= before.take(index as int));
                assert(before.take(index + 1).last() == files@[index as int]@);
            }
            if files[index] != path {
                let ghost kept_before = kept@;
                let owned = files[index].clone();
                kept.push(owned);
                proof {
                    assert(string_views(kept) =~= kept_before.map_values(|s: String| s@).push(owned@));
                }
            }
            index = index + 1;
        }
        proof {
            assert(before.take(before.len() as int) =~= before);
        }
        let ghost kept_before = kept@;
        let ghost path_view = path@;
        kept.push(path);
        proof {
            assert(string_views(kept) =~= kept_before.map_values(|s: String| s@).push(path_view));
        }
        if kept.len() > CHANGED_FILE_LIMIT {
            let ghost full = string_views(kept);
            kept.remove(0);
            proof {
                assert(string_views(kept) =~= full.drop_first());
            }
        }
        *files = kept;
        proof {
            consumed = consumed + 1;
        }
    }
    proof {
        assert(all.take(consumed) =~= all);
    }
}

/// A recent-files list built from distinct paths stays distinct, within the
/// limit, and ends with the path recorded last.
pub proof fn lemma_add_recent(files: Seq<Seq<char>>, path: Seq<char>)
    requires
        files.len() <= CHANGED_FILE_LIMIT,
        forall|i: int, j: int| 0 <= i < j < files.len() ==> files[i] != files[j],
    ensures
        add_recent(files, path).len() <= CHANGED_FILE_LIMIT,
        add_recent(files, path).last() == path,
        forall|i: int, j: int|
            0 <= i < j < add_recent(files, path).len() ==> add_recent(files, path)[i] != add_recent(
                files,
                path,
            )[j],
        add_recent(files, path).contains(path),
{
    let keep = differs_from(path);
    lemma_keep_where(files, keep, |a: Seq<char>, b: Seq<char>| false);
    let kept = keep_where(files, keep);
    let moved = kept.push(path);
    assert(moved.last() == path);
    assert forall|i: int, j: int| 0 <= i < j < moved.len() implies moved[i] != moved[j] by {
        if j == moved.len() - 1 {
            assert(keep(kept[i]));
        } else {
            assert(moved[i] == kept[i] && moved[j] == kept[j]);
            assert(files.contains(kept[i]) && files.contains(kept[j]));
            let a = choose|a: int| 0 <= a < files.len() && files[a] == kept[i];
            let b = choose|b: int| 0 <= b < files.len() && files[b] == kept[j];
            if kept[i] == kept[j] {
                assert(a == b);
                lemma_keep_where_distinct_positions(files, keep, i, j);
            }
        }
    }
    let result = add_recent(files, path);
    if moved.len() > CHANGED_FILE_LIMIT {
        assert forall|i: int, j: int| 0 <= i < j < result.len() implies result[i] != result[j] by {
            assert(result[i] == moved[i + 1] && result[j] == moved[j + 1]);
        }
        assert(result[result.len() - 1] == path);
    } else {
        assert(moved[moved.len() - 1] == path);
    }
}

/// Kept elements of a sequence without duplicates are themselves distinct.
pub proof fn lemma_keep_where_distinct_positions(
    s: Seq<Seq<char>>,
    keep: spec_fn(Seq<char>) -> bool,
    i: int,
    j: int,
)
    requires
        forall|a: int, b: int| 0 <= a < b < s.len() ==> s[a] != s[b],
        0 <= i < j < keep_where(s, keep).len(),
    ensures
        keep_where(s, keep)[i] != keep_where(s, keep)[j],
    decreases s.len(),
{
    let prefix = s.drop_last();
    let r = keep_where(s, keep);
    let rp = keep_where(prefix, keep);
    lemma_keep_where(prefix, keep, |a: Seq<char>, b: Seq<char>| false);
    if keep(s.last()) && j == r.len() - 1 {
        assert(r[i] == rp[i]);
        assert(prefix.contains(rp[i]));
        let a = choose|a: int| 0 <= a < prefix.len() && prefix[a] == rp[i];
        assert(s[a] == rp[i]);
        assert(s[s.len() - 1] == r[j]);
    } else {
        assert(r[i] == rp[i] && r[j] == rp[j]);
        lemma_keep_where_distinct_positions(prefix, keep, i, j);
    }
}


pub open spec fn item_member_is(payload: JsonValue, key: Seq<char>, expected: Seq<char>) -> bool {
    match payload.member("item"@) {
        Some(item) => item.member_is(key, expected),
        None => false,
    }
}

pub open spec fn elements_of(value: Option<JsonValue>) -> Option<Seq<JsonValue>> {
    match value {
        Some(v) => v.elements(),
        None => None,
    }
}

/// The content array of a final assistant answer, in either observed shape:
/// a `message` response item from the assistant in the `final_answer` phase,
/// or an `item_completed` event of an `AgentMessage` in that phase.
pub open spec fn final_answer_content(record: JsonValue) -> Option<Seq<JsonValue>> {
    match record.member("payload"@) {
        None => None,
        Some(payload) => if payload.member_is("type"@, "message"@) && payload.member_is(
            "role"@,
            "assistant"@,
        ) && payload.member_is("phase"@, "final_answer"@) {
            elements_of(payload.member("content"@))
        } else if payload.member_is("type"@, "item_completed"@) && item_member_is(
            payload,
            "type"@,
            "AgentMessage"@,
        ) && item_member_is(payload, "phase"@, "final_answer"@) {
            match payload.member("item"@) {
                Some(item) => elements_of(item.member("content"@)),
                None => None,
            }
        } else {
            None
        },
    }
}

/// The concatenated text of the `output_text` and `Text` parts.
pub open spec fn output_texts(items: Seq<JsonValue>) -> Seq<char>
    decreases items.len(),
{
    if items.len() == 0 {
        Seq::empty()
    } else {
        let prefix = output_texts(items.drop_last());
        let part = items.last();
        if part.member_is("type"@, "output_text"@) || part.member_is("type"@, "Text"@) {
            match part.text_member("text"@) {
                Some(t) => prefix + t,
                None => prefix,
            }
        } else {
            prefix
        }
    }
}

/// The assistant's final text in a record, when it is not blank.
pub open spec fn assistant_text(record: JsonValue) -> Option<Seq<char>> {
    match final_answer_content(record) {
        None => None,
        Some(items) => {
            let text = output_texts(items);
            if is_blank(text) {
                None
            } else {
                Some(text)
            }
        },
    }
}

/// Extracts informational assistant output without contributing to readiness.
/// Missing, partial, or non-final assistant messages are ignored.
pub fn assistant_result(record: &JsonValue) -> (result: Option<String>)
    ensures
        opt_chars(result) == assistant_text(*record),
{
    let payload = match record.get("payload") {
        Some(p) => p,
        None => {
            return None;
        },
    };
    let item = payload.get("item");
    let item_is = |key: &str, expected: &str| -> (r: bool)
        ensures
            r == item_member_is(*payload, key@, expected@),
        {
            match item {
                Some(i) => i.member_equals(key, expected),
                None => false,
            }
        };
    let content = if payload.member_equals("type", "message") && payload.member_equals(
        "role",
        "assistant",
    ) && payload.member_equals("phase", "final_answer") {
        match payload.get("content") {
            Some(c) => c.as_array(),
            None => None,
        }
    } else if payload.member_equals("type", "item_completed") && item_is("type", "AgentMessage")
        && item_is("phase", "final_answer") {
        match item {
            Some(i) => match i.get("content") {
                Some(c) => c.as_array(),
                None => None,
            },
            None => None,
        }
    } else {
        None
    };
    let items = match content {
        Some(items) => items,
        None => {
            return None;
        },
    };
    let mut text = String::new();
    let mut index: usize = 0;
    while index < items.len()
        invariant
            index <= items@.len(),
            text@ == output_texts(items@.take(index as int)),
        decreases items.len() - index,
    {
        proof {
            assert(items@.take(index + 1).drop_last() =~= items@.take(index as int));
            assert(items@.take(index + 1).last() == items@[index as int]);
        }
        let part = &items[index];
        if part.member_equals("type", "output_text") || part.member_equals("type", "Text") {
            match part.str_member("text") {
                Some(t) => text.append(t),
                None => {},
            }
        }
        index = index + 1;
    }
    proof {
        assert(items@.take(items@.len() as int) =~= items@);
    }
    if is_blank_str(text.as_str()) {
        None
    } else {
        Some(text)
    }
}


/// What a rollout's records establish so far.
pub struct DigestView {
    pub events: Seq<(LifecycleKind, Seq<char>)>,
    pub timestamp: Option<Seq<char>>,
    pub verification: Option<(Seq<char>, crate::verification::VerificationOutcome)>,
    pub files: Seq<Seq<char>>,
    pub result: Option<Seq<char>>,
}

pub open spec fn empty_digest() -> DigestView {
    DigestView {
        events: Seq::empty(),
        timestamp: None,
        verification: None,
        files: Seq::empty(),
        result: None,
    }
}

/// One record's contribution: a lifecycle fact is appended and its timestamp
/// kept, the latest verification evidence and assistant result win, and
/// changed paths are recorded; a malformed lifecycle record is an error.
pub open spec fn digest_step(digest: DigestView, record: JsonValue) -> Result<DigestView, DiscoveryError> {
    match lifecycle_fact(record) {
        Err(e) => Err(e),
        Ok(fact) => Ok(
            DigestView {
                events: match fact {
                    Some((k, t, _)) => digest.events.push((k, t)),
                    None => digest.events,
                },
                timestamp: match fact {
                    Some((_, _, ts)) => ts,
                    None => digest.timestamp,
                },
                verification: match command_evidence(record) {
                    Some(e) => Some(e),
                    None => digest.verification,
                },
                files: add_all_recent(digest.files, file_changes(record)),
                result: match assistant_text(record) {
                    Some(r) => Some(r),
                    None => digest.result,
                },
            },
        ),
    }
}

/// The digest of a sequence of records, or the first error.
pub open spec fn digest_records(records: Seq<JsonValue>) -> Result<DigestView, DiscoveryError>
    decreases records.len(),
{
    if records.len() == 0 {
        Ok(empty_digest())
    } else {
        match digest_records(records.drop_last()) {
            Err(e) => Err(e),
            Ok(d) => digest_step(d, records.last()),
        }
    }
}

/// The facts accumulated from the records of one rollout.
pub struct RolloutDigest {
    pub events: Vec<(LifecycleKind, String)>,
    pub lifecycle_timestamp: Option<String>,
    pub verification: Option<VerificationEvidence>,
    pub changed_files: Vec<String>,
    pub latest_result: Option<String>,
}

pub open spec fn evidence_view(e: Option<VerificationEvidence>) -> Option<(Seq<char>, crate::verification::VerificationOutcome)> {
    match e {
        Some(v) => Some((v.command@, v.outcome)),
        None => None,
    }
}

impl RolloutDigest {
    pub open spec fn view(self) -> DigestView {
        DigestView {
            events: self.events@.map_values(|e: (LifecycleKind, String)| (e.0, e.1@)),
            timestamp: opt_chars(self.lifecycle_timestamp),
            verification: evidence_view(self.verification),
            files: string_views(self.changed_files),
            result: opt_chars(self.latest_result),
        }
    }

    pub fn new() -> (digest: Self)
        ensures
            digest.view() == empty_digest(),
    {
        let digest = RolloutDigest {
            events: Vec::new(),
            lifecycle_timestamp: None,
            verification: None,
            changed_files: Vec::new(),
            latest_result: None,
        };
        proof {
            assert(digest.view().events =~= Seq::<(LifecycleKind, Seq<char>)>::empty());
            assert(digest.view().files =~= Seq::<Seq<char>>::empty());
        }
        digest
    }

    /// Takes one record into account.
    pub fn digest_record(&mut self, record: &JsonValue) -> (result: Result<(), DiscoveryError>)
        ensures
            match digest_step(old(self).view(), *record) {
                Err(e) => result == Err::<(), DiscoveryError>(e),
                Ok(d) => result is Ok && final(self).view() == d,
            },
    {
        let fact = match lifecycle_record(record) {
            Err(e) => {
                return Err(e);
            },
            Ok(f) => f,
        };
        match fact {
            Some((kind, turn, timestamp)) => {
                let ghost before = self.events@;
                let ghost turn_view = turn@;
                self.events.push((kind, turn));
                self.lifecycle_timestamp = timestamp;
                proof {
                    assert(self.events@.map_values(|e: (LifecycleKind, String)| (e.0, e.1@))
                        =~= before.map_values(|e: (LifecycleKind, String)| (e.0, e.1@)).push(
                        (kind, turn_view),
                    ));
                }
            },
            None => {},
        }
        match parse_command_execution(record) {
            Some(evidence) => {
                self.verification = Some(evidence);
            },
            None => {},
        }
        let paths = file_change_paths(record);
        append_changed_files(&mut self.changed_files, paths);
        match assistant_result(record) {
            Some(r) => {
                self.latest_result = Some(r);
            },
            None => {},
        }
        Ok(())
    }
}

/// A title that is not blank.
pub open spec fn nonblank(text: Option<Seq<char>>) -> Option<Seq<char>> {
    match text {
        Some(t) => if is_blank(t) {
            None
        } else {
            Some(t)
        },
        None => None,
    }
}

/// The snapshot of `candidate` once its records were digested into `d`.
pub open spec fn is_snapshot_of(s: SessionSnapshot, candidate: Candidate, d: DigestView) -> bool {
    &&& s.id == candidate.id
    &&& opt_chars(s.title) == nonblank(opt_chars(candidate.title))
    &&& s.cwd == candidate.cwd
    &&& opt_chars(s.project_label) == project_label_of(opt_chars(candidate.cwd))
    &&& s.project_identity is None
    &&& s.readiness == lifecycle_fold(d.events).readiness
    &&& opt_chars(s.latest_result) == d.result
    &&& s.recency_at_ms == candidate.recency_at_ms
    &&& opt_chars(s.lifecycle_timestamp) == d.timestamp
    &&& string_views(s.changed_files) == d.files
    &&& s.rollout_path == candidate.rollout_path
    &&& evidence_view(s.verification) == d.verification
    &&& s.workflow_events@.len() == 0
}

/// One rollout line taken into account: a blank line is skipped, a line that
/// is not JSON stops the reading (`Err(None)`), and a record is digested.
pub open spec fn line_step(d: DigestView, line: Seq<char>) -> Result<DigestView, Option<DiscoveryError>> {
    if is_blank(line) {
        Ok(d)
    } else {
        match json_of_text(line) {
            None => Err(None),
            Some(record) => match digest_step(d, record) {
                Ok(next) => Ok(next),
                Err(e) => Err(Some(e)),
            },
        }
    }
}

/// The digest of the record lines that follow the metadata, or the first
/// failure.
pub open spec fn digest_lines(lines: Seq<Seq<char>>) -> Result<DigestView, Option<DiscoveryError>>
    decreases lines.len(),
{
    if lines.len() == 0 {
        Ok(empty_digest())
    } else {
        match digest_lines(lines.drop_last()) {
            Err(e) => Err(e),
            Ok(d) => line_step(d, lines.last()),
        }
    }
}

/// Once a prefix of the lines fails, every longer sequence fails the same way.
proof fn lemma_line_error_persists(lines: Seq<Seq<char>>, n: int)
    requires
        0 <= n <= lines.len(),
        digest_lines(lines.take(n)) is Err,
    ensures
        digest_lines(lines) == digest_lines(lines.take(n)),
    decreases lines.len() - n,
{
    if n < lines.len() {
        assert(lines.take(n + 1).drop_last() =~= lines.take(n));
        lemma_line_error_persists(lines, n + 1);
    } else {
        assert(lines.take(n) =~= lines);
    }
}

/// Builds the snapshot of one candidate from its parsed rollout: the
/// metadata must identify the candidate, then every record is taken into
/// account. The snapshot's project identity is left for the caller, which can
/// inspect the working directory on disk.
pub fn snapshot_from_records(candidate: Candidate, metadata: &JsonValue, records: &Vec<JsonValue>) -> (result:
    Result<SessionSnapshot, DiscoveryError>)
    ensures
        match metadata_verdict(*metadata, candidate.id@) {
            Err(e) => result == Err::<SessionSnapshot, DiscoveryError>(e),
            Ok(_) => match digest_records(records@) {
                Err(e) => result == Err::<SessionSnapshot, DiscoveryError>(e),
                Ok(d) => result matches Ok(s) && is_snapshot_of(s, candidate, d),
            },
        },
{
    match validate_metadata(metadata, candidate.id.as_str()) {
        Err(e) => {
            return Err(e);
        },
        Ok(()) => {},
    }
    let mut digest = RolloutDigest::new();
    let mut index: usize = 0;
    while index < records.len()
        invariant
            index <= records@.len(),
            metadata_verdict(*metadata, candidate.id@) == Ok::<(), DiscoveryError>(()),
            digest_records(records@.take(index as int)) == Ok::<DigestView, DiscoveryError>(
                digest.view(),
            ),
        decreases records.len() - index,
    {
        proof {
            assert(records@.take(index + 1).drop_last() =~= records@.take(index as int));
            assert(records@.take(index + 1).last() == records@[index as int]);
        }
        let ghost before = digest.view();
        match digest.digest_record(&records[index]) {
            Err(e) => {
                proof {
                    assert(digest_records(records@.take(index + 1)) == digest_step(
                        before,
                        records@[index as int],
                    ));
                    assert(digest_records(records@.take(index + 1)) == Err::<DigestView, DiscoveryError>(e));
                    lemma_digest_error_persists(records@, index as int + 1);
                }
                return Err(e);
            },
            Ok(()) => {},
        }
        index = index + 1;
    }
    proof {
        assert(records@.take(records@.len() as int) =~= records@);
    }
    Ok(finish_snapshot(candidate, digest))
}

/// Builds the snapshot of one candidate from the lines of its rollout, as far
/// as they could be read; `read_error` is the error that stopped the reading,
/// if one did. The first line is the session metadata and must identify the
/// candidate; each later line that is not blank is a JSON record taken into
/// account. The snapshot's project identity is left for the caller.
pub fn parse_rollout(candidate: Candidate, lines: &Vec<String>, read_error: Option<String>) -> (result:
    Result<SessionSnapshot, DiscoveryError>)
    ensures
        lines@.len() == 0 ==> result == match read_error {
            Some(m) => Err::<SessionSnapshot, DiscoveryError>(DiscoveryError::Rollout(m)),
            None => Err(DiscoveryError::InvalidMetadata),
        },
        lines@.len() > 0 ==> match json_of_text(lines@[0]@) {
            None => result matches Err(DiscoveryError::Json(_)),
            Some(metadata) => match metadata_verdict(metadata, candidate.id@) {
                Err(e) => result == Err::<SessionSnapshot, DiscoveryError>(e),
                Ok(_) => match digest_lines(seq_views(lines@.skip(1))) {
                    Err(Some(e)) => result == Err::<SessionSnapshot, DiscoveryError>(e),
                    Err(None) => result matches Err(DiscoveryError::Json(_)),
                    Ok(d) => match read_error {
                        Some(m) => result == Err::<SessionSnapshot, DiscoveryError>(
                            DiscoveryError::Rollout(m),
                        ),
                        None => result matches Ok(s) && is_snapshot_of(s, candidate, d),
                    },
                },
            },
        },
{
    if lines.len() == 0 {
        return match read_error {
            Some(m) => Err(DiscoveryError::Rollout(m)),
            None => Err(DiscoveryError::InvalidMetadata),
        };
    }
    let metadata = match parse_json_text(lines[0].as_str()) {
        Err(error) => {
            return Err(DiscoveryError::Json(json_error_message(&error)));
        },
        Ok(value) => value,
    };
    match validate_metadata(&metadata, candidate.id.as_str()) {
        Err(e) => {
            return Err(e);
        },
        Ok(()) => {},
    }
    let ghost rest = seq_views(lines@.skip(1));
    let mut digest = RolloutDigest::new();
    let mut index: usize = 1;
    proof {
        assert(rest.take(0) =~= Seq::<Seq<char>>::empty());
    }
    while index < lines.len()
        invariant
            1 <= index <= lines@.len(),
            rest == seq_views(lines@.skip(1)),
            rest.len() == lines@.len() - 1,
            json_of_text(lines@[0]@) == Some(metadata),
            metadata_verdict(metadata, candidate.id@) is Ok,
            digest_lines(rest.take(index - 1)) == Ok::<DigestView, Option<DiscoveryError>>(
                digest.view(),
            ),
        decreases lines.len() - index,
    {
        let k: usize = index - 1;
        proof {
            assert(rest.take(k + 1).drop_last() =~= rest.take(k as int));
            assert(rest[k as int] == lines@[index as int]@);
            assert(rest.take(k + 1).last() == lines@[index as int]@);
        }
        let ghost before = digest.view();
        let line = lines[index].as_str();
        if !is_blank_str(line) {
            let record = match parse_json_text(line) {
                Err(error) => {
                    proof {
                        assert(line_step(before, rest[k as int]) == Err::<
                            DigestView,
                            Option<DiscoveryError>,
                        >(None));
                        lemma_line_error_persists(rest, k + 1);
                    }
                    return Err(DiscoveryError::Json(json_error_message(&error)));
                },
                Ok(value) => value,
            };
            match digest.digest_record(&record) {
                Err(e) => {
                    proof {
                        assert(line_step(before, rest[k as int]) == Err::<
                            DigestView,
                            Option<DiscoveryError>,
                        >(Some(e)));
                        lemma_line_error_persists(rest, k + 1);
                    }
                    return Err(e);
                },
                Ok(()) => {},
            }
        }
        index = index + 1;
    }
    proof {
        assert(rest.take(rest.len() as int) =~= rest);
    }
    match read_error {
        Some(m) => Err(DiscoveryError::Rollout(m)),
        None => Ok(finish_snapshot(candidate, digest)),
    }
}

/// The snapshot of `candidate` from the digest of its records.
fn finish_snapshot(candidate: Candidate, digest: RolloutDigest) -> (s: SessionSnapshot)
    ensures
        is_snapshot_of(s, candidate, digest.view()),
{
    let ghost digest_view = digest.view();
    let mut lifecycle: Vec<LifecycleEvent> = Vec::new();
    let mut k: usize = 0;
    while k < digest.events.len()
        invariant
            k <= digest.events@.len(),
            lifecycle@.len() == k,
            forall|j: int|
                0 <= j < k ==> (#[trigger] lifecycle@[j]).kind == digest.events@[j].0
                    && lifecycle@[j].turn_id@ == digest.events@[j].1@,
        decreases digest.events.len() - k,
    {
        lifecycle.push(LifecycleEvent { kind: digest.events[k].0, turn_id: digest.events[k].1.as_str() });
        k = k + 1;
    }
    proof {
        assert(event_facts(lifecycle@) =~= digest_view.events);
    }
    let readiness = reduce_lifecycle(lifecycle.as_slice());
    let title = match candidate.title {
        Some(t) => if is_blank_str(t.as_str()) {
            None
        } else {
            Some(t)
        },
        None => None,
    };
    let label = match &candidate.cwd {
        Some(c) => project_label(Some(c.as_str())),
        None => project_label(None),
    };
    SessionSnapshot {
        id: candidate.id,
        title,
        cwd: candidate.cwd,
        project_label: label,
        project_identity: None,
        readiness,
        latest_result: digest.latest_result,
        recency_at_ms: candidate.recency_at_ms,
        lifecycle_timestamp: digest.lifecycle_timestamp,
        changed_files: digest.changed_files,
        rollout_path: candidate.rollout_path,
        verification: digest.verification,
        workflow_events: Vec::new(),
    }
}

/// Once a prefix of the records fails, every longer sequence fails the same way.
pub proof fn lemma_digest_error_persists(records: Seq<JsonValue>, n: int)
    requires
        0 <= n <= records.len(),
        digest_records(records.take(n)) is Err,
    ensures
        digest_records(records) == digest_records(records.take(n)),
    decreases records.len() - n,
{
    if n < records.len() {
        assert(records.take(n + 1).drop_last() =~= records.take(n));
        lemma_digest_error_persists(records, n + 1);
    } else {
        assert(records.take(n) =~= records);
    }
}


/// Only final answers are assistant results: a record yields one only when it
/// is an assistant `message` whose phase is `final_answer`, or an
/// `item_completed` event whose `AgentMessage` item has phase
/// `final_answer`. Commentary and any other phase yield nothing, and the
/// result is never blank.
pub proof fn lemma_only_final_answers_are_results(record: JsonValue)
    requires
        assistant_text(record) is Some,
    ensures
        record.member("payload"@) matches Some(payload) && ((payload.member_is("type"@, "message"@)
            && payload.member_is("role"@, "assistant"@) && payload.member_is(
            "phase"@,
            "final_answer"@,
        )) || (payload.member_is("type"@, "item_completed"@) && item_member_is(
            payload,
            "type"@,
            "AgentMessage"@,
        ) && item_member_is(payload, "phase"@, "final_answer"@))),
        !is_blank(assistant_text(record)->0),
{
}

/// An `item_completed` event whose item's phase is not `final_answer`
/// yields no assistant result.
pub proof fn lemma_commentary_is_ignored(record: JsonValue)
    requires
        record.member("payload"@) matches Some(payload) && payload.member_is(
            "type"@,
            "item_completed"@,
        ) && !item_member_is(payload, "phase"@, "final_answer"@),
    ensures
        assistant_text(record) is None,
{
    reveal_strlit("item_completed");
    reveal_strlit("message");
    assert("item_completed"@[0] == 'i' && "message"@[0] == 'm');
}

} // verus!
