//! Informational verification evidence extracted from completed commands.

use vstd::prelude::*;

use crate::json::JsonValue;
use crate::text::{
    chars_equal_str, chars_of, contains_chars, contains_text, join_lines, join_with_newline,
    last_segment, last_segment_start, occurs_at, split_words, sub_chars, trim, trim_str, words,
};

verus! {

#[derive(Clone, Copy, Debug, PartialEq, Eq, Structural)]
pub enum VerificationOutcome {
    Passed,
    Failed,
}

impl VerificationOutcome {
    pub open spec fn label(self) -> Seq<char> {
        match self {
            VerificationOutcome::Passed => "passed"@,
            VerificationOutcome::Failed => "failed"@,
        }
    }

    pub fn as_str(self) -> (label: &'static str)
        ensures
            label@ == self.label(),
    {
        match self {
            VerificationOutcome::Passed => "passed",
            VerificationOutcome::Failed => "failed",
        }
    }
}

/// The recognized command and its outcome.
#[derive(Debug, PartialEq, Eq)]
pub struct VerificationEvidence {
    pub command: String,
    pub outcome: VerificationOutcome,
}

impl Clone for VerificationEvidence {
    fn clone(&self) -> (copy: Self)
        ensures
            copy == *self,
    {
        VerificationEvidence { command: self.command.clone(), outcome: self.outcome }
    }
}

pub fn copy_opt_evidence(o: &Option<VerificationEvidence>) -> (copy: Option<VerificationEvidence>)
    ensures
        copy == *o,
{
    match o {
        Some(e) => Some(e.clone()),
        None => None,
    }
}


/// The command name this library recognizes: `cargo` (invoked by any path)
/// followed by `test`, `check`, `clippy` or `build`, or by `fmt` with a later
/// `--check` argument.
pub open spec fn recognized_command_name(command: Seq<char>) -> Option<Seq<char>> {
    let ws = words(command);
    if ws.len() < 2 || last_segment(ws[0]) != "cargo"@ {
        None
    } else if ws[1] == "test"@ {
        Some("cargo test"@)
    } else if ws[1] == "check"@ {
        Some("cargo check"@)
    } else if ws[1] == "clippy"@ {
        Some("cargo clippy"@)
    } else if ws[1] == "build"@ {
        Some("cargo build"@)
    } else if ws[1] == "fmt"@ && ws.skip(2).contains("--check"@) {
        Some("cargo fmt --check"@)
    } else {
        None
    }
}

/// Classifies a recognized command execution by name.
pub fn recognized_command(command: &str) -> (name: Option<&'static str>)
    ensures
        match name {
            Some(n) => recognized_command_name(command@) == Some(n@),
            None => recognized_command_name(command@) is None,
        },
{
    let ws = split_words(command);
    proof {
        assert(ws@.map_values(|w: Vec<char>| w@).len() == ws@.len());
    }
    if ws.len() < 2 {
        return None;
    }
    proof {
        assert(ws@[0]@ == words(command@)[0]);
        assert(ws@[1]@ == words(command@)[1]);
    }
    let first = &ws[0];
    let start = last_segment_start(first.as_slice());
    let program = sub_chars(first.as_slice(), start, first.len());
    if !chars_equal_str(program.as_slice(), "cargo") {
        return None;
    }
    let second = ws[1].as_slice();
    if chars_equal_str(second, "test") {
        Some("cargo test")
    } else if chars_equal_str(second, "check") {
        Some("cargo check")
    } else if chars_equal_str(second, "clippy") {
        Some("cargo clippy")
    } else if chars_equal_str(second, "build") {
        Some("cargo build")
    } else if chars_equal_str(second, "fmt") {
        let ghost rest = words(command@).skip(2);
        let mut k: usize = 2;
        while k < ws.len()
            invariant
                2 <= k <= ws@.len(),
                ws@.map_values(|w: Vec<char>| w@) == words(command@),
                rest == words(command@).skip(2),
                words(command@).len() >= 2,
                last_segment(words(command@)[0]) == "cargo"@,
                words(command@)[1] == "fmt"@,
                words(command@)[1] != "test"@,
                words(command@)[1] != "check"@,
                words(command@)[1] != "clippy"@,
                words(command@)[1] != "build"@,
                forall|j: int| 2 <= j < k ==> ws@[j]@ != "--check"@,
            decreases ws.len() - k,
        {
            proof {
                assert(ws@[k as int]@ == words(command@)[k as int]);
            }
            if chars_equal_str(ws[k].as_slice(), "--check") {
                proof {
                    assert(rest[k - 2] == "--check"@);
                    assert(rest.contains("--check"@));
                }
                return Some("cargo fmt --check");
            }
            k = k + 1;
        }
        proof {
            assert forall|j: int| 0 <= j < rest.len() implies rest[j] != "--check"@ by {
                assert(ws@[j + 2]@ == words(command@)[j + 2]);
            }
        }
        None
    } else {
        None
    }
}

pub open spec fn optional_part(o: Option<Seq<char>>) -> Seq<Seq<char>> {
    match o {
        Some(t) => seq![t],
        None => Seq::empty(),
    }
}

/// The recorded output streams that are present, in order.
pub open spec fn present_outputs(item: JsonValue) -> Seq<Seq<char>> {
    optional_part(item.text_member("stdout"@)) + optional_part(item.text_member("stderr"@))
        + optional_part(item.text_member("aggregated_output"@))
}

/// The completed command item of an `item_completed` event.
pub open spec fn command_item(record: JsonValue) -> Option<JsonValue> {
    match record.member("payload"@) {
        Some(payload) => if payload.member_is("type"@, "item_completed"@) {
            match payload.member("item"@) {
                Some(item) => if item.member_is("type"@, "CommandExecution"@) {
                    Some(item)
                } else {
                    None
                },
                None => None,
            }
        } else {
            None
        },
        None => None,
    }
}

/// A non-zero exit code or a failure line means failure; otherwise a zero
/// exit code or a success line means success; anything else is ambiguous.
pub open spec fn command_outcome(exit_code: Option<i64>, output: Seq<char>) -> Option<
    VerificationOutcome,
> {
    if (exit_code is Some && exit_code->0 != 0) || contains_text(output, "test result: FAILED"@)
        || contains_text(output, "error: could not compile"@) {
        Some(VerificationOutcome::Failed)
    } else if exit_code == Some(0i64) || contains_text(output, "test result: ok"@) || contains_text(
        output,
        "Finished "@,
    ) {
        Some(VerificationOutcome::Passed)
    } else {
        None
    }
}

pub open spec fn exit_code_of(item: JsonValue) -> Option<i64> {
    match item.member("exit_code"@) {
        Some(v) => v.integer(),
        None => None,
    }
}

/// The evidence a record carries: a completed, recognized command execution
/// with an unambiguous outcome.
pub open spec fn command_evidence(record: JsonValue) -> Option<(Seq<char>, VerificationOutcome)> {
    match command_item(record) {
        None => None,
        Some(item) => if !item.member_is("status"@, "completed"@) {
            None
        } else {
            match item.text_member("command"@) {
                None => None,
                Some(command) => match recognized_command_name(trim(command)) {
                    None => None,
                    Some(name) => match command_outcome(
                        exit_code_of(item),
                        join_lines(present_outputs(item)),
                    ) {
                        None => None,
                        Some(outcome) => Some((name, outcome)),
                    },
                },
            }
        },
    }
}

/// Extracts conservative, informational verification evidence from a completed
/// command execution. This parser never produces or changes readiness state.
pub fn parse_command_execution(record: &JsonValue) -> (evidence: Option<VerificationEvidence>)
    ensures
        match evidence {
            Some(e) => command_evidence(*record) == Some((e.command@, e.outcome)),
            None => command_evidence(*record) is None,
        },
{
    let payload = match record.get("payload") {
        Some(p) => p,
        None => {
            return None;
        },
    };
    if !payload.member_equals("type", "item_completed") {
        return None;
    }
    let item = match payload.get("item") {
        Some(i) => i,
        None => {
            return None;
        },
    };
    if !item.member_equals("type", "CommandExecution") {
        return None;
    }
    if !item.member_equals("status", "completed") {
        return None;
    }
    let command = match item.str_member("command") {
        Some(c) => trim_str(c),
        None => {
            return None;
        },
    };
    let name = match recognized_command(command.as_str()) {
        Some(n) => n,
        None => {
            return None;
        },
    };
    let mut parts: Vec<Vec<char>> = Vec::new();
    let ghost item_value = *item;
    match item.str_member("stdout") {
        Some(t) => parts.push(chars_of(t)),
        None => {},
    }
    match item.str_member("stderr") {
        Some(t) => parts.push(chars_of(t)),
        None => {},
    }
    match item.str_member("aggregated_output") {
        Some(t) => parts.push(chars_of(t)),
        None => {},
    }
    proof {
        assert(parts@.map_values(|p: Vec<char>| p@) =~= present_outputs(item_value));
    }
    let output = join_with_newline(&parts);
    let exit_code = match item.get("exit_code") {
        Some(v) => v.as_i64(),
        None => None,
    };
    let failed_tests = chars_of("test result: FAILED");
    let build_failure = chars_of("error: could not compile");
    let passed_tests = chars_of("test result: ok");
    let finished = chars_of("Finished ");
    let failed = match exit_code {
        Some(code) => code != 0,
        None => false,
    } || contains_chars(output.as_slice(), failed_tests.as_slice()) || contains_chars(
        output.as_slice(),
        build_failure.as_slice(),
    );
    let outcome = if failed {
        VerificationOutcome::Failed
    } else if match exit_code {
        Some(code) => code == 0,
        None => false,
    } || contains_chars(output.as_slice(), passed_tests.as_slice()) || contains_chars(
        output.as_slice(),
        finished.as_slice(),
    ) {
        VerificationOutcome::Passed
    } else {
        return None;
    };
    Some(VerificationEvidence { command: name.to_owned(), outcome })
}


/// Text found in one of several parts is found in the parts joined by line
/// breaks.
proof fn lemma_contains_joined(parts: Seq<Seq<char>>, k: int, needle: Seq<char>)
    requires
        0 <= k < parts.len(),
        contains_text(parts[k], needle),
    ensures
        contains_text(join_lines(parts), needle),
    decreases parts.len(),
{
    let at = choose|at: int| occurs_at(parts[k], needle, at);
    if parts.len() == 1 {
        assert(occurs_at(join_lines(parts), needle, at));
    } else {
        let front = join_lines(parts.drop_last());
        let whole = join_lines(parts);
        assert(whole == front + seq!['\n'] + parts.last());
        if k == parts.len() - 1 {
            let shift = front.len() + 1;
            assert(whole.subrange(shift + at, shift + at + needle.len()) =~= parts[k].subrange(
                at,
                at + needle.len(),
            ));
            assert(occurs_at(whole, needle, shift + at));
        } else {
            assert(parts.drop_last()[k] == parts[k]);
            lemma_contains_joined(parts.drop_last(), k, needle);
            let at2 = choose|at2: int| occurs_at(front, needle, at2);
            assert(whole.subrange(at2, at2 + needle.len()) =~= front.subrange(
                at2,
                at2 + needle.len(),
            ));
            assert(occurs_at(whole, needle, at2));
        }
    }
}

/// The output stream named `key` of a command item holds `needle`.
pub open spec fn stream_holds(item: JsonValue, key: Seq<char>, needle: Seq<char>) -> bool {
    match item.text_member(key) {
        Some(t) => contains_text(t, needle),
        None => false,
    }
}

/// Some recorded output stream of a command item holds `needle`.
pub open spec fn output_holds(item: JsonValue, needle: Seq<char>) -> bool {
    stream_holds(item, "stdout"@, needle) || stream_holds(item, "stderr"@, needle)
        || stream_holds(item, "aggregated_output"@, needle)
}

proof fn lemma_output_holds(item: JsonValue, needle: Seq<char>)
    requires
        output_holds(item, needle),
    ensures
        contains_text(join_lines(present_outputs(item)), needle),
{
    let a = optional_part(item.text_member("stdout"@));
    let b = optional_part(item.text_member("stderr"@));
    let c = optional_part(item.text_member("aggregated_output"@));
    let parts = present_outputs(item);
    assert(parts == a + b + c);
    if stream_holds(item, "stdout"@, needle) {
        assert(parts[0] == item.text_member("stdout"@)->0);
        lemma_contains_joined(parts, 0, needle);
    } else if stream_holds(item, "stderr"@, needle) {
        let k = a.len() as int;
        assert(parts[k] == item.text_member("stderr"@)->0);
        lemma_contains_joined(parts, k, needle);
    } else {
        let k = (a.len() + b.len()) as int;
        assert(parts[k] == item.text_member("aggregated_output"@)->0);
        lemma_contains_joined(parts, k, needle);
    }
}

/// A completed, recognized command with failure evidence — a non-zero exit
/// code, or output holding `test result: FAILED` or `error: could not
/// compile` — always yields failed evidence, whatever else its output says:
/// failure evidence takes precedence over success evidence.
pub proof fn lemma_failure_evidence_wins(record: JsonValue, item: JsonValue, command: Seq<char>)
    requires
        record.member("payload"@) matches Some(payload) && payload.member_is(
            "type"@,
            "item_completed"@,
        ) && payload.member("item"@) == Some(item),
        item.member_is("type"@, "CommandExecution"@),
        item.member_is("status"@, "completed"@),
        item.text_member("command"@) == Some(command),
        recognized_command_name(trim(command)) is Some,
        (item.member("exit_code"@) matches Some(code) && code.integer() matches Some(n) && n != 0)
            || output_holds(item, "test result: FAILED"@) || output_holds(
            item,
            "error: could not compile"@,
        ),
    ensures
        command_evidence(record) matches Some((name, outcome)) && name == recognized_command_name(
            trim(command),
        )->0 && outcome == VerificationOutcome::Failed,
{
    if output_holds(item, "test result: FAILED"@) {
        lemma_output_holds(item, "test result: FAILED"@);
    }
    if output_holds(item, "error: could not compile"@) {
        lemma_output_holds(item, "error: could not compile"@);
    }
}

/// Evidence is passed only without any failure evidence: a passed outcome
/// comes with no non-zero exit code and no failure line in any output.
pub proof fn lemma_passed_means_no_failure(record: JsonValue)
    requires
        command_evidence(record) matches Some((_, outcome)) && outcome
            == VerificationOutcome::Passed,
    ensures
        record.member("payload"@) matches Some(payload) && payload.member("item"@) matches Some(
            item,
        ) && !(item.member("exit_code"@) matches Some(code) && code.integer() matches Some(n) && n
            != 0) && !output_holds(item, "test result: FAILED"@) && !output_holds(
            item,
            "error: could not compile"@,
        ),
{
    let item = command_item(record)->0;
    if output_holds(item, "test result: FAILED"@) {
        lemma_output_holds(item, "test result: FAILED"@);
    }
    if output_holds(item, "error: could not compile"@) {
        lemma_output_holds(item, "error: could not compile"@);
    }
}

/// `cargo`, invoked by any path, followed by `test`, `check`, `clippy` or
/// `build` is recognized under that name, and `cargo fmt` with a later
/// `--check` as `cargo fmt --check`; a first word that is not `cargo` is
/// never recognized.
pub proof fn lemma_cargo_commands_recognized(command: Seq<char>)
    ensures
        ({
            let ws = words(command);
            &&& ws.len() >= 2 && last_segment(ws[0]) == "cargo"@ ==> {
                &&& ws[1] == "test"@ ==> recognized_command_name(command) == Some("cargo test"@)
                &&& ws[1] == "check"@ ==> recognized_command_name(command) == Some("cargo check"@)
                &&& ws[1] == "clippy"@ ==> recognized_command_name(command) == Some(
                    "cargo clippy"@,
                )
                &&& ws[1] == "build"@ ==> recognized_command_name(command) == Some("cargo build"@)
                &&& ws[1] == "fmt"@ && ws.skip(2).contains("--check"@) ==> recognized_command_name(
                    command,
                ) == Some("cargo fmt --check"@)
            }
            &&& (ws.len() < 2 || last_segment(ws[0]) != "cargo"@) ==> recognized_command_name(
                command,
            ) is None
        }),
{
    reveal_strlit("test");
    reveal_strlit("check");
    reveal_strlit("clippy");
    reveal_strlit("build");
    reveal_strlit("fmt");
    let ws = words(command);
    assert("test"@[0] == 't' && "check"@[0] == 'c' && "clippy"@[0] == 'c' && "build"@[0] == 'b'
        && "fmt"@[0] == 'f');
    assert("check"@[1] == 'h' && "clippy"@[1] == 'l');
    assert("test"@ != "check"@ && "test"@ != "clippy"@ && "test"@ != "build"@ && "test"@ != "fmt"@);
    assert("check"@ != "clippy"@ && "check"@ != "build"@ && "check"@ != "fmt"@);
    assert("clippy"@ != "build"@ && "clippy"@ != "fmt"@);
    assert("build"@ != "fmt"@);
}

} // verus!
