//! Informational timing facts reconstructed from recorded workflow events.

use vstd::prelude::*;

use crate::decimal::{parse_i64, parsed_i64};
use crate::model::{WorkflowEvent, WorkflowEventKind};
use crate::order::{first_match, lemma_first_match, lemma_first_match_at};
use crate::text::{copy_opt, opt_chars, opt_text_equal, split_char, split_on, string_from_chars, sub_chars};

verus! {

/// The test for one character.
pub open spec fn equals_char(c: char) -> spec_fn(char) -> bool {
    |x: char| x == c
}

/// The parts before and after the first `c` in `s`.
pub open spec fn split_once(s: Seq<char>, c: char) -> Option<(Seq<char>, Seq<char>)> {
    match first_match(s, equals_char(c)) {
        None => None,
        Some(i) => Some((s.take(i as int), s.skip(i + 1 as int))),
    }
}

/// Whether a character starts the zone of a time of day.
pub open spec fn is_zone_start(c: char) -> bool {
    c == 'Z' || c == '+' || c == '-'
}

pub open spec fn zone_test() -> spec_fn(char) -> bool {
    |c: char| is_zone_start(c)
}

/// Milliseconds from the digits after the decimal point of the seconds: at
/// most the first three characters are read.
pub open spec fn fraction_ms(fraction: Seq<char>) -> Option<int> {
    if fraction.len() == 0 {
        Some(0)
    } else {
        let digits = if fraction.len() >= 3 {
            fraction.take(3)
        } else {
            fraction
        };
        let scale: int = if digits.len() == 3 {
            1
        } else if digits.len() == 2 {
            10
        } else {
            100
        };
        match parsed_i64(digits) {
            Some(v) => Some(v * scale),
            None => None,
        }
    }
}

/// The offset of a zone such as `Z`, `+09:00` or `-05:30`, in minutes east.
pub open spec fn offset_minutes(zone: Seq<char>) -> Option<int> {
    if zone.len() == 0 || zone == seq!['Z'] {
        Some(0)
    } else {
        let sign: int = if zone[0] == '+' {
            1
        } else {
            -1
        };
        match split_once(zone.skip(1), ':') {
            None => None,
            Some((hours, minutes)) => match (parsed_i64(hours), parsed_i64(minutes)) {
                (Some(h), Some(m)) => Some(sign * (h * 60 + m)),
                _ => None,
            },
        }
    }
}

/// Days since 1970-01-01 of a proleptic Gregorian date, for months 1 to 12
/// and days 1 to 31.
pub open spec fn civil_days(year: int, month: int, day: int) -> Option<int> {
    if !(1 <= month <= 12) || !(1 <= day <= 31) {
        None
    } else {
        let y = year - (if month <= 2 {
            1int
        } else {
            0int
        });
        let era = if y >= 0 {
            y / 400
        } else {
            -((399 - y) / 400)
        };
        let year_of_era = y - era * 400;
        let month_prime = month + (if month > 2 {
            -3int
        } else {
            9int
        });
        let day_of_year = (153 * month_prime + 2) / 5 + day - 1;
        let day_of_era = year_of_era * 365 + year_of_era / 4 - year_of_era / 100 + day_of_year;
        Some(era * 146097 + day_of_era - 719468)
    }
}

/// Year, month and day of a date written `year-month-day`; later parts are
/// ignored.
pub open spec fn date_fields(date: Seq<char>) -> Option<(i64, i64, i64)> {
    let parts = split_on(date, '-');
    if parts.len() < 3 {
        None
    } else {
        match (parsed_i64(parts[0]), parsed_i64(parts[1]), parsed_i64(parts[2])) {
            (Some(year), Some(month), Some(day)) => Some((year, month, day)),
            _ => None,
        }
    }
}

/// Where the zone of a time of day starts: at its first `Z`, `+` or `-`.
pub open spec fn zone_start(time: Seq<char>) -> int {
    match first_match(time, zone_test()) {
        Some(i) => i as int,
        None => time.len() as int,
    }
}

/// Hour, minute, second, milliseconds and zone offset of a time of day
/// written `hh:mm:ss[.fff][zone]`.
pub open spec fn time_fields(time: Seq<char>) -> Option<(i64, i64, i64, int, int)> {
    let start = zone_start(time);
    let parts = split_on(time.take(start), ':');
    if parts.len() < 3 {
        None
    } else {
        let seconds = parts[2];
        let (whole, fraction) = match split_once(seconds, '.') {
            Some(p) => p,
            None => (seconds, Seq::empty()),
        };
        match (
            parsed_i64(parts[0]),
            parsed_i64(parts[1]),
            parsed_i64(whole),
            fraction_ms(fraction),
            offset_minutes(time.skip(start)),
        ) {
            (Some(hour), Some(minute), Some(second), Some(millis), Some(offset)) => Some(
                (hour, minute, second, millis, offset),
            ),
            _ => None,
        }
    }
}

/// The instant of an RFC 3339 timestamp in milliseconds since the epoch, for
/// the forms that rollout records use: `date T hh:mm:ss[.fff][zone]`. Other
/// forms have no instant.
pub open spec fn timestamp_ms(value: Seq<char>) -> Option<int> {
    match split_once(value, 'T') {
        None => None,
        Some((date, time)) => match (date_fields(date), time_fields(time)) {
            (Some((year, month, day)), Some((hour, minute, second, millis, offset))) => match civil_days(
                year as int,
                month as int,
                day as int,
            ) {
                None => None,
                Some(days) => Some(
                    (((days * 24 + hour) * 60 + minute - offset) * 60 + second) * 1000 + millis,
                ),
            },
            _ => None,
        },
    }
}

/// The instant of a timestamp when it fits in 64 bits.
pub open spec fn timestamp_value(value: Seq<char>) -> Option<i64> {
    match timestamp_ms(value) {
        Some(v) => if i64::MIN <= v <= i64::MAX {
            Some(v as i64)
        } else {
            None
        },
        None => None,
    }
}

/// The index of the first `c` in `s`.
fn find_char(s: &[char], c: char) -> (found: Option<usize>)
    ensures
        match first_match(s@, equals_char(c)) {
            Some(i) => i < s@.len() && found == Some(i as usize),
            None => found is None,
        },
{
    let mut i: usize = 0;
    while i < s.len() && s[i] != c
        invariant
            i <= s@.len(),
            forall|j: int| 0 <= j < i ==> !equals_char(c)(#[trigger] s@[j]),
        decreases s.len() - i,
    {
        i = i + 1;
    }
    proof {
        lemma_first_match_at(s@, equals_char(c), i as int);
    }
    if i == s.len() {
        None
    } else {
        Some(i)
    }
}

/// The parts before and after the first `c` in `s`.
fn split_once_chars(s: &[char], c: char) -> (parts: Option<(Vec<char>, Vec<char>)>)
    ensures
        match split_once(s@, c) {
            Some((a, b)) => parts matches Some((x, y)) && x@ == a && y@ == b,
            None => parts is None,
        },
{
    match find_char(s, c) {
        None => None,
        Some(i) => {
            let n = s.len();
            proof {
                lemma_first_match(s@, equals_char(c));
                assert(s@.len() == n as int);
            }
            let before = sub_chars(s, 0, i);
            let after = sub_chars(s, i + 1, n);
            proof {
                assert(before@ =~= s@.take(i as int));
                assert(after@ =~= s@.skip(i + 1));
            }
            Some((before, after))
        },
    }
}

fn parse_chars_i64(s: &[char]) -> (value: Option<i64>)
    ensures
        value == parsed_i64(s@),
{
    let text = string_from_chars(s);
    parse_i64(text.as_str())
}

fn fraction_millis(fraction: &[char]) -> (millis: Option<i64>)
    ensures
        match fraction_ms(fraction@) {
            Some(v) => millis == Some(v as i64) && v == millis->0,
            None => millis is None,
        },
{
    if fraction.len() == 0 {
        return Some(0);
    }
    let count: usize = if fraction.len() >= 3 {
        3
    } else {
        fraction.len()
    };
    let digits = sub_chars(fraction, 0, count);
    proof {
        if fraction@.len() >= 3 {
            assert(digits@ =~= fraction@.take(3));
        } else {
            assert(digits@ =~= fraction@);
        }
    }
    let scale: i64 = if count == 3 {
        1
    } else if count == 2 {
        10
    } else {
        100
    };
    match parse_chars_i64(digits.as_slice()) {
        Some(v) => {
            if count == 3 {
                Some(v)
            } else {
                proof {
                    assert(v <= 99 && v >= -99) by {
                        let d = if digits@.len() > 0 && (digits@[0] == '+' || digits@[0] == '-') {
                            digits@.skip(1)
                        } else {
                            digits@
                        };
                        lemma_short_digits_value(d);
                    }
                }
                Some(v * scale)
            }
        },
        None => None,
    }
}

/// At most two digits make a value below one hundred.
proof fn lemma_short_digits_value(d: Seq<char>)
    requires
        d.len() <= 2,
        crate::decimal::all_digits(d),
    ensures
        crate::decimal::digits_value(d) <= 99,
{
    if d.len() > 0 {
        assert(crate::decimal::is_digit(d[d.len() - 1]));
        assert(crate::decimal::digit_value(d.last()) <= 9);
        if d.len() == 2 {
            let e = d.drop_last();
            assert(crate::decimal::is_digit(d[0]));
            assert(e.last() == d[0]);
            assert(e.drop_last().len() == 0);
            assert(crate::decimal::digits_value(e.drop_last()) == 0);
            assert(crate::decimal::digits_value(e) <= 9);
        } else {
            assert(d.drop_last().len() == 0);
            assert(crate::decimal::digits_value(d.drop_last()) == 0);
        }
    }
}

fn zone_offset(zone: &[char]) -> (offset: Option<i128>)
    ensures
        match offset_minutes(zone@) {
            Some(v) => offset == Some(v as i128) && v == offset->0,
            None => offset is None,
        },
        offset matches Some(o) ==> -10000000000000000000000i128 < o < 10000000000000000000000i128,
{
    if zone.len() == 0 || (zone.len() == 1 && zone[0] == 'Z') {
        proof {
            if zone@.len() == 1 {
                assert(zone@ =~= seq!['Z']);
            }
        }
        return Some(0);
    }
    proof {
        assert(zone@ != seq!['Z']) by {
            if zone@ == seq!['Z'] {
                assert(zone@[0] == 'Z');
            }
        }
    }
    let sign: i128 = if zone[0] == '+' {
        1
    } else {
        -1
    };
    let rest = sub_chars(zone, 1, zone.len());
    proof {
        assert(rest@ =~= zone@.skip(1));
    }
    match split_once_chars(rest.as_slice(), ':') {
        None => None,
        Some((hours, minutes)) => {
            match (parse_chars_i64(hours.as_slice()), parse_chars_i64(minutes.as_slice())) {
                (Some(h), Some(m)) => {
                    let magnitude: i128 = h as i128 * 60 + m as i128;
                    Some(sign * magnitude)
                },
                _ => None,
            }
        },
    }
}

fn days_from_civil(year: i64, month: i64, day: i64) -> (days: Option<i128>)
    ensures
        match civil_days(year as int, month as int, day as int) {
            Some(v) => days == Some(v as i128) && v == days->0,
            None => days is None,
        },
        days matches Some(d) ==> -10000000000000000000000i128 < d < 10000000000000000000000i128,
{
    if !(1 <= month && month <= 12) || !(1 <= day && day <= 31) {
        return None;
    }
    let y: i128 = year as i128 - if month <= 2 {
        1
    } else {
        0
    };
    let era: i128 = if y >= 0 {
        y / 400
    } else {
        -((399 - y) / 400)
    };
    let year_of_era: i128 = y - era * 400;
    assert(0 <= year_of_era < 400);
    let month_prime: i128 = month as i128 + if month > 2 {
        -3
    } else {
        9
    };
    let day_of_year: i128 = (153 * month_prime + 2) / 5 + day as i128 - 1;
    let day_of_era: i128 = year_of_era * 365 + year_of_era / 4 - year_of_era / 100 + day_of_year;
    Some(era * 146097 + day_of_era - 719468)
}

/// The index of the first zone character of `time`, or its length.
fn zone_start_of(time: &[char]) -> (start: usize)
    ensures
        start == zone_start(time@),
        start <= time@.len(),
{
    let mut i: usize = 0;
    while i < time.len() && !(time[i] == 'Z' || time[i] == '+' || time[i] == '-')
        invariant
            i <= time@.len(),
            forall|j: int| 0 <= j < i ==> !zone_test()(#[trigger] time@[j]),
        decreases time.len() - i,
    {
        i = i + 1;
    }
    proof {
        lemma_first_match_at(time@, zone_test(), i as int);
    }
    i
}

fn date_fields_of(date: &[char]) -> (fields: Option<(i64, i64, i64)>)
    ensures
        fields == date_fields(date@),
{
    let text = string_from_chars(date);
    let parts = split_char(text.as_str(), '-');
    proof {
        assert(parts@.len() == split_on(date@, '-').len());
    }
    if parts.len() < 3 {
        return None;
    }
    proof {
        assert(parts@[0]@ == split_on(date@, '-')[0]);
        assert(parts@[1]@ == split_on(date@, '-')[1]);
        assert(parts@[2]@ == split_on(date@, '-')[2]);
    }
    match (
        parse_chars_i64(parts[0].as_slice()),
        parse_chars_i64(parts[1].as_slice()),
        parse_chars_i64(parts[2].as_slice()),
    ) {
        (Some(year), Some(month), Some(day)) => Some((year, month, day)),
        _ => None,
    }
}

fn time_fields_of(time: &[char]) -> (fields: Option<(i64, i64, i64, i64, i128)>)
    ensures
        match time_fields(time@) {
            Some((h, m, s, ms, off)) => fields matches Some((a, b, c, d, e)) && a == h && b == m
                && c == s && d == ms && e == off,
            None => fields is None,
        },
        fields matches Some((a, b, c, d, e)) ==> -10000000000000000000000i128 < e
            < 10000000000000000000000i128,
{
    let start = zone_start_of(time);
    let clock = sub_chars(time, 0, start);
    let clock_text = string_from_chars(clock.as_slice());
    let parts = split_char(clock_text.as_str(), ':');
    proof {
        assert(clock@ =~= time@.take(start as int));
        assert(parts@.len() == split_on(clock@, ':').len());
    }
    if parts.len() < 3 {
        return None;
    }
    proof {
        assert(parts@[0]@ == split_on(clock@, ':')[0]);
        assert(parts@[1]@ == split_on(clock@, ':')[1]);
        assert(parts@[2]@ == split_on(clock@, ':')[2]);
    }
    let seconds = &parts[2];
    let (whole, fraction) = match split_once_chars(seconds.as_slice(), '.') {
        Some(p) => p,
        None => {
            let all = sub_chars(seconds.as_slice(), 0, seconds.len());
            proof {
                assert(all@ =~= seconds@);
            }
            let none: Vec<char> = Vec::new();
            proof {
                assert(none@ =~= Seq::<char>::empty());
            }
            (all, none)
        },
    };
    let zone = sub_chars(time, start, time.len());
    proof {
        assert(zone@ =~= time@.skip(start as int));
    }
    match (
        parse_chars_i64(parts[0].as_slice()),
        parse_chars_i64(parts[1].as_slice()),
        parse_chars_i64(whole.as_slice()),
        fraction_millis(fraction.as_slice()),
        zone_offset(zone.as_slice()),
    ) {
        (Some(hour), Some(minute), Some(second), Some(millis), Some(offset)) => Some(
            (hour, minute, second, millis, offset),
        ),
        _ => None,
    }
}

/// Small RFC 3339 reader for the timestamps of rollout records. It is
/// intentionally conservative: unsupported forms simply have no instant.
pub fn parse_timestamp_ms(value: &str) -> (instant: Option<i64>)
    ensures
        instant == timestamp_value(value@),
{
    let chars = crate::text::chars_of(value);
    let (date, time) = match split_once_chars(chars.as_slice(), 'T') {
        Some(parts) => parts,
        None => {
            return None;
        },
    };
    let (year, month, day) = match date_fields_of(date.as_slice()) {
        Some(f) => f,
        None => {
            return None;
        },
    };
    let (hour, minute, second, millis, offset) = match time_fields_of(time.as_slice()) {
        Some(f) => f,
        None => {
            return None;
        },
    };
    let days = match days_from_civil(year, month, day) {
        Some(d) => d,
        None => {
            return None;
        },
    };
    assert(-10000000000000000000000i128 < offset < 10000000000000000000000i128);
    let a: i128 = days * 24 + hour as i128;
    let b: i128 = a * 60 + minute as i128 - offset;
    let c: i128 = b * 60 + second as i128;
    let total: i128 = c * 1000 + millis as i128;
    if total >= -9223372036854775808i128 && total <= 9223372036854775807i128 {
        Some(total as i64)
    } else {
        None
    }
}

/// Informational timing facts reconstructed from recorded workflow events.
///
/// Missing or unparseable timestamps remain missing. This model deliberately
/// has no bearing on readiness or any other lifecycle state.
#[derive(Debug, PartialEq, Eq)]
pub struct SessionMetrics {
    pub started_at: Option<String>,
    pub ended_at: Option<String>,
    pub duration_ms: Option<u64>,
    pub verification_completed_at: Option<String>,
}

impl Default for SessionMetrics {
    fn default() -> (metrics: Self)
        ensures
            metrics.view() == empty_metrics(),
    {
        SessionMetrics {
            started_at: None,
            ended_at: None,
            duration_ms: None,
            verification_completed_at: None,
        }
    }
}

/// The content of session metrics.
pub struct MetricsView {
    pub started: Option<Seq<char>>,
    pub ended: Option<Seq<char>>,
    pub duration: Option<u64>,
    pub verification: Option<Seq<char>>,
}

pub open spec fn empty_metrics() -> MetricsView {
    MetricsView { started: None, ended: None, duration: None, verification: None }
}

/// The milliseconds from `start` to `end`, when both have an instant and the
/// end is not earlier.
pub open spec fn duration_between(start: Option<Seq<char>>, end: Option<Seq<char>>) -> Option<u64> {
    match (start, end) {
        (Some(s), Some(e)) => match (timestamp_value(s), timestamp_value(e)) {
            (Some(a), Some(b)) => if b >= a {
                Some((b - a) as u64)
            } else {
                None
            },
            _ => None,
        },
        _ => None,
    }
}

/// One event taken into account, with the turn that started last and has not
/// completed. The first start fixes the start time; any start clears the end
/// and the duration; the completion of the open turn sets them; a command
/// execution with a time records when verification last completed.
pub open spec fn metrics_step(
    state: (MetricsView, Option<Seq<char>>),
    event: WorkflowEvent,
) -> (MetricsView, Option<Seq<char>>) {
    let (m, active) = state;
    let time = opt_chars(event.timestamp);
    match event.kind {
        WorkflowEventKind::TaskStarted => (
            MetricsView {
                started: if m.started is None {
                    time
                } else {
                    m.started
                },
                ended: None,
                duration: None,
                ..m
            },
            opt_chars(event.summary),
        ),
        WorkflowEventKind::TaskCompleted => if active == opt_chars(event.summary) {
            (MetricsView { ended: time, duration: duration_between(m.started, time), ..m }, None)
        } else {
            state
        },
        WorkflowEventKind::CommandExecution => if time is Some {
            (MetricsView { verification: time, ..m }, active)
        } else {
            state
        },
        _ => state,
    }
}

pub open spec fn metrics_fold(events: Seq<WorkflowEvent>) -> (MetricsView, Option<Seq<char>>)
    decreases events.len(),
{
    if events.len() == 0 {
        (empty_metrics(), None)
    } else {
        metrics_step(metrics_fold(events.drop_last()), events.last())
    }
}

impl SessionMetrics {
    pub open spec fn view(self) -> MetricsView {
        MetricsView {
            started: opt_chars(self.started_at),
            ended: opt_chars(self.ended_at),
            duration: self.duration_ms,
            verification: opt_chars(self.verification_completed_at),
        }
    }

    pub fn from_workflow_events(events: &[WorkflowEvent]) -> (metrics: Self)
        ensures
            metrics.view() == metrics_fold(events@).0,
    {
        let mut metrics = SessionMetrics::default();
        let mut active_turn: Option<String> = None;
        let mut index: usize = 0;
        while index < events.len()
            invariant
                index <= events@.len(),
                (metrics.view(), opt_chars(active_turn)) == metrics_fold(events@.take(index as int)),
            decreases events.len() - index,
        {
            proof {
                assert(events@.take(index + 1).drop_last() =~= events@.take(index as int));
            }
            let event = &events[index];
            match event.kind {
                WorkflowEventKind::TaskStarted => {
                    if metrics.started_at.is_none() {
                        metrics.started_at = copy_opt(&event.timestamp);
                    }
                    active_turn = copy_opt(&event.summary);
                    metrics.ended_at = None;
                    metrics.duration_ms = None;
                },
                WorkflowEventKind::TaskCompleted => {
                    if opt_text_equal(&active_turn, &event.summary) {
                        metrics.ended_at = copy_opt(&event.timestamp);
                        metrics.duration_ms = duration(&metrics.started_at, &metrics.ended_at);
                        active_turn = None;
                    }
                },
                WorkflowEventKind::CommandExecution => {
                    if event.timestamp.is_some() {
                        metrics.verification_completed_at = copy_opt(&event.timestamp);
                    }
                },
                _ => {},
            }
            index = index + 1;
        }
        proof {
            assert(events@.take(events@.len() as int) =~= events@);
        }
        metrics
    }
}

fn duration(start: &Option<String>, end: &Option<String>) -> (ms: Option<u64>)
    ensures
        ms == duration_between(opt_chars(*start), opt_chars(*end)),
{
    match (start, end) {
        (Some(s), Some(e)) => match (parse_timestamp_ms(s.as_str()), parse_timestamp_ms(e.as_str())) {
            (Some(a), Some(b)) => if b >= a {
                Some((b as i128 - a as i128) as u64)
            } else {
                None
            },
            _ => None,
        },
        _ => None,
    }
}


/// A new start always clears the end and the duration; a command execution
/// never changes them.
pub proof fn lemma_start_clears_duration(events: Seq<WorkflowEvent>, event: WorkflowEvent)
    ensures
        event.kind == WorkflowEventKind::TaskStarted ==> metrics_fold(events.push(event)).0.ended
            is None && metrics_fold(events.push(event)).0.duration is None,
        event.kind == WorkflowEventKind::CommandExecution ==> metrics_fold(
            events.push(event),
        ).0.duration == metrics_fold(events).0.duration && metrics_fold(events.push(event)).0.ended
            == metrics_fold(events).0.ended && metrics_fold(events.push(event)).0.started
            == metrics_fold(events).0.started,
{
    assert(events.push(event).drop_last() =~= events);
}

/// A task start that carries a timestamp.
pub open spec fn timed_start(event: WorkflowEvent) -> bool {
    event.kind == WorkflowEventKind::TaskStarted && event.timestamp is Some
}

/// Before any timed start, no start time is known.
proof fn lemma_no_timed_start(events: Seq<WorkflowEvent>)
    requires
        forall|j: int| 0 <= j < events.len() ==> !timed_start(#[trigger] events[j]),
    ensures
        metrics_fold(events).0.started is None,
    decreases events.len(),
{
    if events.len() > 0 {
        let front = events.drop_last();
        assert forall|j: int| 0 <= j < front.len() implies !timed_start(#[trigger] front[j]) by {
            assert(front[j] == events[j]);
        }
        lemma_no_timed_start(front);
        assert(!timed_start(events[events.len() - 1]));
    }
}

/// Once known, the start time is never replaced.
proof fn lemma_start_time_kept(events: Seq<WorkflowEvent>, n: int)
    requires
        0 <= n <= events.len(),
        metrics_fold(events.take(n)).0.started is Some,
    ensures
        metrics_fold(events).0.started == metrics_fold(events.take(n)).0.started,
    decreases events.len() - n,
{
    if n == events.len() {
        assert(events.take(n) =~= events);
    } else {
        assert(events.take(n + 1).drop_last() =~= events.take(n));
        lemma_start_time_kept(events, n + 1);
    }
}

/// The start time is that of the first task start carrying a timestamp;
/// later starts never change it, and without any such start there is none.
pub proof fn lemma_started_is_first_timed_start(events: Seq<WorkflowEvent>)
    ensures
        forall|i: int|
            0 <= i < events.len() && timed_start(#[trigger] events[i]) && (forall|j: int|
                0 <= j < i ==> !timed_start(events[j])) ==> metrics_fold(events).0.started
                == opt_chars(events[i].timestamp),
        (forall|j: int| 0 <= j < events.len() ==> !timed_start(#[trigger] events[j]))
            ==> metrics_fold(events).0.started is None,
{
    assert forall|i: int|
        0 <= i < events.len() && timed_start(#[trigger] events[i]) && (forall|j: int|
            0 <= j < i ==> !timed_start(events[j])) implies metrics_fold(events).0.started
        == opt_chars(events[i].timestamp) by {
        let front = events.take(i);
        assert forall|j: int| 0 <= j < front.len() implies !timed_start(#[trigger] front[j]) by {
            assert(front[j] == events[j]);
        }
        lemma_no_timed_start(front);
        assert(events.take(i + 1).drop_last() =~= front);
        assert(events.take(i + 1).last() == events[i]);
        lemma_start_time_kept(events, i + 1);
    }
    if forall|j: int| 0 <= j < events.len() ==> !timed_start(#[trigger] events[j]) {
        lemma_no_timed_start(events);
    }
}


/// A duration is only ever the time from the recorded start to the recorded
/// end: both are known instants, the end not before the start, and the
/// duration is their difference in milliseconds.
pub proof fn lemma_duration_spans_start_to_end(events: Seq<WorkflowEvent>)
    ensures
        metrics_fold(events).0.duration matches Some(d) ==> {
            let m = metrics_fold(events).0;
            &&& m.started is Some
            &&& m.ended is Some
            &&& timestamp_value(m.started->0) is Some
            &&& timestamp_value(m.ended->0) is Some
            &&& timestamp_value(m.started->0)->0 <= timestamp_value(m.ended->0)->0
            &&& d == timestamp_value(m.ended->0)->0 - timestamp_value(m.started->0)->0
        },
    decreases events.len(),
{
    if events.len() > 0 {
        lemma_duration_spans_start_to_end(events.drop_last());
    }
}

} // verus!
