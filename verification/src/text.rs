//! Character-level text helpers with specifications over `Seq<char>`.

use vstd::prelude::*;

verus! {

/// Equality of two string slices.
///
/// Trusted: calls `<str as PartialEq>::eq`, which std documents as comparing
/// the two strings' contents; two strings have equal contents exactly when
/// their character sequences are equal.
#[verifier::external_body]
pub(crate) fn str_equal(left: &str, right: &str) -> (equal: bool)
    ensures
        equal == (left@ == right@),
{
    left == right
}


/// The characters of a string slice, in order.
pub fn chars_of(s: &str) -> (chars: Vec<char>)
    ensures
        chars@ == s@,
{
    broadcast use vstd::string::group_string_axioms;
    let mut chars: Vec<char> = Vec::new();
    for c in it: s.chars()
        invariant
            chars@ == it.seq().take(it.index() as int),
            it.seq() == s@,
    {
        chars.push(c);
    }
    chars
}


/// Appends one character.
///
/// Trusted: calls `String::push`, which std documents as appending the
/// character to the end of the string.
#[verifier::external_body]
pub(crate) fn push_char(s: &mut String, c: char)
    ensures
        final(s)@ == old(s)@.push(c),
{
    s.push(c);
}

/// A string holding exactly the given characters.
pub fn string_from_chars(chars: &[char]) -> (s: String)
    ensures
        s@ == chars@,
{
    let mut s = String::new();
    let mut index: usize = 0;
    while index < chars.len()
        invariant
            index <= chars.len(),
            s@ == chars@.take(index as int),
        decreases chars.len() - index,
    {
        push_char(&mut s, chars[index]);
        proof {
            assert(chars@.take(index + 1) =~= chars@.take(index as int).push(chars@[index as int]));
        }
        index = index + 1;
    }
    proof {
        assert(chars@.take(chars.len() as int) =~= chars@);
    }
    s
}

/// A string holding the characters of `chars` from `from` up to `to`.
pub fn string_from_range(chars: &[char], from: usize, to: usize) -> (s: String)
    requires
        from <= to <= chars@.len(),
    ensures
        s@ == chars@.subrange(from as int, to as int),
{
    let mut s = String::new();
    let mut index: usize = from;
    while index < to
        invariant
            from <= index <= to <= chars@.len(),
            s@ == chars@.subrange(from as int, index as int),
        decreases to - index,
    {
        push_char(&mut s, chars[index]);
        proof {
            assert(chars@.subrange(from as int, index + 1) =~= chars@.subrange(
                from as int,
                index as int,
            ).push(chars@[index as int]));
        }
        index = index + 1;
    }
    s
}

/// The White_Space characters of Unicode, which `char::is_whitespace` accepts.
pub open spec fn is_space(c: char) -> bool {
    let v = c as u32;
    (0x09 <= v && v <= 0x0d) || v == 0x20 || v == 0x85 || v == 0xa0 || v == 0x1680 || (0x2000
        <= v && v <= 0x200a) || v == 0x2028 || v == 0x2029 || v == 0x202f || v == 0x205f || v
        == 0x3000
}

/// The Unicode control characters (general category Cc), which
/// `char::is_control` accepts.
pub open spec fn is_control(c: char) -> bool {
    let v = c as u32;
    v <= 0x1f || (0x7f <= v && v <= 0x9f)
}

pub fn is_space_char(c: char) -> (space: bool)
    ensures
        space == is_space(c),
{
    let v = c as u32;
    (0x09 <= v && v <= 0x0d) || v == 0x20 || v == 0x85 || v == 0xa0 || v == 0x1680 || (0x2000
        <= v && v <= 0x200a) || v == 0x2028 || v == 0x2029 || v == 0x202f || v == 0x205f || v
        == 0x3000
}

pub fn is_control_char(c: char) -> (control: bool)
    ensures
        control == is_control(c),
{
    let v = c as u32;
    v <= 0x1f || (0x7f <= v && v <= 0x9f)
}

/// `s` with leading white space removed.
pub open spec fn trim_start(s: Seq<char>) -> Seq<char>
    decreases s.len(),
{
    if s.len() > 0 && is_space(s[0]) {
        trim_start(s.drop_first())
    } else {
        s
    }
}

/// `s` with trailing white space removed.
pub open spec fn trim_end(s: Seq<char>) -> Seq<char>
    decreases s.len(),
{
    if s.len() > 0 && is_space(s.last()) {
        trim_end(s.drop_last())
    } else {
        s
    }
}

/// `s` with white space removed at both ends, as `str::trim` does.
pub open spec fn trim(s: Seq<char>) -> Seq<char> {
    trim_end(trim_start(s))
}

/// Every character of `s` is white space (so `trim(s)` is empty).
pub open spec fn is_blank(s: Seq<char>) -> bool {
    forall|i: int| 0 <= i < s.len() ==> is_space(#[trigger] s[i])
}

/// Bounds `(start, end)` such that `trim(s) == s.subrange(start, end)`.
pub fn trim_bounds(chars: &[char]) -> (bounds: (usize, usize))
    ensures
        bounds.0 <= bounds.1 <= chars@.len(),
        trim(chars@) == chars@.subrange(bounds.0 as int, bounds.1 as int),
        (bounds.0 == bounds.1) == is_blank(chars@),
{
    let n = chars.len();
    let mut start: usize = 0;
    assert(chars@.skip(0) =~= chars@);
    while start < n && is_space_char(chars[start])
        invariant
            start <= n == chars@.len(),
            trim_start(chars@) == trim_start(chars@.skip(start as int)),
            forall|i: int| 0 <= i < start ==> is_space(#[trigger] chars@[i]),
        decreases n - start,
    {
        proof {
            assert(chars@.skip(start as int).drop_first() =~= chars@.skip(start + 1));
        }
        start = start + 1;
    }
    assert(trim_start(chars@) == chars@.subrange(start as int, n as int)) by {
        assert(chars@.skip(start as int) =~= chars@.subrange(start as int, n as int));
    }
    let mut end: usize = n;
    while end > start && is_space_char(chars[end - 1])
        invariant
            start <= end <= n == chars@.len(),
            trim(chars@) == trim_end(chars@.subrange(start as int, end as int)),
            forall|i: int| end <= i < n ==> is_space(#[trigger] chars@[i]),
        decreases end - start,
    {
        proof {
            assert(chars@.subrange(start as int, end as int).drop_last() =~= chars@.subrange(
                start as int,
                end - 1,
            ));
        }
        end = end - 1;
    }
    proof {
        if start < end {
            assert(!is_space(chars@[end - 1]));
            assert(!is_blank(chars@)) by {
                assert(!is_space(chars@[end - 1]));
            }
        } else {
            assert(start == end);
            if start < n {
                assert(!is_space(chars@[start as int]));
                assert(false);
            }
            assert(is_blank(chars@));
        }
    }
    (start, end)
}

/// `s` with white space removed at both ends.
pub fn trim_str(s: &str) -> (trimmed: String)
    ensures
        trimmed@ == trim(s@),
{
    let chars = chars_of(s);
    let (start, end) = trim_bounds(chars.as_slice());
    string_from_range(chars.as_slice(), start, end)
}

/// Whether `s` is empty or white space only.
pub fn is_blank_str(s: &str) -> (blank: bool)
    ensures
        blank == is_blank(s@),
{
    let chars = chars_of(s);
    let (start, end) = trim_bounds(chars.as_slice());
    start == end
}


/// The characters of an optional string.
pub open spec fn opt_chars(o: Option<String>) -> Option<Seq<char>> {
    match o {
        Some(s) => Some(s@),
        None => None,
    }
}

/// Equality of two optional strings by content.
pub fn opt_text_equal(a: &Option<String>, b: &Option<String>) -> (equal: bool)
    ensures
        equal == (opt_chars(*a) == opt_chars(*b)),
{
    match (a, b) {
        (Some(x), Some(y)) => str_equal(x.as_str(), y.as_str()),
        (None, None) => true,
        _ => false,
    }
}

/// A copy of an optional string.
pub fn copy_opt(o: &Option<String>) -> (copy: Option<String>)
    ensures
        copy == *o,
{
    match o {
        Some(s) => Some(s.clone()),
        None => None,
    }
}

/// A copy of a vector of strings.
pub fn copy_strings(v: &Vec<String>) -> (copy: Vec<String>)
    ensures
        copy@ == v@,
{
    let mut copy: Vec<String> = Vec::new();
    let mut index: usize = 0;
    while index < v.len()
        invariant
            index <= v@.len(),
            copy@ == v@.take(index as int),
        decreases v.len() - index,
    {
        copy.push(v[index].clone());
        proof {
            assert(v@.take(index + 1) =~= v@.take(index as int).push(v@[index as int]));
        }
        index = index + 1;
    }
    proof {
        assert(v@.take(v@.len() as int) =~= v@);
    }
    copy
}


/// `needle` occurs in `hay` starting at `at`.
pub open spec fn occurs_at(hay: Seq<char>, needle: Seq<char>, at: int) -> bool {
    0 <= at && at + needle.len() <= hay.len() && hay.subrange(at, at + needle.len()) == needle
}

/// `needle` occurs somewhere in `hay`, as `str::contains` reports.
pub open spec fn contains_text(hay: Seq<char>, needle: Seq<char>) -> bool {
    exists|at: int| occurs_at(hay, needle, at)
}

/// Whether `needle` occurs in `hay` starting at `at`.
pub fn occurs_at_index(hay: &[char], needle: &[char], at: usize) -> (found: bool)
    requires
        at + needle@.len() <= hay@.len(),
    ensures
        found == occurs_at(hay@, needle@, at as int),
{
    let mut k: usize = 0;
    let n = hay.len();
    while k < needle.len()
        invariant
            n == hay@.len(),
            at + needle@.len() <= hay@.len(),
            k <= needle@.len(),
            forall|j: int| 0 <= j < k ==> hay@[at + j] == needle@[j],
        decreases needle.len() - k,
    {
        if hay[at + k] != needle[k] {
            proof {
                assert(hay@.subrange(at as int, at + needle@.len())[k as int] != needle@[k as int]);
            }
            return false;
        }
        k = k + 1;
    }
    proof {
        assert(hay@.subrange(at as int, at + needle@.len()) =~= needle@);
    }
    true
}

/// Whether `needle` occurs in `hay`.
pub fn contains_chars(hay: &[char], needle: &[char]) -> (found: bool)
    ensures
        found == contains_text(hay@, needle@),
{
    if needle.len() > hay.len() {
        proof {
            assert forall|at: int| !occurs_at(hay@, needle@, at) by {}
        }
        return false;
    }
    let last = hay.len() - needle.len();
    let mut at: usize = 0;
    while at < last
        invariant
            at <= last,
            last + needle@.len() == hay@.len(),
            forall|j: int| 0 <= j < at ==> !occurs_at(hay@, needle@, j),
        decreases last - at,
    {
        if occurs_at_index(hay, needle, at) {
            return true;
        }
        at = at + 1;
    }
    let found = occurs_at_index(hay, needle, last);
    proof {
        if !found {
            assert forall|j: int| !occurs_at(hay@, needle@, j) by {
                if 0 <= j < at {
                }
            }
        }
    }
    found
}

/// The ASCII lower-case form of a character; other characters are unchanged.
pub open spec fn ascii_lower(c: char) -> char {
    if 'A' <= c && c <= 'Z' {
        ((c as u32) + 32) as char
    } else {
        c
    }
}

pub fn ascii_lower_char(c: char) -> (lower: char)
    ensures
        lower == ascii_lower(c),
{
    if 'A' <= c && c <= 'Z' {
        let v: u32 = (c as u32) + 32;
        assert(0x61 <= v <= 0x7a);
        char_from_ascii(v)
    } else {
        c
    }
}

/// The character with a given ASCII code.
fn char_from_ascii(v: u32) -> (c: char)
    requires
        v < 0x80,
    ensures
        c == v as char,
{
    let b: u8 = v as u8;
    b as char
}

/// Equality ignoring ASCII case, as `str::eq_ignore_ascii_case` reports.
pub open spec fn eq_ignore_ascii_case(a: Seq<char>, b: Seq<char>) -> bool {
    a.len() == b.len() && forall|i: int| 0 <= i < a.len() ==> ascii_lower(#[trigger] a[i]) == ascii_lower(b[i])
}

pub fn eq_ignore_ascii_case_str(a: &str, b: &str) -> (equal: bool)
    ensures
        equal == eq_ignore_ascii_case(a@, b@),
{
    let ca = chars_of(a);
    let cb = chars_of(b);
    if ca.len() != cb.len() {
        return false;
    }
    let mut i: usize = 0;
    while i < ca.len()
        invariant
            ca@ == a@,
            cb@ == b@,
            ca@.len() == cb@.len(),
            i <= ca@.len(),
            forall|j: int| 0 <= j < i ==> ascii_lower(#[trigger] ca@[j]) == ascii_lower(cb@[j]),
        decreases ca.len() - i,
    {
        if ascii_lower_char(ca[i]) != ascii_lower_char(cb[i]) {
            return false;
        }
        i = i + 1;
    }
    true
}

/// The state of splitting on white space after reading some characters: the
/// finished words and the word being read.
pub open spec fn split_state(s: Seq<char>) -> (Seq<Seq<char>>, Seq<char>)
    decreases s.len(),
{
    if s.len() == 0 {
        (Seq::empty(), Seq::empty())
    } else {
        let (done, current) = split_state(s.drop_last());
        if is_space(s.last()) {
            if current.len() > 0 {
                (done.push(current), Seq::empty())
            } else {
                (done, current)
            }
        } else {
            (done, current.push(s.last()))
        }
    }
}

/// The maximal runs of non-white-space characters, as `str::split_whitespace`
/// yields them.
pub open spec fn words(s: Seq<char>) -> Seq<Seq<char>> {
    let (done, current) = split_state(s);
    if current.len() > 0 {
        done.push(current)
    } else {
        done
    }
}

pub fn split_words(s: &str) -> (result: Vec<Vec<char>>)
    ensures
        result@.map_values(|w: Vec<char>| w@) == words(s@),
{
    let chars = chars_of(s);
    let mut done: Vec<Vec<char>> = Vec::new();
    let mut current: Vec<char> = Vec::new();
    let mut i: usize = 0;
    while i < chars.len()
        invariant
            chars@ == s@,
            i <= chars@.len(),
            done@.map_values(|w: Vec<char>| w@) == split_state(chars@.take(i as int)).0,
            current@ == split_state(chars@.take(i as int)).1,
        decreases chars.len() - i,
    {
        proof {
            assert(chars@.take(i + 1).drop_last() =~= chars@.take(i as int));
        }
        let c = chars[i];
        if is_space_char(c) {
            if current.len() > 0 {
                let ghost before_push = done@;
                let word = current;
                done.push(word);
                current = Vec::new();
                proof {
                    assert(done@.map_values(|w: Vec<char>| w@) =~= before_push.map_values(
                        |w: Vec<char>| w@,
                    ).push(word@));
                }
            }
        } else {
            current.push(c);
        }
        i = i + 1;
    }
    proof {
        assert(chars@.take(chars@.len() as int) =~= chars@);
    }
    if current.len() > 0 {
        let ghost before_push = done@;
        let word = current;
        done.push(word);
        proof {
            assert(done@.map_values(|w: Vec<char>| w@) =~= before_push.map_values(
                |w: Vec<char>| w@,
            ).push(word@));
        }
    }
    done
}


/// Equality of two character sequences.
pub fn chars_equal(a: &[char], b: &[char]) -> (equal: bool)
    ensures
        equal == (a@ == b@),
{
    if a.len() != b.len() {
        return false;
    }
    let mut i: usize = 0;
    while i < a.len()
        invariant
            a@.len() == b@.len(),
            i <= a@.len(),
            forall|j: int| 0 <= j < i ==> a@[j] == b@[j],
        decreases a.len() - i,
    {
        if a[i] != b[i] {
            return false;
        }
        i = i + 1;
    }
    proof {
        assert(a@ =~= b@);
    }
    true
}

/// Whether a character sequence spells out a string.
pub fn chars_equal_str(a: &[char], b: &str) -> (equal: bool)
    ensures
        equal == (a@ == b@),
{
    let cb = chars_of(b);
    chars_equal(a, cb.as_slice())
}

/// Parts joined with a line feed between consecutive parts.
pub open spec fn join_lines(parts: Seq<Seq<char>>) -> Seq<char>
    decreases parts.len(),
{
    if parts.len() == 0 {
        Seq::empty()
    } else if parts.len() == 1 {
        parts[0]
    } else {
        join_lines(parts.drop_last()) + seq!['\n'] + parts.last()
    }
}

pub fn join_with_newline(parts: &Vec<Vec<char>>) -> (joined: Vec<char>)
    ensures
        joined@ == join_lines(parts@.map_values(|p: Vec<char>| p@)),
{
    let ghost views = parts@.map_values(|p: Vec<char>| p@);
    let mut joined: Vec<char> = Vec::new();
    let mut i: usize = 0;
    while i < parts.len()
        invariant
            i <= parts@.len(),
            views == parts@.map_values(|p: Vec<char>| p@),
            joined@ == join_lines(views.take(i as int)),
        decreases parts.len() - i,
    {
        proof {
            assert(views.take(i + 1).drop_last() =~= views.take(i as int));
            assert(views.take(i + 1).last() == parts@[i as int]@);
        }
        if i > 0 {
            joined.push('\n');
        }
        let ghost before = joined@;
        let part = &parts[i];
        let mut k: usize = 0;
        while k < part.len()
            invariant
                k <= part@.len(),
                joined@ == before + part@.take(k as int),
            decreases part.len() - k,
        {
            joined.push(part[k]);
            proof {
                assert(part@.take(k + 1) =~= part@.take(k as int).push(part@[k as int]));
                assert(joined@ =~= before + part@.take(k + 1));
            }
            k = k + 1;
        }
        proof {
            assert(part@.take(part@.len() as int) =~= part@);
            if i == 0 {
                assert(join_lines(views.take(1)) == views.take(1)[0]);
                assert(joined@ =~= join_lines(views.take(1)));
            } else {
                assert(joined@ =~= join_lines(views.take(i as int)) + seq!['\n'] + part@);
            }
        }
        i = i + 1;
    }
    proof {
        assert(views.take(parts@.len() as int) =~= views);
    }
    joined
}

/// A path separator: `/` or `\`.
pub open spec fn is_separator(c: char) -> bool {
    c == '/' || c == '\\'
}

/// The part of `w` after its last path separator (all of `w` if none).
pub open spec fn last_segment(w: Seq<char>) -> Seq<char>
    decreases w.len(),
{
    if w.len() == 0 {
        w
    } else if is_separator(w.last()) {
        Seq::empty()
    } else {
        last_segment(w.drop_last()).push(w.last())
    }
}

/// The start of the part of `w` after its last path separator.
pub fn last_segment_start(w: &[char]) -> (start: usize)
    ensures
        start <= w@.len(),
        last_segment(w@) == w@.subrange(start as int, w@.len() as int),
        start > 0 ==> is_separator(w@[start - 1]),
        forall|i: int| start <= i < w@.len() ==> !is_separator(#[trigger] w@[i]),
{
    let mut j: usize = w.len();
    assert(w@.take(w@.len() as int) =~= w@);
    while j > 0 && !(w[j - 1] == '/' || w[j - 1] == '\\')
        invariant
            j <= w@.len(),
            last_segment(w@) == last_segment(w@.take(j as int)) + w@.subrange(
                j as int,
                w@.len() as int,
            ),
            forall|i: int| j <= i < w@.len() ==> !is_separator(#[trigger] w@[i]),
        decreases j,
    {
        proof {
            assert(w@.take(j as int).drop_last() =~= w@.take(j - 1));
            assert(w@.take(j as int).last() == w@[j - 1]);
            assert(w@.subrange(j - 1, w@.len() as int) =~= seq![w@[j - 1]] + w@.subrange(
                j as int,
                w@.len() as int,
            ));
            assert(last_segment(w@.take(j as int)) == last_segment(w@.take(j - 1)).push(w@[j - 1]));
            assert(last_segment(w@.take(j - 1)).push(w@[j - 1]) + w@.subrange(
                j as int,
                w@.len() as int,
            ) =~= last_segment(w@.take(j - 1)) + w@.subrange(j - 1, w@.len() as int));
        }
        j = j - 1;
    }
    proof {
        if j > 0 {
            assert(w@.take(j as int).last() == w@[j - 1]);
            assert(last_segment(w@.take(j as int)) =~= Seq::<char>::empty());
        } else {
            assert(w@.take(0) =~= Seq::<char>::empty());
        }
        assert(last_segment(w@) =~= w@.subrange(j as int, w@.len() as int));
    }
    j
}


/// The characters of `v` from `from` up to `to`.
pub fn sub_chars(v: &[char], from: usize, to: usize) -> (part: Vec<char>)
    requires
        from <= to <= v@.len(),
    ensures
        part@ == v@.subrange(from as int, to as int),
{
    let mut part: Vec<char> = Vec::new();
    let mut i: usize = from;
    while i < to
        invariant
            from <= i <= to <= v@.len(),
            part@ == v@.subrange(from as int, i as int),
        decreases to - i,
    {
        part.push(v[i]);
        proof {
            assert(v@.subrange(from as int, i + 1) =~= v@.subrange(from as int, i as int).push(
                v@[i as int],
            ));
        }
        i = i + 1;
    }
    part
}


/// The state of splitting on `sep` after reading some characters: the
/// finished pieces and the piece being read.
pub open spec fn split_acc(s: Seq<char>, sep: char) -> (Seq<Seq<char>>, Seq<char>)
    decreases s.len(),
{
    if s.len() == 0 {
        (Seq::empty(), Seq::empty())
    } else {
        let (done, current) = split_acc(s.drop_last(), sep);
        if s.last() == sep {
            (done.push(current), Seq::empty())
        } else {
            (done, current.push(s.last()))
        }
    }
}

/// The pieces of `s` between occurrences of `sep`, empty pieces included, as
/// `str::split` yields them.
pub open spec fn split_on(s: Seq<char>, sep: char) -> Seq<Seq<char>> {
    let (done, current) = split_acc(s, sep);
    done.push(current)
}

pub fn split_char(s: &str, sep: char) -> (parts: Vec<Vec<char>>)
    ensures
        parts@.map_values(|p: Vec<char>| p@) == split_on(s@, sep),
{
    let chars = chars_of(s);
    let mut done: Vec<Vec<char>> = Vec::new();
    let mut current: Vec<char> = Vec::new();
    let mut i: usize = 0;
    while i < chars.len()
        invariant
            chars@ == s@,
            i <= chars@.len(),
            done@.map_values(|p: Vec<char>| p@) == split_acc(chars@.take(i as int), sep).0,
            current@ == split_acc(chars@.take(i as int), sep).1,
        decreases chars.len() - i,
    {
        proof {
            assert(chars@.take(i + 1).drop_last() =~= chars@.take(i as int));
        }
        let c = chars[i];
        if c == sep {
            let ghost before_push = done@;
            let piece = current;
            done.push(piece);
            current = Vec::new();
            proof {
                assert(done@.map_values(|p: Vec<char>| p@) =~= before_push.map_values(
                    |p: Vec<char>| p@,
                ).push(piece@));
            }
        } else {
            current.push(c);
        }
        i = i + 1;
    }
    proof {
        assert(chars@.take(chars@.len() as int) =~= chars@);
    }
    let ghost before_push = done@;
    let piece = current;
    done.push(piece);
    proof {
        assert(done@.map_values(|p: Vec<char>| p@) =~= before_push.map_values(|p: Vec<char>| p@).push(
            piece@,
        ));
    }
    done
}

} // verus!
