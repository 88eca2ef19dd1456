//! Explicit, repository-scoped links to GitHub issues and pull requests.
//!
//! This module intentionally accepts only structured references supplied by a
//! caller. It does not inspect titles, messages, branch names, or assistant
//! prose to guess a link.

use vstd::prelude::*;

use crate::decimal::{decimal, decimal_text, is_digit, lemma_decimal_text_reads_back, parse_u64, parsed_u64};
use crate::order::{first_match, lemma_first_match, lemma_first_match_at};
use crate::text::{
    chars_equal, chars_equal_str, chars_of, push_char, split_acc, split_char, split_on,
    string_from_chars, string_from_range, sub_chars,
};

verus! {

/// The characters allowed in a repository owner or name.
pub open spec fn is_segment_char(c: char) -> bool {
    ('a' <= c <= 'z') || ('A' <= c <= 'Z') || ('0' <= c <= '9') || c == '-' || c == '_' || c
        == '.'
}

/// A repository owner or name: one to a hundred allowed characters.
pub open spec fn segment_ok(s: Seq<char>) -> bool {
    &&& 0 < s.len() <= 100
    &&& forall|i: int| 0 <= i < s.len() ==> is_segment_char(#[trigger] s[i])
}

fn valid_segment(value: &[char]) -> (valid: bool)
    ensures
        valid == segment_ok(value@),
{
    if value.len() == 0 || value.len() > 100 {
        return false;
    }
    let mut i: usize = 0;
    while i < value.len()
        invariant
            i <= value@.len(),
            forall|j: int| 0 <= j < i ==> is_segment_char(#[trigger] value@[j]),
        decreases value.len() - i,
    {
        let c = value[i];
        if !(('a' <= c && c <= 'z') || ('A' <= c && c <= 'Z') || ('0' <= c && c <= '9') || c
            == '-' || c == '_' || c == '.') {
            return false;
        }
        i = i + 1;
    }
    true
}

/// The owner and name of a repository written `owner/name`.
pub open spec fn repository_of(value: Seq<char>) -> Option<(Seq<char>, Seq<char>)> {
    let parts = split_on(value, '/');
    if parts.len() == 2 && segment_ok(parts[0]) && segment_ok(parts[1]) {
        Some((parts[0], parts[1]))
    } else {
        None
    }
}

#[derive(Debug, PartialEq, Eq)]
pub struct GitHubRepository {
    pub owner: String,
    pub name: String,
}

impl Clone for GitHubRepository {
    fn clone(&self) -> (copy: Self)
        ensures
            copy == *self,
    {
        GitHubRepository { owner: self.owner.clone(), name: self.name.clone() }
    }
}

impl GitHubRepository {
    /// A repository with a valid owner and name.
    pub fn new(owner: &str, name: &str) -> (repository: Option<Self>)
        ensures
            match repository {
                Some(r) => segment_ok(owner@) && segment_ok(name@) && r.owner@ == owner@
                    && r.name@ == name@,
                None => !(segment_ok(owner@) && segment_ok(name@)),
            },
    {
        let o = chars_of(owner);
        let n = chars_of(name);
        if valid_segment(o.as_slice()) && valid_segment(n.as_slice()) {
            Some(GitHubRepository { owner: owner.to_owned(), name: name.to_owned() })
        } else {
            None
        }
    }

    /// `owner/name`.
    pub fn path(&self) -> (path: String)
        ensures
            path@ == self.owner@ + seq!['/'] + self.name@,
    {
        let mut path = self.owner.clone();
        push_char(&mut path, '/');
        path.append(self.name.as_str());
        path
    }

    /// Reads a repository written `owner/name`: exactly two valid segments.
    pub fn parse(value: &str) -> (repository: Result<Self, ()>)
        ensures
            match repository_of(value@) {
                Some((o, n)) => repository matches Ok(r) && r.owner@ == o && r.name@ == n,
                None => repository is Err,
            },
    {
        let parts = split_char(value, '/');
        proof {
            assert(parts@.len() == split_on(value@, '/').len());
        }
        if parts.len() != 2 {
            return Err(());
        }
        proof {
            assert(parts@[0]@ == split_on(value@, '/')[0]);
            assert(parts@[1]@ == split_on(value@, '/')[1]);
        }
        if !valid_segment(parts[0].as_slice()) || !valid_segment(parts[1].as_slice()) {
            return Err(());
        }
        Ok(
            GitHubRepository {
                owner: string_from_chars(parts[0].as_slice()),
                name: string_from_chars(parts[1].as_slice()),
            },
        )
    }
}

impl std::str::FromStr for GitHubRepository {
    type Err = ();

    fn from_str(value: &str) -> (repository: Result<Self, ()>)
        ensures
            match repository_of(value@) {
                Some((o, n)) => repository matches Ok(r) && r.owner@ == o && r.name@ == n,
                None => repository is Err,
            },
    {
        GitHubRepository::parse(value)
    }
}

#[derive(Clone, Copy, Debug, PartialEq, Eq, Structural)]
pub enum GitHubReferenceKind {
    Issue,
    PullRequest,
}

impl GitHubReferenceKind {
    /// The route segment of the kind in a canonical URL.
    pub open spec fn segment(self) -> Seq<char> {
        match self {
            GitHubReferenceKind::Issue => "issues"@,
            GitHubReferenceKind::PullRequest => "pull"@,
        }
    }

    /// The marker of the kind in a qualified shorthand.
    pub open spec fn marker(self) -> char {
        match self {
            GitHubReferenceKind::Issue => '#',
            GitHubReferenceKind::PullRequest => '!',
        }
    }

    pub fn path_segment(self) -> (segment: &'static str)
        ensures
            segment@ == self.segment(),
    {
        match self {
            GitHubReferenceKind::Issue => "issues",
            GitHubReferenceKind::PullRequest => "pull",
        }
    }

    pub fn shorthand_marker(self) -> (marker: char)
        ensures
            marker == self.marker(),
    {
        match self {
            GitHubReferenceKind::Issue => '#',
            GitHubReferenceKind::PullRequest => '!',
        }
    }
}

/// The content of a reference.
pub struct ReferenceView {
    pub owner: Seq<char>,
    pub name: Seq<char>,
    pub kind: GitHubReferenceKind,
    pub number: u64,
}

/// A reference that the parsers can produce: valid segments and a positive
/// number.
pub open spec fn reference_ok(r: ReferenceView) -> bool {
    segment_ok(r.owner) && segment_ok(r.name) && r.number > 0
}

/// Whether a character marks the kind in a qualified shorthand.
pub open spec fn is_marker(c: char) -> bool {
    c == '#' || c == '!'
}

pub open spec fn marker_test() -> spec_fn(char) -> bool {
    |c: char| is_marker(c)
}

/// The reference written `owner/name#number` or `owner/name!number`: the
/// first marker splits the repository from the number.
pub open spec fn qualified_reference(value: Seq<char>) -> Option<ReferenceView> {
    match first_match(value, marker_test()) {
        None => None,
        Some(i) => {
            let kind = if value[i as int] == '#' {
                GitHubReferenceKind::Issue
            } else {
                GitHubReferenceKind::PullRequest
            };
            match (repository_of(value.take(i as int)), parsed_u64(value.skip(i + 1 as int))) {
                (Some((owner, name)), Some(number)) => if number > 0 {
                    Some(ReferenceView { owner, name, kind, number })
                } else {
                    None
                },
                _ => None,
            }
        },
    }
}

/// The fixed start of every canonical URL.
pub open spec fn url_prefix() -> Seq<char> {
    "https://github.com/"@
}

/// The route kind named by a URL segment.
pub open spec fn kind_of_segment(segment: Seq<char>) -> Option<GitHubReferenceKind> {
    if segment == "issues"@ {
        Some(GitHubReferenceKind::Issue)
    } else if segment == "pull"@ {
        Some(GitHubReferenceKind::PullRequest)
    } else {
        None
    }
}

/// The reference named by a canonical URL
/// `https://github.com/owner/name/issues/number` (or `/pull/`), without query,
/// fragment or trailing slash.
pub open spec fn url_reference(value: Seq<char>) -> Option<ReferenceView> {
    let prefix = url_prefix();
    if value.len() < prefix.len() || value.take(prefix.len() as int) != prefix {
        None
    } else {
        let path = value.skip(prefix.len() as int);
        if path.contains('?') || path.contains('#') || (path.len() > 0 && path.last() == '/') {
            None
        } else {
            let parts = split_on(path, '/');
            if parts.len() != 4 || !segment_ok(parts[0]) || !segment_ok(parts[1]) {
                None
            } else {
                match (kind_of_segment(parts[2]), parsed_u64(parts[3])) {
                    (Some(kind), Some(number)) => if number > 0 {
                        Some(ReferenceView { owner: parts[0], name: parts[1], kind, number })
                    } else {
                        None
                    },
                    _ => None,
                }
            }
        }
    }
}

/// The canonical URL of a reference.
pub open spec fn reference_url(r: ReferenceView) -> Seq<char> {
    url_prefix() + r.owner + seq!['/'] + r.name + seq!['/'] + r.kind.segment() + seq!['/']
        + decimal_text(r.number as nat)
}

/// The qualified shorthand of a reference.
pub open spec fn reference_shorthand(r: ReferenceView) -> Seq<char> {
    r.owner + seq!['/'] + r.name + seq![r.kind.marker()] + decimal_text(r.number as nat)
}

#[derive(Debug, PartialEq, Eq)]
pub struct GitHubReference {
    pub repository: GitHubRepository,
    pub kind: GitHubReferenceKind,
    pub number: u64,
}

impl Clone for GitHubReference {
    fn clone(&self) -> (copy: Self)
        ensures
            copy == *self,
    {
        GitHubReference { repository: self.repository.clone(), kind: self.kind, number: self.number }
    }
}

/// Whether a character sequence holds `c`.
fn has_char(s: &[char], c: char) -> (found: bool)
    ensures
        found == s@.contains(c),
{
    let mut i: usize = 0;
    while i < s.len()
        invariant
            i <= s@.len(),
            forall|j: int| 0 <= j < i ==> s@[j] != c,
        decreases s.len() - i,
    {
        if s[i] == c {
            proof {
                assert(s@[i as int] == c);
            }
            return true;
        }
        i = i + 1;
    }
    false
}

impl GitHubReference {
    pub open spec fn view(self) -> ReferenceView {
        ReferenceView {
            owner: self.repository.owner@,
            name: self.repository.name@,
            kind: self.kind,
            number: self.number,
        }
    }

    /// A reference to a positive item number.
    pub fn new(repository: GitHubRepository, kind: GitHubReferenceKind, number: u64) -> (reference:
        Option<Self>)
        ensures
            number > 0 ==> reference == Some(GitHubReference { repository, kind, number }),
            number == 0 ==> reference is None,
    {
        if number > 0 {
            Some(GitHubReference { repository, kind, number })
        } else {
            None
        }
    }

    /// Parse a repository-qualified reference such as `owner/repo#42` or
    /// `owner/repo!42`. Bare `#42` and `!42` references are intentionally not
    /// accepted because they are ambiguous across repositories.
    pub fn parse_qualified(value: &str) -> (reference: Option<Self>)
        ensures
            match qualified_reference(value@) {
                Some(r) => reference matches Some(found) && found.view() == r,
                None => reference is None,
            },
    {
        let chars = chars_of(value);
        let mut i: usize = 0;
        while i < chars.len() && chars[i] != '#' && chars[i] != '!'
            invariant
                i <= chars@.len(),
                chars@ == value@,
                forall|j: int| 0 <= j < i ==> !is_marker(#[trigger] chars@[j]),
            decreases chars.len() - i,
        {
            i = i + 1;
        }
        proof {
            lemma_first_match_at(chars@, marker_test(), i as int);
        }
        if i == chars.len() {
            return None;
        }
        let kind = if chars[i] == '#' {
            GitHubReferenceKind::Issue
        } else {
            GitHubReferenceKind::PullRequest
        };
        let number_text = string_from_range(chars.as_slice(), i + 1, chars.len());
        let repository_text = string_from_range(chars.as_slice(), 0, i);
        proof {
            assert(number_text@ =~= value@.skip(i + 1));
            assert(repository_text@ =~= value@.take(i as int));
        }
        let number = match parse_u64(number_text.as_str()) {
            Some(n) => n,
            None => {
                return None;
            },
        };
        let repository = match GitHubRepository::parse(repository_text.as_str()) {
            Ok(r) => r,
            Err(()) => {
                return None;
            },
        };
        GitHubReference::new(repository, kind, number)
    }

    /// Parse only canonical `github.com` issue or pull-request URLs.
    pub fn parse_url(value: &str) -> (reference: Option<Self>)
        ensures
            match url_reference(value@) {
                Some(r) => reference matches Some(found) && found.view() == r,
                None => reference is None,
            },
    {
        let chars = chars_of(value);
        let prefix = chars_of("https://github.com/");
        if chars.len() < prefix.len() {
            return None;
        }
        let head = sub_chars(chars.as_slice(), 0, prefix.len());
        proof {
            assert(head@ =~= value@.take(prefix@.len() as int));
        }
        if !chars_equal(head.as_slice(), prefix.as_slice()) {
            return None;
        }
        let path = sub_chars(chars.as_slice(), prefix.len(), chars.len());
        proof {
            assert(path@ =~= value@.skip(prefix@.len() as int));
        }
        if has_char(path.as_slice(), '?') || has_char(path.as_slice(), '#') || (path.len() > 0
            && path[path.len() - 1] == '/') {
            return None;
        }
        let path_text = string_from_chars(path.as_slice());
        let parts = split_char(path_text.as_str(), '/');
        proof {
            assert(parts@.len() == split_on(path@, '/').len());
        }
        if parts.len() != 4 {
            return None;
        }
        proof {
            assert(parts@[0]@ == split_on(path@, '/')[0]);
            assert(parts@[1]@ == split_on(path@, '/')[1]);
            assert(parts@[2]@ == split_on(path@, '/')[2]);
            assert(parts@[3]@ == split_on(path@, '/')[3]);
        }
        if !valid_segment(parts[0].as_slice()) || !valid_segment(parts[1].as_slice()) {
            return None;
        }
        let kind = if chars_equal_str(parts[2].as_slice(), "issues") {
            GitHubReferenceKind::Issue
        } else if chars_equal_str(parts[2].as_slice(), "pull") {
            GitHubReferenceKind::PullRequest
        } else {
            return None;
        };
        let number_text = string_from_chars(parts[3].as_slice());
        let number = match parse_u64(number_text.as_str()) {
            Some(n) => n,
            None => {
                return None;
            },
        };
        let repository = GitHubRepository {
            owner: string_from_chars(parts[0].as_slice()),
            name: string_from_chars(parts[1].as_slice()),
        };
        GitHubReference::new(repository, kind, number)
    }

    /// The canonical URL of the reference.
    pub fn url(&self) -> (url: String)
        ensures
            url@ == reference_url(self.view()),
    {
        let mut url = String::new();
        url.append("https://github.com/");
        url.append(self.repository.owner.as_str());
        push_char(&mut url, '/');
        url.append(self.repository.name.as_str());
        push_char(&mut url, '/');
        url.append(self.kind.path_segment());
        push_char(&mut url, '/');
        let number = decimal(self.number);
        url.append(number.as_str());
        proof {
            assert(url@ =~= reference_url(self.view()));
        }
        url
    }

    /// The qualified shorthand of the reference, such as `owner/repo#42`.
    pub fn to_string(&self) -> (text: String)
        ensures
            text@ == reference_shorthand(self.view()),
    {
        let mut text = self.repository.path();
        push_char(&mut text, self.kind.shorthand_marker());
        let number = decimal(self.number);
        text.append(number.as_str());
        proof {
            assert(text@ =~= reference_shorthand(self.view()));
        }
        text
    }
}

/// The explicit input form that supplied a repository-scoped reference.
#[derive(Clone, Copy, Debug, PartialEq, Eq, Structural)]
pub enum LinkSource {
    QualifiedShorthand,
    CanonicalUrl,
}

/// Informational validation state for a parsed link.
#[derive(Clone, Copy, Debug, PartialEq, Eq, Structural)]
pub enum LinkValidation {
    Validated,
    Unvalidated,
}

/// A GitHub reference together with its explicit source and validation state.
///
/// This wrapper does not claim that a repository or numbered item exists on
/// GitHub. `Validated` means only that the supplied structured form passed the
/// conservative repository-scoped parser.
#[derive(Debug, PartialEq, Eq)]
pub struct GitHubLink {
    pub reference: GitHubReference,
    pub source: LinkSource,
    pub validation: LinkValidation,
}

impl GitHubLink {
    pub fn new(reference: GitHubReference, source: LinkSource, validation: LinkValidation) -> (link:
        Self)
        ensures
            link == (GitHubLink { reference, source, validation }),
    {
        GitHubLink { reference, source, validation }
    }

    pub fn parse_qualified(value: &str) -> (link: Option<Self>)
        ensures
            match qualified_reference(value@) {
                Some(r) => link matches Some(found) && found.reference.view() == r && found.source
                    == LinkSource::QualifiedShorthand && found.validation
                    == LinkValidation::Validated,
                None => link is None,
            },
    {
        match GitHubReference::parse_qualified(value) {
            Some(reference) => Some(
                GitHubLink::new(reference, LinkSource::QualifiedShorthand, LinkValidation::Validated),
            ),
            None => None,
        }
    }

    pub fn parse_url(value: &str) -> (link: Option<Self>)
        ensures
            match url_reference(value@) {
                Some(r) => link matches Some(found) && found.reference.view() == r && found.source
                    == LinkSource::CanonicalUrl && found.validation == LinkValidation::Validated,
                None => link is None,
            },
    {
        match GitHubReference::parse_url(value) {
            Some(reference) => Some(
                GitHubLink::new(reference, LinkSource::CanonicalUrl, LinkValidation::Validated),
            ),
            None => None,
        }
    }

    pub fn url(&self) -> (url: String)
        ensures
            url@ == reference_url(self.reference.view()),
    {
        self.reference.url()
    }

    /// The link shown as its reference's qualified shorthand.
    pub fn to_string(&self) -> (text: String)
        ensures
            text@ == reference_shorthand(self.reference.view()),
    {
        self.reference.to_string()
    }
}


/// Splitting at a separator splits the two sides independently.
proof fn lemma_split_acc_at_sep(a: Seq<char>, b: Seq<char>, sep: char)
    ensures
        split_acc(a + seq![sep] + b, sep) == (
            split_on(a, sep) + split_acc(b, sep).0,
            split_acc(b, sep).1,
        ),
    decreases b.len(),
{
    let whole = a + seq![sep] + b;
    if b.len() == 0 {
        assert(whole.drop_last() =~= a);
        assert(split_on(a, sep) + Seq::<Seq<char>>::empty() =~= split_on(a, sep));
    } else {
        lemma_split_acc_at_sep(a, b.drop_last(), sep);
        assert(whole.drop_last() =~= a + seq![sep] + b.drop_last());
        assert(whole.last() == b.last());
        let d = split_acc(b.drop_last(), sep).0;
        let c = split_acc(b.drop_last(), sep).1;
        assert(split_on(a, sep) + d.push(c) =~= (split_on(a, sep) + d).push(c));
    }
}

proof fn lemma_split_on_at_sep(a: Seq<char>, b: Seq<char>, sep: char)
    ensures
        split_on(a + seq![sep] + b, sep) == split_on(a, sep) + split_on(b, sep),
{
    lemma_split_acc_at_sep(a, b, sep);
    let d = split_acc(b, sep).0;
    let c = split_acc(b, sep).1;
    assert(split_on(a, sep) + d.push(c) =~= (split_on(a, sep) + d).push(c));
}

/// Text without the separator is a single piece.
proof fn lemma_split_on_whole(a: Seq<char>, sep: char)
    requires
        !a.contains(sep),
    ensures
        split_acc(a, sep) == (Seq::<Seq<char>>::empty(), a),
        split_on(a, sep) == seq![a],
    decreases a.len(),
{
    if a.len() > 0 {
        assert(!a.drop_last().contains(sep)) by {
            if a.drop_last().contains(sep) {
                let j = choose|j: int| 0 <= j < a.drop_last().len() && a.drop_last()[j] == sep;
                assert(a[j] == sep);
            }
        }
        lemma_split_on_whole(a.drop_last(), sep);
        assert(a.last() != sep) by {
            assert(a[a.len() - 1] == a.last());
        }
        assert(a.drop_last().push(a.last()) =~= a);
    }
}

/// A valid segment holds none of the URL's delimiters.
proof fn lemma_segment_delimiters(s: Seq<char>)
    requires
        segment_ok(s),
    ensures
        !s.contains('/'),
        !s.contains('?'),
        !s.contains('#'),
        !s.contains('!'),
        forall|j: int| 0 <= j < s.len() ==> !is_marker(#[trigger] s[j]),
{
    if s.contains('/') || s.contains('?') || s.contains('#') || s.contains('!') {
        let j = choose|j: int|
            0 <= j < s.len() && (s[j] == '/' || s[j] == '?' || s[j] == '#' || s[j] == '!');
        assert(is_segment_char(s[j]));
    }
    assert forall|j: int| 0 <= j < s.len() implies !is_marker(#[trigger] s[j]) by {
        assert(is_segment_char(s[j]));
    }
}

/// Decimal text holds only digits, so none of the URL's delimiters.
proof fn lemma_decimal_delimiters(n: u64)
    ensures
        !decimal_text(n as nat).contains('/'),
        !decimal_text(n as nat).contains('?'),
        !decimal_text(n as nat).contains('#'),
        decimal_text(n as nat).len() > 0,
        decimal_text(n as nat).last() != '/',
{
    lemma_decimal_text_reads_back(n as nat);
    let t = decimal_text(n as nat);
    if t.contains('/') || t.contains('?') || t.contains('#') {
        let j = choose|j: int| 0 <= j < t.len() && (t[j] == '/' || t[j] == '?' || t[j] == '#');
        assert(is_digit(t[j]));
    }
    assert(is_digit(t[t.len() - 1]));
}

/// Reading a reference's canonical URL gives the reference back.
pub proof fn lemma_url_round_trip(r: ReferenceView)
    requires
        reference_ok(r),
    ensures
        url_reference(reference_url(r)) == Some(r),
{
    reveal_strlit("issues");
    reveal_strlit("pull");
    let prefix = url_prefix();
    let segment = r.kind.segment();
    let digits = decimal_text(r.number as nat);
    let tail = segment + seq!['/'] + digits;
    let middle = r.name + seq!['/'] + tail;
    let path = r.owner + seq!['/'] + middle;
    let value = reference_url(r);
    assert(value =~= prefix + path);
    assert(value.take(prefix.len() as int) =~= prefix);
    assert(value.skip(prefix.len() as int) =~= path);
    lemma_segment_delimiters(r.owner);
    lemma_segment_delimiters(r.name);
    lemma_decimal_delimiters(r.number);
    crate::decimal::lemma_parse_decimal(r.number);
    assert(!segment.contains('/') && !segment.contains('?') && !segment.contains('#')) by {
        if segment.contains('/') || segment.contains('?') || segment.contains('#') {
            let j = choose|j: int|
                0 <= j < segment.len() && (segment[j] == '/' || segment[j] == '?' || segment[j]
                    == '#');
            match r.kind {
                GitHubReferenceKind::Issue => {
                    assert(segment == "issues"@);
                },
                GitHubReferenceKind::PullRequest => {
                    assert(segment == "pull"@);
                },
            }
        }
    }
    assert(!path.contains('?')) by {
        if path.contains('?') {
            let j = choose|j: int| 0 <= j < path.len() && path[j] == '?';
            if j < r.owner.len() {
                assert(r.owner[j] == '?');
            } else if j == r.owner.len() {
            } else if j < r.owner.len() + 1 + r.name.len() {
                assert(r.name[j - r.owner.len() - 1] == '?');
            } else if j == r.owner.len() + 1 + r.name.len() {
            } else if j < r.owner.len() + 2 + r.name.len() + segment.len() {
                assert(segment[j - r.owner.len() - 2 - r.name.len()] == '?');
            } else if j == r.owner.len() + 2 + r.name.len() + segment.len() {
            } else {
                assert(digits[j - r.owner.len() - 3 - r.name.len() - segment.len()] == '?');
            }
        }
    }
    assert(!path.contains('#')) by {
        if path.contains('#') {
            let j = choose|j: int| 0 <= j < path.len() && path[j] == '#';
            if j < r.owner.len() {
                assert(r.owner[j] == '#');
            } else if j == r.owner.len() {
            } else if j < r.owner.len() + 1 + r.name.len() {
                assert(r.name[j - r.owner.len() - 1] == '#');
            } else if j == r.owner.len() + 1 + r.name.len() {
            } else if j < r.owner.len() + 2 + r.name.len() + segment.len() {
                assert(segment[j - r.owner.len() - 2 - r.name.len()] == '#');
            } else if j == r.owner.len() + 2 + r.name.len() + segment.len() {
            } else {
                assert(digits[j - r.owner.len() - 3 - r.name.len() - segment.len()] == '#');
            }
        }
    }
    assert(path.last() == digits.last());
    lemma_split_on_at_sep(r.owner, middle, '/');
    lemma_split_on_at_sep(r.name, tail, '/');
    lemma_split_on_at_sep(segment, digits, '/');
    lemma_split_on_whole(r.owner, '/');
    lemma_split_on_whole(r.name, '/');
    lemma_split_on_whole(segment, '/');
    lemma_split_on_whole(digits, '/');
    let parts = split_on(path, '/');
    assert(parts =~= seq![r.owner, r.name, segment, digits]);
    match r.kind {
        GitHubReferenceKind::Issue => {
            assert(kind_of_segment(segment) == Some(GitHubReferenceKind::Issue));
        },
        GitHubReferenceKind::PullRequest => {
            assert(segment != "issues"@);
            assert(kind_of_segment(segment) == Some(GitHubReferenceKind::PullRequest));
        },
    }
}

/// Reading a reference's qualified shorthand gives the reference back.
pub proof fn lemma_shorthand_round_trip(r: ReferenceView)
    requires
        reference_ok(r),
    ensures
        qualified_reference(reference_shorthand(r)) == Some(r),
{
    let digits = decimal_text(r.number as nat);
    let repo = r.owner + seq!['/'] + r.name;
    let value = reference_shorthand(r);
    let i = repo.len() as int;
    assert(value =~= repo + seq![r.kind.marker()] + digits);
    lemma_segment_delimiters(r.owner);
    lemma_segment_delimiters(r.name);
    crate::decimal::lemma_parse_decimal(r.number);
    assert forall|j: int| 0 <= j < i implies !marker_test()(#[trigger] value[j]) by {
        if j < r.owner.len() {
            assert(value[j] == r.owner[j]);
        } else if j > r.owner.len() {
            assert(value[j] == r.name[j - r.owner.len() - 1]);
        }
    }
    assert(value[i] == r.kind.marker());
    lemma_first_match_at(value, marker_test(), i);
    assert(value.take(i) =~= repo);
    assert(value.skip(i + 1) =~= digits);
    lemma_split_on_at_sep(r.owner, r.name, '/');
    lemma_split_on_whole(r.owner, '/');
    lemma_split_on_whole(r.name, '/');
    assert(split_on(repo, '/') =~= seq![r.owner, r.name]);
}

/// Distinct valid references have distinct canonical URLs: the repository,
/// the kind and the number all take part in the URL.
pub proof fn lemma_url_identifies_reference(a: ReferenceView, b: ReferenceView)
    requires
        reference_ok(a),
        reference_ok(b),
        reference_url(a) == reference_url(b),
    ensures
        a == b,
{
    lemma_url_round_trip(a);
    lemma_url_round_trip(b);
}

} // verus!
