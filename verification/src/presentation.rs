//! What the heads-up display shows, independent of how it is drawn: bounded
//! text previews, project grouping, collapsed projects and copy payloads.

use vstd::prelude::*;

use crate::decimal::{decimal, decimal_text};
use crate::model::{ApplicationState, SessionViewModel};
use crate::order::{first_match, lemma_first_match, lemma_first_match_at};
use crate::readiness::Readiness;
use crate::project::{opt_identity_view, same_opt_identity, ProjectIdentity, ProjectIdentityView};
use crate::result_bundle::{available_text, bundle_results, ProjectResultBundle};
use crate::text::{chars_of, is_control, is_control_char, push_char};

verus! {

pub const MAX_RESULT_CHARS: usize = 180;

pub const MAX_FILE_CHARS: usize = 42;

pub const MAX_VISIBLE_FILES: usize = 3;

pub const MAX_LABEL_CHARS: usize = 80;

pub const MAX_CARD_TITLE_CHARS: usize = 64;

/// A control character shown as a space.
pub open spec fn visible(c: char) -> char {
    if is_control(c) {
        ' '
    } else {
        c
    }
}

pub open spec fn visible_text(s: Seq<char>) -> Seq<char> {
    s.map_values(|c: char| visible(c))
}

/// At most `max` characters: a longer text keeps its first `max - 1`
/// characters followed by an ellipsis.
pub open spec fn truncated(s: Seq<char>, max: nat) -> Seq<char> {
    if s.len() <= max {
        s
    } else {
        s.take(if max == 0 {
            0
        } else {
            max - 1
        }) + seq!['…']
    }
}

/// A one-line preview of at most `max` characters.
pub open spec fn previewed(s: Seq<char>, max: nat) -> Seq<char> {
    truncated(visible_text(s), max)
}

fn visible_chars(s: &str) -> (shown: Vec<char>)
    ensures
        shown@ == visible_text(s@),
{
    let chars = chars_of(s);
    let mut shown: Vec<char> = Vec::new();
    let mut i: usize = 0;
    while i < chars.len()
        invariant
            i <= chars@.len(),
            chars@ == s@,
            shown@ == visible_text(chars@.take(i as int)),
        decreases chars.len() - i,
    {
        let c = chars[i];
        if is_control_char(c) {
            shown.push(' ');
        } else {
            shown.push(c);
        }
        proof {
            assert(visible_text(chars@.take(i + 1)) =~= visible_text(chars@.take(i as int)).push(
                visible(c),
            ));
        }
        i = i + 1;
    }
    proof {
        assert(chars@.take(chars@.len() as int) =~= chars@);
    }
    shown
}

fn truncate_chars(chars: &Vec<char>, max_chars: usize) -> (text: String)
    ensures
        text@ == truncated(chars@, max_chars as nat),
{
    let keep: usize = if chars.len() <= max_chars {
        chars.len()
    } else if max_chars == 0 {
        0
    } else {
        max_chars - 1
    };
    let mut text = String::new();
    let mut i: usize = 0;
    while i < keep
        invariant
            i <= keep <= chars@.len(),
            text@ == chars@.take(i as int),
        decreases keep - i,
    {
        push_char(&mut text, chars[i]);
        proof {
            assert(chars@.take(i + 1) =~= chars@.take(i as int).push(chars@[i as int]));
        }
        i = i + 1;
    }
    if chars.len() > max_chars {
        push_char(&mut text, '…');
    } else {
        proof {
            assert(chars@.take(keep as int) =~= chars@);
        }
    }
    text
}

/// At most `max_chars` characters of `value`, with an ellipsis when cut.
pub fn truncate(value: &str, max_chars: usize) -> (text: String)
    ensures
        text@ == truncated(value@, max_chars as nat),
{
    let chars = chars_of(value);
    truncate_chars(&chars, max_chars)
}

/// A one-line preview: control characters become spaces, then the text is
/// truncated to `max_chars`.
pub fn preview(value: &str, max_chars: usize) -> (text: String)
    ensures
        text@ == previewed(value@, max_chars as nat),
{
    let shown = visible_chars(value);
    truncate_chars(&shown, max_chars)
}

/// Parts joined with `sep` between consecutive parts.
pub open spec fn join_with(parts: Seq<Seq<char>>, sep: Seq<char>) -> Seq<char>
    decreases parts.len(),
{
    if parts.len() == 0 {
        Seq::empty()
    } else if parts.len() == 1 {
        parts[0]
    } else {
        join_with(parts.drop_last(), sep) + sep + parts.last()
    }
}

/// The preview of one changed file.
pub open spec fn file_preview(path: Seq<char>) -> Seq<char> {
    truncated(previewed(path, MAX_FILE_CHARS as nat), MAX_FILE_CHARS as nat)
}

/// The previews of the first visible files, then how many more there are.
pub open spec fn displayed_files(files: Seq<Seq<char>>) -> Seq<Seq<char>> {
    let shown = if files.len() <= MAX_VISIBLE_FILES {
        files
    } else {
        files.take(MAX_VISIBLE_FILES as int)
    };
    let previews = shown.map_values(|f: Seq<char>| file_preview(f));
    if files.len() > MAX_VISIBLE_FILES {
        previews.push("+"@ + decimal_text((files.len() - MAX_VISIBLE_FILES) as nat) + " more"@)
    } else {
        previews
    }
}

/// The changed-files line of a session card; empty without changed files.
pub open spec fn changed_files_text(files: Seq<Seq<char>>) -> Seq<char> {
    if files.len() == 0 {
        Seq::empty()
    } else {
        "Changed: "@ + join_with(displayed_files(files), " · "@)
    }
}

pub fn changed_files_preview(files: &[String]) -> (text: String)
    ensures
        text@ == changed_files_text(files@.map_values(|f: String| f@)),
{
    let ghost views = files@.map_values(|f: String| f@);
    if files.len() == 0 {
        return String::new();
    }
    let shown: usize = if files.len() <= MAX_VISIBLE_FILES {
        files.len()
    } else {
        MAX_VISIBLE_FILES
    };
    let mut parts: Vec<String> = Vec::new();
    let mut i: usize = 0;
    while i < shown
        invariant
            i <= shown <= files@.len(),
            shown == (if files@.len() <= MAX_VISIBLE_FILES {
                files@.len()
            } else {
                MAX_VISIBLE_FILES as nat
            }),
            views == files@.map_values(|f: String| f@),
            parts@.map_values(|p: String| p@) == views.take(i as int).map_values(
                |f: Seq<char>| file_preview(f),
            ),
        decreases shown - i,
    {
        let first = preview(files[i].as_str(), MAX_FILE_CHARS);
        let part = truncate(first.as_str(), MAX_FILE_CHARS);
        let ghost before = parts@;
        proof {
            assert(views[i as int] == files@[i as int]@);
            assert(part@ == file_preview(views[i as int]));
        }
        parts.push(part);
        proof {
            assert(views.take(i + 1) =~= views.take(i as int).push(views[i as int]));
            assert(parts@.map_values(|p: String| p@) =~= before.map_values(|p: String| p@).push(
                part@,
            ));
            assert(parts@.map_values(|p: String| p@) =~= views.take(i + 1).map_values(
                |f: Seq<char>| file_preview(f),
            ));
        }
        i = i + 1;
    }
    proof {
        if files@.len() <= MAX_VISIBLE_FILES {
            assert(views.take(shown as int) =~= views);
        }
    }
    if files.len() > MAX_VISIBLE_FILES {
        let mut more = String::new();
        more.append("+");
        let count = decimal((files.len() - MAX_VISIBLE_FILES) as u64);
        more.append(count.as_str());
        more.append(" more");
        let ghost before = parts@;
        parts.push(more);
        proof {
            assert(parts@.map_values(|p: String| p@) =~= before.map_values(|p: String| p@).push(
                more@,
            ));
        }
    }
    proof {
        assert(parts@.map_values(|p: String| p@) =~= displayed_files(views));
    }
    let mut text = String::new();
    text.append("Changed: ");
    let ghost head = text@;
    let ghost part_views = parts@.map_values(|p: String| p@);
    let mut k: usize = 0;
    while k < parts.len()
        invariant
            k <= parts@.len(),
            part_views == parts@.map_values(|p: String| p@),
            text@ == head + join_with(part_views.take(k as int), " · "@),
        decreases parts.len() - k,
    {
        proof {
            assert(part_views.take(k + 1).drop_last() =~= part_views.take(k as int));
            assert(part_views.take(k + 1).last() == parts@[k as int]@);
        }
        if k > 0 {
            text.append(" · ");
        }
        text.append(parts[k].as_str());
        proof {
            if k == 0 {
                assert(part_views.take(1) =~= seq![parts@[0]@]);
                assert(text@ =~= head + join_with(part_views.take(1), " · "@));
            } else {
                assert(text@ =~= head + join_with(part_views.take(k + 1), " · "@));
            }
        }
        k = k + 1;
    }
    proof {
        assert(part_views.take(parts@.len() as int) =~= part_views);
    }
    text
}

/// The label of a session: its title, or `(untitled)`, with control
/// characters shown as spaces and at most `max` characters.
pub open spec fn label_text(title: Option<Seq<char>>, max: nat) -> Seq<char> {
    let t = match title {
        Some(t) => if t.len() > 0 {
            t
        } else {
            "(untitled)"@
        },
        None => "(untitled)"@,
    };
    let shown = visible_text(t);
    if shown.len() <= max {
        shown
    } else {
        shown.take(max as int)
    }
}

fn bounded_label(title: Option<&str>, max: usize) -> (label: String)
    ensures
        label@ == label_text(
            match title {
                Some(t) => Some(t@),
                None => None,
            },
            max as nat,
        ),
{
    let chosen: &str = match title {
        Some(t) => if t.unicode_len() > 0 {
            t
        } else {
            "(untitled)"
        },
        None => "(untitled)",
    };
    let shown = visible_chars(chosen);
    let keep: usize = if shown.len() <= max {
        shown.len()
    } else {
        max
    };
    let mut label = String::new();
    let mut i: usize = 0;
    while i < keep
        invariant
            i <= keep <= shown@.len(),
            label@ == shown@.take(i as int),
        decreases keep - i,
    {
        push_char(&mut label, shown[i]);
        proof {
            assert(shown@.take(i + 1) =~= shown@.take(i as int).push(shown@[i as int]));
        }
        i = i + 1;
    }
    proof {
        if shown@.len() <= max {
            assert(shown@.take(keep as int) =~= shown@);
        }
    }
    label
}

/// The label of a session in the console listing.
pub fn display_label(title: Option<&str>) -> (label: String)
    ensures
        label@ == label_text(
            match title {
                Some(t) => Some(t@),
                None => None,
            },
            MAX_LABEL_CHARS as nat,
        ),
{
    bounded_label(title, MAX_LABEL_CHARS)
}

/// The title line of a session card.
pub fn card_title(title: Option<&str>) -> (label: String)
    ensures
        label@ == label_text(
            match title {
                Some(t) => Some(t@),
                None => None,
            },
            MAX_CARD_TITLE_CHARS as nat,
        ),
{
    bounded_label(title, MAX_CARD_TITLE_CHARS)
}

/// The full result a session card copies.
pub fn copy_payload(session: &SessionViewModel) -> (payload: Option<&str>)
    ensures
        match payload {
            Some(p) => session.latest_result matches Some(r) && p@ == r@,
            None => session.latest_result is None,
        },
{
    match &session.latest_result {
        Some(r) => Some(r.as_str()),
        None => None,
    }
}

/// The full project bundle a project header copies, when the project has
/// results. `project_root` and `session_roots` are the canonical roots found
/// on disk, as for `ProjectResultBundle::from_sessions`.
pub fn project_result_payload(
    identity: &ProjectIdentity,
    project_root: Option<&str>,
    state: &ApplicationState,
    session_roots: &[Option<String>],
) -> (payload: Option<String>)
    ensures
        ({
            let results = bundle_results(
                identity.view(),
                match project_root {
                    Some(r) => Some(r@),
                    None => None,
                },
                state.sessions_view(),
                session_roots@,
            );
            match payload {
                Some(text) => results.len() > 0 && text@ == available_text(*identity, results),
                None => results.len() == 0,
            }
        }),
{
    let bundle = ProjectResultBundle::from_sessions(
        identity,
        project_root,
        state.sessions(),
        session_roots,
    );
    match &bundle {
        ProjectResultBundle::Available { .. } => {
            let text = bundle.format();
            Some(text)
        },
        ProjectResultBundle::Unavailable { .. } => None,
    }
}


/// Which projects are collapsed in the display. Each identity, or the
/// absence of one, is listed at most once.
#[derive(Debug, PartialEq, Eq)]
pub struct ViewState {
    collapsed_projects: Vec<Option<ProjectIdentity>>,
}

impl Default for ViewState {
    fn default() -> (view: Self)
        ensures
            view.collapsed().len() == 0,
    {
        ViewState { collapsed_projects: Vec::new() }
    }
}

pub open spec fn same_key(key: Option<ProjectIdentityView>) -> spec_fn(Option<ProjectIdentityView>) -> bool {
    |k: Option<ProjectIdentityView>| k == key
}

impl ViewState {
    /// The collapsed project identities, in the order they were collapsed.
    pub closed spec fn collapsed(self) -> Seq<Option<ProjectIdentityView>> {
        self.collapsed_projects@.map_values(|p: Option<ProjectIdentity>| opt_identity_view(p))
    }

    /// Whether the project `identity` is collapsed.
    pub fn is_collapsed(&self, identity: Option<&ProjectIdentity>) -> (collapsed: bool)
        ensures
            collapsed == self.collapsed().contains(
                match identity {
                    Some(p) => Some(p.view()),
                    None => None,
                },
            ),
    {
        let found = self.position(identity);
        proof {
            let key = match identity {
                Some(p) => Some(p.view()),
                None => None::<ProjectIdentityView>,
            };
            lemma_first_match(self.collapsed(), same_key(key));
        }
        match found {
            Some(_) => true,
            None => false,
        }
    }

    fn position(&self, identity: Option<&ProjectIdentity>) -> (found: Option<usize>)
        ensures
            ({
                let key = match identity {
                    Some(p) => Some(p.view()),
                    None => None,
                };
                match first_match(self.collapsed(), same_key(key)) {
                    Some(k) => found == Some(k as usize) && k < self.collapsed().len(),
                    None => found is None && !self.collapsed().contains(key),
                }
            }),
    {
        let ghost key = match identity {
            Some(p) => Some(p.view()),
            None => None::<ProjectIdentityView>,
        };
        let ghost keys = self.collapsed();
        let mut i: usize = 0;
        while i < self.collapsed_projects.len()
            invariant
                i <= self.collapsed_projects@.len(),
                keys == self.collapsed(),
                key == match identity {
                    Some(p) => Some(p.view()),
                    None => None::<ProjectIdentityView>,
                },
                forall|j: int| 0 <= j < i ==> !same_key(key)(#[trigger] keys[j]),
            decreases self.collapsed_projects.len() - i,
        {
            let same = match &self.collapsed_projects[i] {
                Some(p) => same_opt_identity(Some(p), identity),
                None => same_opt_identity(None, identity),
            };
            if same {
                proof {
                    assert(same_key(key)(keys[i as int]));
                    lemma_first_match_at(keys, same_key(key), i as int);
                }
                return Some(i);
            }
            i = i + 1;
        }
        proof {
            lemma_first_match_at(keys, same_key(key), i as int);
            if keys.contains(key) {
                let j = choose|j: int| 0 <= j < keys.len() && keys[j] == key;
                assert(!same_key(key)(keys[j]));
            }
        }
        None
    }

    /// Collapses an expanded project, or expands a collapsed one.
    pub fn toggle_project(&mut self, identity: Option<ProjectIdentity>)
        ensures
            ({
                let key = opt_identity_view(identity);
                match first_match(old(self).collapsed(), same_key(key)) {
                    Some(k) => final(self).collapsed() == old(self).collapsed().remove(k as int),
                    None => final(self).collapsed() == old(self).collapsed().push(key),
                }
            }),
    {
        let found = match &identity {
            Some(p) => self.position(Some(p)),
            None => self.position(None),
        };
        let ghost key = opt_identity_view(identity);
        proof {
            assert(key == match identity {
                Some(p) => Some(p.view()),
                None => None::<ProjectIdentityView>,
            });
        }
        let ghost before = self.collapsed_projects@;
        let count = self.collapsed_projects.len();
        match found {
            Some(k) => {
                self.collapsed_projects.remove(k);
                proof {
                    assert(self.collapsed() =~= old(self).collapsed().remove(k as int));
                    let m = first_match(old(self).collapsed(), same_key(key));
                    assert(m is Some);
                    assert(m->0 < old(self).collapsed().len());
                    assert(old(self).collapsed().len() == before.len());
                    assert(before.len() == count);
                    assert(m->0 <= usize::MAX);
                    assert(m == Some(k as nat));
                }
            },
            None => {
                self.collapsed_projects.push(identity);
                proof {
                    assert(self.collapsed() =~= old(self).collapsed().push(key));
                }
            },
        }
    }
}

/// Toggling a project flips whether it is collapsed and leaves every other
/// project as it was, as long as no project is listed twice.
pub proof fn lemma_toggle_flips_only_that_project(
    collapsed: Seq<Option<ProjectIdentityView>>,
    key: Option<ProjectIdentityView>,
    other: Option<ProjectIdentityView>,
)
    requires
        collapsed.no_duplicates(),
    ensures
        ({
            let toggled = match first_match(collapsed, same_key(key)) {
                Some(k) => collapsed.remove(k as int),
                None => collapsed.push(key),
            };
            &&& toggled.no_duplicates()
            &&& toggled.contains(key) == !collapsed.contains(key)
            &&& other != key ==> toggled.contains(other) == collapsed.contains(other)
        }),
{
    lemma_first_match(collapsed, same_key(key));
    match first_match(collapsed, same_key(key)) {
        Some(k) => {
            let toggled = collapsed.remove(k as int);
            assert forall|i: int, j: int| 0 <= i < j < toggled.len() implies toggled[i]
                != toggled[j] by {
                let si = if i < k { i } else { i + 1 };
                let sj = if j < k { j } else { j + 1 };
                assert(toggled[i] == collapsed[si] && toggled[j] == collapsed[sj]);
            }
            if toggled.contains(key) {
                let i = choose|i: int| 0 <= i < toggled.len() && toggled[i] == key;
                let si = if i < k { i } else { i + 1 };
                assert(toggled[i] == collapsed[si]);
            }
            assert(collapsed[k as int] == key);
            if other != key {
                if collapsed.contains(other) {
                    let i = choose|i: int| 0 <= i < collapsed.len() && collapsed[i] == other;
                    let ti = if i < k { i } else { i - 1 };
                    assert(toggled[ti] == other);
                }
                if toggled.contains(other) {
                    let i = choose|i: int| 0 <= i < toggled.len() && toggled[i] == other;
                    let si = if i < k { i } else { i + 1 };
                    assert(toggled[i] == collapsed[si]);
                }
            }
        },
        None => {
            let toggled = collapsed.push(key);
            assert(!collapsed.contains(key)) by {
                if collapsed.contains(key) {
                    let i = choose|i: int| 0 <= i < collapsed.len() && collapsed[i] == key;
                    assert(!same_key(key)(collapsed[i]));
                }
            }
            assert forall|i: int, j: int| 0 <= i < j < toggled.len() implies toggled[i]
                != toggled[j] by {
                if j == collapsed.len() {
                    assert(toggled[i] == collapsed[i]);
                }
            }
            assert(toggled[collapsed.len() as int] == key);
            if collapsed.contains(other) {
                let i = choose|i: int| 0 <= i < collapsed.len() && collapsed[i] == other;
                assert(toggled[i] == other);
            }
            if other != key && toggled.contains(other) {
                let i = choose|i: int| 0 <= i < toggled.len() && toggled[i] == other;
                assert(toggled[i] == collapsed[i]);
            }
        },
    }
}

/// The sessions of one project, in display order.
pub struct ProjectGroup<'a> {
    pub identity: Option<&'a ProjectIdentity>,
    pub sessions: Vec<&'a SessionViewModel>,
}

/// A group's identity and its sessions.
pub open spec fn group_view(g: ProjectGroup) -> (Option<ProjectIdentityView>, Seq<SessionViewModel>) {
    (
        match g.identity {
            Some(p) => Some(p.view()),
            None => None,
        },
        g.sessions@.map_values(|s: &SessionViewModel| *s),
    )
}

pub open spec fn group_key(key: Option<ProjectIdentityView>) -> spec_fn(
    (Option<ProjectIdentityView>, Seq<SessionViewModel>),
) -> bool {
    |g: (Option<ProjectIdentityView>, Seq<SessionViewModel>)| g.0 == key
}

/// Sessions grouped by their complete project identity: groups in order of
/// their first session, sessions in their display order.
pub open spec fn grouped(sessions: Seq<SessionViewModel>) -> Seq<
    (Option<ProjectIdentityView>, Seq<SessionViewModel>),
>
    decreases sessions.len(),
{
    if sessions.len() == 0 {
        Seq::empty()
    } else {
        let groups = grouped(sessions.drop_last());
        let s = sessions.last();
        let key = opt_identity_view(s.project_identity);
        match first_match(groups, group_key(key)) {
            Some(k) => groups.update(k as int, (groups[k as int].0, groups[k as int].1.push(s))),
            None => groups.push((key, seq![s])),
        }
    }
}

/// The display's project groups.
pub fn project_groups(state: &ApplicationState) -> (groups: Vec<ProjectGroup<'_>>)
    ensures
        groups@.map_values(|g: ProjectGroup| group_view(g)) == grouped(state.sessions_view()),
{
    let sessions = state.sessions();
    let mut groups: Vec<ProjectGroup> = Vec::new();
    let mut i: usize = 0;
    while i < sessions.len()
        invariant
            i <= sessions@.len(),
            sessions@ == state.sessions_view(),
            groups@.map_values(|g: ProjectGroup| group_view(g)) == grouped(
                sessions@.take(i as int),
            ),
        decreases sessions.len() - i,
    {
        let session = &sessions[i];
        let identity = match &session.project_identity {
            Some(p) => Some(p),
            None => None,
        };
        let ghost views = groups@.map_values(|g: ProjectGroup| group_view(g));
        let ghost key = opt_identity_view(session.project_identity);
        proof {
            assert(sessions@.take(i + 1).drop_last() =~= sessions@.take(i as int));
            assert(sessions@.take(i + 1).last() == *session);
        }
        let mut k: usize = 0;
        while k < groups.len() && !same_opt_identity(groups[k].identity, identity)
            invariant
                k <= groups@.len(),
                views == groups@.map_values(|g: ProjectGroup| group_view(g)),
                key == match identity {
                    Some(p) => Some(p.view()),
                    None => None::<ProjectIdentityView>,
                },
                forall|j: int| 0 <= j < k ==> !group_key(key)(#[trigger] views[j]),
            decreases groups.len() - k,
        {
            k = k + 1;
        }
        proof {
            lemma_first_match_at(views, group_key(key), k as int);
        }
        if k < groups.len() {
            let ghost old_group = groups@[k as int];
            let mut group = groups.remove(k);
            group.sessions.push(session);
            groups.insert(k, group);
            proof {
                assert(group_view(group) == (views[k as int].0, views[k as int].1.push(*session))) by {
                    assert(group.sessions@.map_values(|s: &SessionViewModel| *s) =~= old_group.sessions@.map_values(
                        |s: &SessionViewModel| *s,
                    ).push(*session));
                }
                assert(groups@.map_values(|g: ProjectGroup| group_view(g)) =~= views.update(
                    k as int,
                    (views[k as int].0, views[k as int].1.push(*session)),
                ));
            }
        } else {
            let mut members: Vec<&SessionViewModel> = Vec::new();
            members.push(session);
            let group = ProjectGroup { identity, sessions: members };
            groups.push(group);
            proof {
                assert(group.sessions@.map_values(|s: &SessionViewModel| *s) =~= seq![*session]);
                assert(groups@.map_values(|g: ProjectGroup| group_view(g)) =~= views.push(
                    (key, seq![*session]),
                ));
            }
        }
        i = i + 1;
    }
    proof {
        assert(sessions@.take(sessions@.len() as int) =~= sessions@);
    }
    groups
}

/// A preview never exceeds its bound, and a text within the bound is shown
/// whole, control characters aside.
pub proof fn lemma_preview_is_bounded(s: Seq<char>, max: nat)
    requires
        max > 0,
    ensures
        previewed(s, max).len() <= max,
        s.len() <= max ==> previewed(s, max) == visible_text(s),
{
}

/// A colour of the display, by its red, green and blue components.
#[derive(Clone, Copy, Debug, PartialEq, Eq, Structural)]
pub struct Rgb {
    pub red: u8,
    pub green: u8,
    pub blue: u8,
}

/// The colours of a status badge: its background and its text.
#[derive(Clone, Copy, Debug, PartialEq, Eq, Structural)]
pub struct BadgePalette {
    pub background: Rgb,
    pub foreground: Rgb,
}

/// The ordinary text colour.
pub open spec fn ink() -> Rgb {
    Rgb { red: 30, green: 35, blue: 42 }
}

/// The colour that marks missing evidence.
pub open spec fn caution_text() -> Rgb {
    Rgb { red: 126, green: 77, blue: 0 }
}

/// A session that is ready and asks for the human's attention.
pub open spec fn alert_palette() -> BadgePalette {
    BadgePalette {
        background: Rgb { red: 255, green: 220, blue: 220 },
        foreground: Rgb { red: 170, green: 24, blue: 24 },
    }
}

/// A session whose state is recorded: working, or ready and acknowledged.
pub open spec fn recorded_palette() -> BadgePalette {
    BadgePalette {
        background: Rgb { red: 219, green: 234, blue: 254 },
        foreground: Rgb { red: 18, green: 73, blue: 140 },
    }
}

/// A session whose state is unknown.
pub open spec fn unknown_palette() -> BadgePalette {
    BadgePalette { background: Rgb { red: 255, green: 237, blue: 196 }, foreground: caution_text() }
}

/// The colours of a session's status badge: a ready session that needs
/// attention stands out, an unknown state is marked as missing evidence, and
/// working and acknowledged ready sessions share the quiet palette.
pub fn badge_palette(readiness: Readiness, needs_attention: bool) -> (palette: BadgePalette)
    ensures
        readiness == Readiness::Ready && needs_attention ==> palette == alert_palette(),
        readiness == Readiness::Ready && !needs_attention ==> palette == recorded_palette(),
        readiness == Readiness::Working ==> palette == recorded_palette(),
        readiness == Readiness::Unknown ==> palette == unknown_palette(),
{
    let recorded = BadgePalette {
        background: Rgb { red: 219, green: 234, blue: 254 },
        foreground: Rgb { red: 18, green: 73, blue: 140 },
    };
    match readiness {
        Readiness::Ready => if needs_attention {
            BadgePalette {
                background: Rgb { red: 255, green: 220, blue: 220 },
                foreground: Rgb { red: 170, green: 24, blue: 24 },
            }
        } else {
            recorded
        },
        Readiness::Working => recorded,
        Readiness::Unknown => BadgePalette {
            background: Rgb { red: 255, green: 237, blue: 196 },
            foreground: Rgb { red: 126, green: 77, blue: 0 },
        },
    }
}

/// The display's heading: it names the recent local sessions, or says that
/// observation is unavailable once it has degraded.
pub fn heading(observation_degraded: bool) -> (text: &'static str)
    ensures
        text@ == (if observation_degraded {
            "Observation unavailable"@
        } else {
            "Recent local sessions"@
        }),
{
    if observation_degraded {
        "Observation unavailable"
    } else {
        "Recent local sessions"
    }
}

/// The colour of the heading: the missing-evidence colour once observation
/// has degraded, the ordinary text colour otherwise.
pub fn heading_color(observation_degraded: bool) -> (color: Rgb)
    ensures
        color == (if observation_degraded {
            caution_text()
        } else {
            ink()
        }),
{
    if observation_degraded {
        Rgb { red: 126, green: 77, blue: 0 }
    } else {
        Rgb { red: 30, green: 35, blue: 42 }
    }
}

} // verus!
