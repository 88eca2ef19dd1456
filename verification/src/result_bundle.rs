//! The latest results of one logical project, collected for copying.
//!
//! Whether two project roots are the same directory is decided on disk; the
//! caller supplies the canonical roots it found, and sessions whose root it
//! could not resolve have none.

use vstd::prelude::*;

use crate::model::SessionViewModel;
use crate::order::{
    before_fn, first_match, lemma_first_match_at, lemma_lex_irreflexive, lemma_lex_transitive,
    lemma_sort_by, lex_lt, sort_by, sorted_by, stable_sort, strict_order, text_less, Precedes,
};
use crate::project::{ProjectIdentity, ProjectIdentityView};
use crate::readiness::Readiness;
use crate::text::{copy_opt, is_blank, is_blank_str, opt_chars, push_char, str_equal};

verus! {

#[derive(Debug, PartialEq, Eq)]
pub struct ProjectResult {
    pub title: Option<String>,
    pub session_id: String,
    pub readiness: Readiness,
    pub latest_result: String,
}

impl Clone for ProjectResult {
    fn clone(&self) -> (copy: Self)
        ensures
            copy == *self,
    {
        ProjectResult {
            title: copy_opt(&self.title),
            session_id: self.session_id.clone(),
            readiness: self.readiness,
            latest_result: self.latest_result.clone(),
        }
    }
}

/// The result of collecting the latest available results for one project.
#[derive(Debug, PartialEq, Eq)]
pub enum ProjectResultBundle {
    Available { project: ProjectIdentity, sessions: Vec<ProjectResult> },
    Unavailable { project: ProjectIdentity },
}

/// Two identities name the same logical project: the same repository when
/// both know theirs, otherwise the same canonical root directory.
pub open spec fn same_logical_project(
    left: ProjectIdentityView,
    left_root: Option<Seq<char>>,
    right: ProjectIdentityView,
    right_root: Option<Seq<char>>,
) -> bool {
    match (left.2, right.2) {
        (Some(a), Some(b)) => a == b,
        _ => match (left_root, right_root) {
            (Some(a), Some(b)) => a == b,
            _ => false,
        },
    }
}

/// The canonical root supplied for the `i`-th session, if any.
pub open spec fn root_at(roots: Seq<Option<String>>, i: int) -> Option<Seq<char>> {
    if 0 <= i < roots.len() {
        opt_chars(roots[i])
    } else {
        None
    }
}

/// A result with the recency under which it is ordered.
pub struct RankedResult {
    pub recency: i64,
    pub result: ProjectResult,
}

impl Precedes for RankedResult {
    /// Most recent first, then by session identifier.
    open spec fn before(a: Self, b: Self) -> bool {
        a.recency > b.recency || (a.recency == b.recency && lex_lt(
            a.result.session_id@,
            b.result.session_id@,
        ))
    }

    fn goes_before(&self, other: &Self) -> (before: bool) {
        self.recency > other.recency || (self.recency == other.recency && text_less(
            self.result.session_id.as_str(),
            other.result.session_id.as_str(),
        ))
    }
}

pub open spec fn has_id(id: Seq<char>) -> spec_fn(SessionViewModel) -> bool {
    |s: SessionViewModel| s.id@ == id
}

/// The recency of the first session with identifier `id`.
pub open spec fn first_recency(sessions: Seq<SessionViewModel>, id: Seq<char>) -> i64 {
    match first_match(sessions, has_id(id)) {
        Some(k) => sessions[k as int].recency_at_ms,
        None => 0,
    }
}

/// The non-blank results of the sessions of `project`, in session order,
/// each ranked by the recency of its session.
pub open spec fn ranked_results(
    project: ProjectIdentityView,
    project_root: Option<Seq<char>>,
    sessions: Seq<SessionViewModel>,
    roots: Seq<Option<String>>,
    n: int,
) -> Seq<RankedResult>
    decreases n,
{
    if n <= 0 {
        Seq::empty()
    } else {
        let rest = ranked_results(project, project_root, sessions, roots, n - 1);
        let s = sessions[n - 1];
        let belongs = match s.project_identity {
            Some(candidate) => same_logical_project(
                project,
                project_root,
                candidate.view(),
                root_at(roots, n - 1),
            ),
            None => false,
        };
        match s.latest_result {
            Some(r) => if belongs && !is_blank(r@) {
                rest.push(
                    RankedResult {
                        recency: first_recency(sessions, s.id@),
                        result: ProjectResult {
                            title: s.title,
                            session_id: s.id,
                            readiness: s.readiness,
                            latest_result: r,
                        },
                    },
                )
            } else {
                rest
            },
            None => rest,
        }
    }
}

/// The bundle's results: the ranked results, most recent first, then by
/// session identifier.
pub open spec fn bundle_results(
    project: ProjectIdentityView,
    project_root: Option<Seq<char>>,
    sessions: Seq<SessionViewModel>,
    roots: Seq<Option<String>>,
) -> Seq<ProjectResult> {
    sort_by(
        ranked_results(project, project_root, sessions, roots, sessions.len() as int),
        before_fn::<RankedResult>(),
    ).map_values(|r: RankedResult| r.result)
}

/// One session's section of the formatted bundle.
pub open spec fn section_text(result: ProjectResult) -> Seq<char> {
    "\n## Session: "@ + match result.title {
        Some(t) => t@ + " ("@,
        None => Seq::empty(),
    } + result.session_id@ + match result.title {
        Some(_) => seq![')'],
        None => Seq::empty(),
    } + "\nReadiness: "@ + result.readiness.label() + "\n\n"@ + result.latest_result@
}

/// The sections of the formatted bundle, separated by a rule.
pub open spec fn sections_text(results: Seq<ProjectResult>) -> Seq<char>
    decreases results.len(),
{
    if results.len() == 0 {
        Seq::empty()
    } else if results.len() == 1 {
        section_text(results[0])
    } else {
        sections_text(results.drop_last()) + "\n\n---\n"@ + section_text(results.last())
    }
}

/// The text of a project's available results.
pub open spec fn available_text(project: ProjectIdentity, results: Seq<ProjectResult>) -> Seq<char> {
    "# Project: "@ + project.normalized_name@ + "\n"@ + sections_text(results)
}

/// The deterministic, copyable Markdown text of a bundle.
pub open spec fn bundle_text(bundle: ProjectResultBundle) -> Seq<char> {
    match bundle {
        ProjectResultBundle::Unavailable { project } => "No latest results available for project: "@
            + project.normalized_name@,
        ProjectResultBundle::Available { project, sessions } => available_text(project, sessions@),
    }
}

fn append_section(output: &mut String, session: &ProjectResult)
    ensures
        final(output)@ == old(output)@ + section_text(*session),
{
    output.append("\n## Session: ");
    match &session.title {
        Some(title) => {
            output.append(title.as_str());
            output.append(" (");
        },
        None => {},
    }
    output.append(session.session_id.as_str());
    if session.title.is_some() {
        push_char(output, ')');
    }
    output.append("\nReadiness: ");
    output.append(session.readiness.as_str());
    output.append("\n\n");
    output.append(session.latest_result.as_str());
    proof {
        assert(final(output)@ =~= old(output)@ + section_text(*session));
    }
}

/// The recency of the first session with identifier `id`.
fn recency_of(sessions: &[SessionViewModel], id: &str) -> (recency: i64)
    ensures
        recency == first_recency(sessions@, id@),
{
    let mut k: usize = 0;
    while k < sessions.len() && !str_equal(sessions[k].id.as_str(), id)
        invariant
            k <= sessions@.len(),
            forall|j: int| 0 <= j < k ==> !has_id(id@)(#[trigger] sessions@[j]),
        decreases sessions.len() - k,
    {
        k = k + 1;
    }
    proof {
        lemma_first_match_at(sessions@, has_id(id@), k as int);
    }
    if k < sessions.len() {
        sessions[k].recency_at_ms
    } else {
        0
    }
}

fn belongs_to(
    project: &ProjectIdentity,
    project_root: Option<&str>,
    candidate: &ProjectIdentity,
    root: Option<&str>,
) -> (same: bool)
    ensures
        same == same_logical_project(
            project.view(),
            match project_root {
                Some(r) => Some(r@),
                None => None,
            },
            candidate.view(),
            match root {
                Some(r) => Some(r@),
                None => None,
            },
        ),
{
    match (&project.repository_identity, &candidate.repository_identity) {
        (Some(a), Some(b)) => str_equal(a.as_str(), b.as_str()),
        _ => match (project_root, root) {
            (Some(a), Some(b)) => str_equal(a, b),
            _ => false,
        },
    }
}

impl ProjectResultBundle {
    /// Collects the non-blank results of the sessions belonging to this
    /// logical project. `project_root` is the project's canonical root and
    /// `session_roots[i]` that of the `i`-th session, when they exist.
    pub fn from_sessions(
        project: &ProjectIdentity,
        project_root: Option<&str>,
        sessions: &[SessionViewModel],
        session_roots: &[Option<String>],
    ) -> (bundle: Self)
        ensures
            ({
                let results = bundle_results(
                    project.view(),
                    match project_root {
                        Some(r) => Some(r@),
                        None => None,
                    },
                    sessions@,
                    session_roots@,
                );
                if results.len() == 0 {
                    bundle == (ProjectResultBundle::Unavailable { project: *project })
                } else {
                    bundle matches ProjectResultBundle::Available { project: p, sessions: s } && p
                        == *project && s@ == results
                }
            }),
    {
        let ghost project_root_view = match project_root {
            Some(r) => Some(r@),
            None => None::<Seq<char>>,
        };
        let mut ranked: Vec<RankedResult> = Vec::new();
        let mut i: usize = 0;
        while i < sessions.len()
            invariant
                i <= sessions@.len(),
                project_root_view == match project_root {
                    Some(r) => Some(r@),
                    None => None::<Seq<char>>,
                },
                ranked@ == ranked_results(
                    project.view(),
                    project_root_view,
                    sessions@,
                    session_roots@,
                    i as int,
                ),
            decreases sessions.len() - i,
        {
            let session = &sessions[i];
            let root: Option<&str> = if i < session_roots.len() {
                match &session_roots[i] {
                    Some(r) => Some(r.as_str()),
                    None => None,
                }
            } else {
                None
            };
            let belongs = match &session.project_identity {
                Some(candidate) => belongs_to(project, project_root, candidate, root),
                None => false,
            };
            match &session.latest_result {
                Some(result) => {
                    if belongs && !is_blank_str(result.as_str()) {
                        let recency = recency_of(sessions, session.id.as_str());
                        ranked.push(
                            RankedResult {
                                recency,
                                result: ProjectResult {
                                    title: copy_opt(&session.title),
                                    session_id: session.id.clone(),
                                    readiness: session.readiness,
                                    latest_result: result.clone(),
                                },
                            },
                        );
                    }
                },
                None => {},
            }
            i = i + 1;
        }
        let sorted = stable_sort(ranked);
        let ghost sorted_view = sorted@;
        let mut results: Vec<ProjectResult> = Vec::new();
        let mut rest = sorted;
        let ghost mut taken: int = 0;
        proof {
            assert(sorted_view.skip(0) =~= sorted_view);
            assert(results@ =~= sorted_view.take(0).map_values(|r: RankedResult| r.result));
        }
        while rest.len() > 0
            invariant
                0 <= taken <= sorted_view.len(),
                rest@ == sorted_view.skip(taken),
                results@ == sorted_view.take(taken).map_values(|r: RankedResult| r.result),
            decreases rest.len(),
        {
            let item = rest.remove(0);
            proof {
                assert(item == sorted_view[taken]);
                assert(rest@ =~= sorted_view.skip(taken + 1));
            }
            results.push(item.result);
            proof {
                assert(results@ =~= sorted_view.take(taken + 1).map_values(
                    |r: RankedResult| r.result,
                ));
                taken = taken + 1;
            }
        }
        proof {
            assert(sorted_view.take(taken) =~= sorted_view);
        }
        if results.len() == 0 {
            ProjectResultBundle::Unavailable { project: project.clone() }
        } else {
            ProjectResultBundle::Available { project: project.clone(), sessions: results }
        }
    }

    /// Formats the bundle as deterministic, copyable Markdown text.
    pub fn format(&self) -> (text: String)
        ensures
            text@ == bundle_text(*self),
    {
        match self {
            ProjectResultBundle::Unavailable { project } => {
                let mut output = String::new();
                output.append("No latest results available for project: ");
                output.append(project.normalized_name.as_str());
                output
            },
            ProjectResultBundle::Available { project, sessions } => {
                let mut output = String::new();
                output.append("# Project: ");
                output.append(project.normalized_name.as_str());
                output.append("\n");
                let ghost head = output@;
                let mut index: usize = 0;
                while index < sessions.len()
                    invariant
                        index <= sessions@.len(),
                        output@ == head + sections_text(sessions@.take(index as int)),
                    decreases sessions.len() - index,
                {
                    proof {
                        assert(sessions@.take(index + 1).drop_last() =~= sessions@.take(
                            index as int,
                        ));
                        assert(sessions@.take(index + 1).last() == sessions@[index as int]);
                    }
                    let ghost before = output@;
                    if index > 0 {
                        output.append("\n\n---\n");
                    }
                    let ghost separated = output@;
                    append_section(&mut output, &sessions[index]);
                    proof {
                        assert(output@ =~= separated + section_text(sessions@[index as int]));
                        if index == 0 {
                            assert(sessions@.take(1) =~= seq![sessions@[0]]);
                            assert(before =~= head);
                            assert(output@ =~= head + sections_text(sessions@.take(1)));
                        } else {
                            assert(output@ =~= head + sections_text(sessions@.take(index + 1)));
                        }
                    }
                    index = index + 1;
                }
                proof {
                    assert(sessions@.take(sessions@.len() as int) =~= sessions@);
                }
                output
            },
        }
    }
}


/// Whether a ranked result was collected from the `i`-th session: that
/// session belongs to the project and recorded this non-blank result.
pub open spec fn collected_from(
    project: ProjectIdentityView,
    project_root: Option<Seq<char>>,
    sessions: Seq<SessionViewModel>,
    roots: Seq<Option<String>>,
    r: RankedResult,
    i: int,
) -> bool {
    let s = sessions[i];
    &&& s.project_identity matches Some(candidate) && same_logical_project(
        project,
        project_root,
        candidate.view(),
        root_at(roots, i),
    )
    &&& s.latest_result == Some(r.result.latest_result)
    &&& !is_blank(r.result.latest_result@)
    &&& r.result.session_id == s.id
    &&& r.result.title == s.title
    &&& r.result.readiness == s.readiness
}

/// The `k`-th result of `rs` was collected from one of the first `n`
/// sessions.
pub open spec fn collected_at(
    project: ProjectIdentityView,
    project_root: Option<Seq<char>>,
    sessions: Seq<SessionViewModel>,
    roots: Seq<Option<String>>,
    rs: Seq<RankedResult>,
    k: int,
    n: int,
) -> bool {
    exists|i: int|
        0 <= i < n && #[trigger] collected_from(project, project_root, sessions, roots, rs[k], i)
}

/// Every result of `rs` was collected from one of the first `n` sessions.
pub open spec fn all_collected(
    project: ProjectIdentityView,
    project_root: Option<Seq<char>>,
    sessions: Seq<SessionViewModel>,
    roots: Seq<Option<String>>,
    rs: Seq<RankedResult>,
    n: int,
) -> bool {
    forall|k: int|
        0 <= k < rs.len() ==> #[trigger] collected_at(project, project_root, sessions, roots, rs, k, n)
}

proof fn lemma_ranked_results_collected(
    project: ProjectIdentityView,
    project_root: Option<Seq<char>>,
    sessions: Seq<SessionViewModel>,
    roots: Seq<Option<String>>,
    n: int,
)
    requires
        0 <= n <= sessions.len(),
    ensures
        all_collected(
            project,
            project_root,
            sessions,
            roots,
            ranked_results(project, project_root, sessions, roots, n),
            n,
        ),
    decreases n,
{
    if n > 0 {
        lemma_ranked_results_collected(project, project_root, sessions, roots, n - 1);
        let rest = ranked_results(project, project_root, sessions, roots, n - 1);
        let all = ranked_results(project, project_root, sessions, roots, n);
        assert(all_collected(project, project_root, sessions, roots, rest, n - 1));
        let sn = sessions[n - 1];
        let belongs = match sn.project_identity {
            Some(candidate) => same_logical_project(
                project,
                project_root,
                candidate.view(),
                root_at(roots, n - 1),
            ),
            None => false,
        };
        let grows = match sn.latest_result {
            Some(r) => belongs && !is_blank(r@),
            None => false,
        };
        if grows {
            let r = sn.latest_result->0;
            let item = RankedResult {
                recency: first_recency(sessions, sn.id@),
                result: ProjectResult {
                    title: sn.title,
                    session_id: sn.id,
                    readiness: sn.readiness,
                    latest_result: r,
                },
            };
            assert(all == rest.push(item));
            assert(collected_from(project, project_root, sessions, roots, item, n - 1));
            assert forall|k: int| 0 <= k < all.len() implies #[trigger] collected_at(
                project,
                project_root,
                sessions,
                roots,
                all,
                k,
                n,
            ) by {
                if k < rest.len() {
                    assert(all[k] == rest[k]);
                    assert(collected_at(project, project_root, sessions, roots, rest, k, n - 1));
                    let i = choose|i: int|
                        0 <= i < n - 1 && #[trigger] collected_from(
                            project,
                            project_root,
                            sessions,
                            roots,
                            rest[k],
                            i,
                        );
                    assert(collected_from(project, project_root, sessions, roots, all[k], i));
                } else {
                    assert(all[k] == item);
                }
            }
        } else {
            assert(all == rest);
            assert forall|k: int| 0 <= k < all.len() implies #[trigger] collected_at(
                project,
                project_root,
                sessions,
                roots,
                all,
                k,
                n,
            ) by {
                assert(collected_at(project, project_root, sessions, roots, rest, k, n - 1));
                let i = choose|i: int|
                    0 <= i < n - 1 && #[trigger] collected_from(
                        project,
                        project_root,
                        sessions,
                        roots,
                        rest[k],
                        i,
                    );
                assert(collected_from(project, project_root, sessions, roots, all[k], i));
            }
        }
    } else {
        assert(ranked_results(project, project_root, sessions, roots, n).len() == 0);
    }
}

/// Results are shown most recent first, then by session identifier.
pub proof fn lemma_ranking_is_strict()
    ensures
        strict_order(before_fn::<RankedResult>()),
{
    assert forall|a: RankedResult| !#[trigger] before_fn::<RankedResult>()(a, a) by {
        lemma_lex_irreflexive(a.result.session_id@);
    }
    assert forall|a: RankedResult, b: RankedResult, c: RankedResult|
        #[trigger] before_fn::<RankedResult>()(a, b) && #[trigger] before_fn::<RankedResult>()(
            b,
            c,
        ) implies before_fn::<RankedResult>()(a, c) by {
        if a.recency == b.recency && b.recency == c.recency {
            lemma_lex_transitive(a.result.session_id@, b.result.session_id@, c.result.session_id@);
        }
    }
}

/// A bundle holds only results recorded by sessions of its own project, each
/// non-blank, and shows them most recent first, then by session identifier.
pub proof fn lemma_bundle_is_ordered_and_scoped(
    project: ProjectIdentityView,
    project_root: Option<Seq<char>>,
    sessions: Seq<SessionViewModel>,
    roots: Seq<Option<String>>,
)
    ensures
        sorted_by(
            sort_by(
                ranked_results(project, project_root, sessions, roots, sessions.len() as int),
                before_fn::<RankedResult>(),
            ),
            before_fn::<RankedResult>(),
        ),
        all_collected(
            project,
            project_root,
            sessions,
            roots,
            sort_by(
                ranked_results(project, project_root, sessions, roots, sessions.len() as int),
                before_fn::<RankedResult>(),
            ),
            sessions.len() as int,
        ),
{
    let n = sessions.len() as int;
    let ranked = ranked_results(project, project_root, sessions, roots, n);
    let sorted = sort_by(ranked, before_fn::<RankedResult>());
    lemma_ranking_is_strict();
    lemma_sort_by(ranked, before_fn::<RankedResult>());
    lemma_ranked_results_collected(project, project_root, sessions, roots, n);
    assert forall|k: int| 0 <= k < sorted.len() implies #[trigger] collected_at(
        project,
        project_root,
        sessions,
        roots,
        sorted,
        k,
        n,
    ) by {
        broadcast use vstd::seq_lib::group_to_multiset_ensures;
        assert(sorted.to_multiset().count(sorted[k]) > 0);
        assert(ranked.to_multiset().count(sorted[k]) > 0);
        assert(ranked.contains(sorted[k]));
        let j = choose|j: int| 0 <= j < ranked.len() && ranked[j] == sorted[k];
        assert(collected_at(project, project_root, sessions, roots, ranked, j, n));
        let i = choose|i: int|
            0 <= i < n && #[trigger] collected_from(
                project,
                project_root,
                sessions,
                roots,
                ranked[j],
                i,
            );
        assert(collected_from(project, project_root, sessions, roots, sorted[k], i));
    }
}

} // verus!
