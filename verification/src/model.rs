//! The application's in-memory session view state and how observed changes
//! update it.

use vstd::prelude::*;

use crate::attention::{AttentionCenter, AttentionItem};
use crate::discovery::SessionSnapshot;
use crate::order::{
    before_fn, first_match, keep_where, lemma_first_match, lemma_first_match_at, lemma_keep_where,
    lemma_lex_irreflexive, lemma_lex_transitive, lemma_sort_by, lex_lt, sort_by, sorted_by,
    stable_sort, strict_order, text_less, Precedes,
};
use crate::project::{copy_opt_identity, same_opt_identity, ProjectIdentity};
use crate::readiness::Readiness;
use crate::text::{copy_opt, copy_strings, str_equal};
use crate::verification::{copy_opt_evidence, VerificationEvidence};

verus! {

pub const WORKFLOW_EVENT_LIMIT: usize = 32;

#[derive(Clone, Copy, Debug, PartialEq, Eq, Structural)]
pub enum WorkflowEventKind {
    TaskStarted,
    TaskCompleted,
    AssistantResult,
    FileChange,
    CommandExecution,
}

/// One recorded workflow event of a session.
#[derive(Debug, PartialEq, Eq)]
pub struct WorkflowEvent {
    pub sequence: u64,
    pub timestamp: Option<String>,
    pub kind: WorkflowEventKind,
    pub summary: Option<String>,
}

impl Clone for WorkflowEvent {
    fn clone(&self) -> (copy: Self)
        ensures
            copy == *self,
    {
        WorkflowEvent {
            sequence: self.sequence,
            timestamp: copy_opt(&self.timestamp),
            kind: self.kind,
            summary: copy_opt(&self.summary),
        }
    }
}

/// The normalized, presentation-facing state of one session.
#[derive(Debug, PartialEq, Eq)]
pub struct SessionViewModel {
    pub id: String,
    pub title: Option<String>,
    pub project_identity: Option<ProjectIdentity>,
    pub readiness: Readiness,
    pub latest_result: Option<String>,
    pub needs_attention: bool,
    pub recency_at_ms: i64,
    pub changed_files: Vec<String>,
    pub verification: Option<VerificationEvidence>,
}

impl SessionViewModel {
    /// Every field of `self` equals that of `other`, the file list by content.
    pub open spec fn same_fields(self, other: SessionViewModel) -> bool {
        &&& self.id == other.id
        &&& self.title == other.title
        &&& self.project_identity == other.project_identity
        &&& self.readiness == other.readiness
        &&& self.latest_result == other.latest_result
        &&& self.needs_attention == other.needs_attention
        &&& self.recency_at_ms == other.recency_at_ms
        &&& self.changed_files@ == other.changed_files@
        &&& self.verification == other.verification
    }
}

impl Clone for SessionViewModel {
    fn clone(&self) -> (copy: Self)
        ensures
            copy.same_fields(*self),
    {
        SessionViewModel {
            id: self.id.clone(),
            title: copy_opt(&self.title),
            project_identity: copy_opt_identity(&self.project_identity),
            readiness: self.readiness,
            latest_result: copy_opt(&self.latest_result),
            needs_attention: self.needs_attention,
            recency_at_ms: self.recency_at_ms,
            changed_files: copy_strings(&self.changed_files),
            verification: copy_opt_evidence(&self.verification),
        }
    }
}

impl SessionViewModel {
    /// The view of a recorded session: nothing needs attention yet.
    pub fn from_snapshot(snapshot: &SessionSnapshot) -> (session: Self)
        ensures
            session.id == snapshot.id,
            session.title == snapshot.title,
            session.project_identity == snapshot.project_identity,
            session.readiness == snapshot.readiness,
            session.latest_result == snapshot.latest_result,
            !session.needs_attention,
            session.recency_at_ms == snapshot.recency_at_ms,
            session.changed_files@ == snapshot.changed_files@,
            session.verification == snapshot.verification,
    {
        SessionViewModel {
            id: snapshot.id.clone(),
            title: copy_opt(&snapshot.title),
            project_identity: copy_opt_identity(&snapshot.project_identity),
            readiness: snapshot.readiness,
            latest_result: copy_opt(&snapshot.latest_result),
            needs_attention: false,
            recency_at_ms: snapshot.recency_at_ms,
            changed_files: copy_strings(&snapshot.changed_files),
            verification: copy_opt_evidence(&snapshot.verification),
        }
    }
}

impl<'a> From<&'a SessionSnapshot> for SessionViewModel {
    fn from(snapshot: &'a SessionSnapshot) -> Self {
        SessionViewModel::from_snapshot(snapshot)
    }
}

impl<'a> vstd::std_specs::convert::FromSpecImpl<&'a SessionSnapshot> for SessionViewModel {
    open spec fn obeys_from_spec() -> bool {
        false
    }

    open spec fn from_spec(snapshot: &'a SessionSnapshot) -> Self {
        arbitrary()
    }
}

/// A normalized change reported by an observer.
#[derive(Debug, PartialEq, Eq)]
pub enum SessionChange {
    Snapshot(Vec<SessionViewModel>),
    Updated(SessionViewModel),
    Removed(String),
    ObservationDegraded { id: String },
    ObservationTerminated,
}

/// Presentation order of sessions: most recent first, then by identifier.
pub open spec fn session_before(a: SessionViewModel, b: SessionViewModel) -> bool {
    a.recency_at_ms > b.recency_at_ms || (a.recency_at_ms == b.recency_at_ms && lex_lt(
        a.id@,
        b.id@,
    ))
}

impl Precedes for SessionViewModel {
    open spec fn before(a: Self, b: Self) -> bool {
        session_before(a, b)
    }

    fn goes_before(&self, other: &Self) -> (before: bool) {
        self.recency_at_ms > other.recency_at_ms || (self.recency_at_ms == other.recency_at_ms
            && text_less(self.id.as_str(), other.id.as_str()))
    }
}

pub proof fn lemma_session_order()
    ensures
        strict_order(before_fn::<SessionViewModel>()),
{
    assert forall|a: SessionViewModel| !#[trigger] before_fn::<SessionViewModel>()(a, a) by {
        lemma_lex_irreflexive(a.id@);
    }
    assert forall|a: SessionViewModel, b: SessionViewModel, c: SessionViewModel|
        #[trigger] before_fn::<SessionViewModel>()(a, b) && #[trigger] before_fn::<
            SessionViewModel,
        >()(b, c) implies before_fn::<SessionViewModel>()(a, c) by {
        if lex_lt(a.id@, b.id@) && lex_lt(b.id@, c.id@) {
            lemma_lex_transitive(a.id@, b.id@, c.id@);
        }
    }
}

/// The attention flag a session carries after an update: a transition from
/// working to ready raises it, any state other than ready clears it, and a
/// ready-to-ready update keeps it until acknowledged.
pub open spec fn carried_attention(previous: SessionViewModel, item: SessionViewModel) -> bool {
    if previous.readiness == Readiness::Working && item.readiness == Readiness::Ready {
        true
    } else if item.readiness != Readiness::Ready {
        false
    } else {
        previous.needs_attention
    }
}

pub open spec fn with_attention(item: SessionViewModel, flag: bool) -> SessionViewModel {
    SessionViewModel { needs_attention: flag, ..item }
}

/// A session whose observation was lost: readiness unknown, no attention.
pub open spec fn degraded(item: SessionViewModel) -> SessionViewModel {
    SessionViewModel { readiness: Readiness::Unknown, needs_attention: false, ..item }
}

pub open spec fn has_id(id: Seq<char>) -> spec_fn(SessionViewModel) -> bool {
    |s: SessionViewModel| s.id@ == id
}

pub open spec fn not_id(id: Seq<char>) -> spec_fn(SessionViewModel) -> bool {
    |s: SessionViewModel| s.id@ != id
}

pub open spec fn awaiting_acknowledgement(id: Seq<char>) -> spec_fn(SessionViewModel) -> bool {
    |s: SessionViewModel| s.id@ == id && s.needs_attention
}

pub open spec fn project_view(project: Option<&ProjectIdentity>) -> Option<
    crate::project::ProjectIdentityView,
> {
    match project {
        Some(p) => Some(p.view()),
        None => None,
    }
}

/// Sessions of the selected project: all sessions when no project is selected.
pub open spec fn in_project(project: Option<crate::project::ProjectIdentityView>) -> spec_fn(
    SessionViewModel,
) -> bool {
    |s: SessionViewModel|
        match project {
            None => true,
            Some(p) => match s.project_identity {
                Some(q) => q.view() == p,
                None => false,
            },
        }
}

/// An incoming session reconciled with the previous state of the same session.
pub open spec fn reconciled(previous: Seq<SessionViewModel>, item: SessionViewModel) -> SessionViewModel {
    match first_match(previous, has_id(item.id@)) {
        Some(k) => with_attention(item, carried_attention(previous[k as int], item)),
        None => item,
    }
}

/// The sessions after a full snapshot.
pub open spec fn snapshot_sessions(
    previous: Seq<SessionViewModel>,
    items: Seq<SessionViewModel>,
) -> Seq<SessionViewModel> {
    sort_by(
        items.map_values(|item: SessionViewModel| reconciled(previous, item)),
        before_fn::<SessionViewModel>(),
    )
}

/// The sessions after a targeted update of one session.
pub open spec fn updated_sessions(previous: Seq<SessionViewModel>, item: SessionViewModel) -> Seq<
    SessionViewModel,
> {
    sort_by(
        match first_match(previous, has_id(item.id@)) {
            Some(k) => previous.update(
                k as int,
                with_attention(item, carried_attention(previous[k as int], item)),
            ),
            None => previous.push(item),
        },
        before_fn::<SessionViewModel>(),
    )
}

/// The sessions after observation terminated: every known state becomes unknown.
pub open spec fn terminated_sessions(previous: Seq<SessionViewModel>) -> Seq<SessionViewModel> {
    previous.map_values(
        |s: SessionViewModel|
            if s.readiness != Readiness::Unknown {
                degraded(s)
            } else {
                s
            },
    )
}

/// Application state: the visible sessions, whether observation is degraded,
/// and the attention items.
#[derive(Debug)]
pub struct ApplicationState {
    sessions: Vec<SessionViewModel>,
    pub observation_degraded: bool,
    attention: AttentionCenter,
}

impl Default for ApplicationState {
    fn default() -> (state: Self)
        ensures
            state.sessions_view() == Seq::<SessionViewModel>::empty(),
            !state.degraded_view(),
            state.attention_view().contents() == Seq::<AttentionItem>::empty(),
            state.wf(),
    {
        ApplicationState {
            sessions: Vec::new(),
            observation_degraded: false,
            attention: AttentionCenter::new(),
        }
    }
}

impl ApplicationState {
    pub closed spec fn sessions_view(self) -> Seq<SessionViewModel> {
        self.sessions@
    }

    pub closed spec fn degraded_view(self) -> bool {
        self.observation_degraded
    }

    pub closed spec fn attention_view(self) -> AttentionCenter {
        self.attention
    }

    /// Sessions are kept in presentation order and the attention items too.
    pub open spec fn wf(self) -> bool {
        &&& sorted_by(self.sessions_view(), before_fn::<SessionViewModel>())
        &&& self.attention_view().wf()
    }

    pub fn sessions(&self) -> (sessions: &[SessionViewModel])
        ensures
            sessions@ == self.sessions_view(),
    {
        self.sessions.as_slice()
    }

    pub fn attention(&self) -> (attention: &AttentionCenter)
        ensures
            *attention == self.attention_view(),
    {
        &self.attention
    }

    /// The position of the first session with the given identifier.
    fn find_session(&self, id: &str) -> (found: Option<usize>)
        ensures
            match found {
                Some(k) => first_match(self.sessions_view(), has_id(id@)) == Some(k as nat),
                None => first_match(self.sessions_view(), has_id(id@)) is None,
            },
            found matches Some(k) ==> k < self.sessions_view().len(),
    {
        let mut index: usize = 0;
        while index < self.sessions.len()
            invariant
                index <= self.sessions@.len(),
                forall|j: int| 0 <= j < index ==> !has_id(id@)(#[trigger] self.sessions@[j]),
            decreases self.sessions.len() - index,
        {
            if str_equal(self.sessions[index].id.as_str(), id) {
                proof {
                    lemma_first_match_at(self.sessions@, has_id(id@), index as int);
                }
                return Some(index);
            }
            index = index + 1;
        }
        proof {
            lemma_first_match_at(self.sessions@, has_id(id@), index as int);
        }
        None
    }

    /// Applies an observed change; reports whether the visible state must be
    /// repainted.
    pub fn apply(&mut self, change: SessionChange) -> (changed: bool)
        requires
            old(self).wf(),
        ensures
            final(self).wf(),
            match change {
                SessionChange::Snapshot(items) => {
                    &&& final(self).sessions_view() == snapshot_sessions(
                        old(self).sessions_view(),
                        items@,
                    )
                    &&& final(self).degraded_view() == old(self).degraded_view()
                    &&& final(self).attention_view() == old(self).attention_view()
                    &&& changed
                },
                SessionChange::Updated(item) => {
                    &&& final(self).sessions_view() == updated_sessions(
                        old(self).sessions_view(),
                        item,
                    )
                    &&& final(self).degraded_view() == old(self).degraded_view()
                    &&& final(self).attention_view() == old(self).attention_view()
                    &&& changed
                },
                SessionChange::Removed(id) => {
                    &&& final(self).sessions_view() == keep_where(
                        old(self).sessions_view(),
                        not_id(id@),
                    )
                    &&& final(self).attention_view().contents() == keep_where(
                        old(self).attention_view().contents(),
                        crate::attention::of_other_session(id@),
                    )
                    &&& final(self).degraded_view() == old(self).degraded_view()
                    &&& changed == (final(self).attention_view().contents().len() != old(
                        self,
                    ).attention_view().contents().len() || final(self).sessions_view().len() != old(
                        self,
                    ).sessions_view().len())
                },
                SessionChange::ObservationDegraded { id } => {
                    &&& final(self).attention_view() == old(self).attention_view()
                    &&& match first_match(old(self).sessions_view(), has_id(id@)) {
                        Some(k) => {
                            &&& final(self).sessions_view() == old(self).sessions_view().update(
                                k as int,
                                degraded(old(self).sessions_view()[k as int]),
                            )
                            &&& final(self).degraded_view()
                            &&& changed
                        },
                        None => {
                            &&& final(self).sessions_view() == old(self).sessions_view()
                            &&& final(self).degraded_view() == old(self).degraded_view()
                            &&& !changed
                        },
                    }
                },
                SessionChange::ObservationTerminated => {
                    &&& final(self).sessions_view() == terminated_sessions(
                        old(self).sessions_view(),
                    )
                    &&& final(self).degraded_view()
                    &&& final(self).attention_view() == old(self).attention_view()
                    &&& changed == (!old(self).degraded_view() || old(self).sessions_view().len()
                        == 0 || exists|i: int|
                        0 <= i < old(self).sessions_view().len() && #[trigger] old(
                            self,
                        ).sessions_view()[i].readiness != Readiness::Unknown)
                },
            },
    {
        proof {
            lemma_session_order();
        }
        match change {
            SessionChange::Snapshot(items) => {
                let ghost previous = self.sessions@;
                let ghost incoming = items@;
                let ghost f = |item: SessionViewModel| reconciled(previous, item);
                let mut rest = items;
                let mut reconciled_items: Vec<SessionViewModel> = Vec::new();
                let ghost mut consumed: int = 0;
                assert(incoming.skip(0) =~= incoming);
                while rest.len() > 0
                    invariant
                        self.sessions@ == previous,
                        0 <= consumed <= incoming.len(),
                        rest@ == incoming.skip(consumed),
                        f == (|item: SessionViewModel| reconciled(previous, item)),
                        reconciled_items@ == incoming.take(consumed).map_values(f),
                    decreases rest.len(),
                {
                    let mut item = rest.remove(0);
                    let ghost incoming_item = item;
                    match self.find_session(item.id.as_str()) {
                        Some(k) => {
                            let flag = carried_attention_of(&self.sessions[k], &item);
                            item.needs_attention = flag;
                        },
                        None => {},
                    }
                    proof {
                        assert(incoming_item == incoming[consumed]);
                        assert(item == reconciled(previous, incoming_item));
                        assert(incoming.take(consumed + 1).map_values(f) =~= incoming.take(
                            consumed,
                        ).map_values(f).push(f(incoming_item)));
                        assert(rest@ =~= incoming.skip(consumed + 1));
                        consumed = consumed + 1;
                    }
                    reconciled_items.push(item);
                }
                proof {
                    assert(incoming.take(consumed) =~= incoming);
                    lemma_sort_by(reconciled_items@, before_fn::<SessionViewModel>());
                }
                self.sessions = stable_sort(reconciled_items);
                true
            },
            SessionChange::Updated(item) => {
                let ghost previous = self.sessions@;
                let mut item = item;
                match self.find_session(item.id.as_str()) {
                    Some(k) => {
                        let flag = carried_attention_of(&self.sessions[k], &item);
                        item.needs_attention = flag;
                        self.sessions.set(k, item);
                    },
                    None => {
                        self.sessions.push(item);
                    },
                }
                let mut current: Vec<SessionViewModel> = Vec::new();
                std::mem::swap(&mut current, &mut self.sessions);
                proof {
                    lemma_sort_by(current@, before_fn::<SessionViewModel>());
                }
                self.sessions = stable_sort(current);
                true
            },
            SessionChange::Removed(id) => {
                let ghost previous = self.sessions@;
                let ghost keep = not_id(id@);
                let mut rest: Vec<SessionViewModel> = Vec::new();
                std::mem::swap(&mut rest, &mut self.sessions);
                let length = rest.len();
                let mut kept: Vec<SessionViewModel> = Vec::new();
                let ghost mut consumed: int = 0;
                assert(previous.skip(0) =~= previous);
                assert(previous.take(0) =~= Seq::<SessionViewModel>::empty());
                while rest.len() > 0
                    invariant
                        0 <= consumed <= previous.len(),
                        rest@ == previous.skip(consumed),
                        keep == not_id(id@),
                        kept@ == keep_where(previous.take(consumed), keep),
                    decreases rest.len(),
                {
                    let item = rest.remove(0);
                    proof {
                        assert(item == previous[consumed]);
                        assert(previous.take(consumed + 1).drop_last() =~= previous.take(consumed));
                        assert(rest@ =~= previous.skip(consumed + 1));
                    }
                    if !str_equal(item.id.as_str(), id.as_str()) {
                        kept.push(item);
                    }
                    proof {
                        consumed = consumed + 1;
                    }
                }
                proof {
                    assert(previous.take(consumed) =~= previous);
                    lemma_keep_where(previous, keep, before_fn::<SessionViewModel>());
                }
                self.sessions = kept;
                let attention_removed = self.attention.remove_session(id.as_str());
                attention_removed || self.sessions.len() != length
            },
            SessionChange::ObservationDegraded { id } => {
                match self.find_session(id.as_str()) {
                    Some(k) => {
                        let ghost previous = self.sessions@;
                        let mut item = self.sessions.remove(k);
                        item.readiness = Readiness::Unknown;
                        item.needs_attention = false;
                        self.sessions.insert(k, item);
                        self.observation_degraded = true;
                        proof {
                            assert(self.sessions@ =~= previous.update(
                                k as int,
                                degraded(previous[k as int]),
                            ));
                            assert forall|i: int, j: int|
                                0 <= i < j < self.sessions@.len() implies !before_fn::<
                                SessionViewModel,
                            >()(#[trigger] self.sessions@[j], #[trigger] self.sessions@[i]) by {
                                assert(before_fn::<SessionViewModel>()(
                                    self.sessions@[j],
                                    self.sessions@[i],
                                ) == before_fn::<SessionViewModel>()(previous[j], previous[i]));
                            }
                        }
                        true
                    },
                    None => false,
                }
            },
            SessionChange::ObservationTerminated => {
                let degraded_changed = !self.observation_degraded;
                self.observation_degraded = true;
                let ghost previous = self.sessions@;
                let mut rest: Vec<SessionViewModel> = Vec::new();
                std::mem::swap(&mut rest, &mut self.sessions);
                let was_empty = rest.len() == 0;
                let mut updated: Vec<SessionViewModel> = Vec::new();
                let mut any_changed = false;
                let ghost mut consumed: int = 0;
                assert(previous.skip(0) =~= previous);
                while rest.len() > 0
                    invariant
                        0 <= consumed <= previous.len(),
                        rest@ == previous.skip(consumed),
                        updated@ == terminated_sessions(previous.take(consumed)),
                        any_changed == exists|i: int|
                            0 <= i < consumed && #[trigger] previous[i].readiness
                                != Readiness::Unknown,
                    decreases rest.len(),
                {
                    let mut item = rest.remove(0);
                    proof {
                        assert(item == previous[consumed]);
                        assert(rest@ =~= previous.skip(consumed + 1));
                    }
                    if item.readiness != Readiness::Unknown {
                        item.readiness = Readiness::Unknown;
                        item.needs_attention = false;
                        any_changed = true;
                    }
                    updated.push(item);
                    proof {
                        assert(terminated_sessions(previous.take(consumed + 1)) =~= terminated_sessions(
                            previous.take(consumed),
                        ).push(updated@.last()));
                        consumed = consumed + 1;
                    }
                }
                proof {
                    assert(previous.take(consumed) =~= previous);
                    assert forall|i: int, j: int|
                        0 <= i < j < updated@.len() implies !before_fn::<SessionViewModel>()(
                        #[trigger] updated@[j],
                        #[trigger] updated@[i],
                    ) by {
                        assert(before_fn::<SessionViewModel>()(updated@[j], updated@[i])
                            == before_fn::<SessionViewModel>()(previous[j], previous[i]));
                    }
                }
                self.sessions = updated;
                degraded_changed || any_changed || was_empty
            },
        }
    }

    /// Clears the attention flag of the first session with this identifier
    /// that needs attention; readiness and everything else stay unchanged.
    pub fn acknowledge(&mut self, id: &str) -> (acknowledged: bool)
        requires
            old(self).wf(),
        ensures
            final(self).wf(),
            final(self).degraded_view() == old(self).degraded_view(),
            final(self).attention_view() == old(self).attention_view(),
            match first_match(old(self).sessions_view(), awaiting_acknowledgement(id@)) {
                Some(k) => {
                    &&& final(self).sessions_view() == old(self).sessions_view().update(
                        k as int,
                        with_attention(old(self).sessions_view()[k as int], false),
                    )
                    &&& acknowledged
                },
                None => {
                    &&& final(self).sessions_view() == old(self).sessions_view()
                    &&& !acknowledged
                },
            },
    {
        let ghost previous = self.sessions@;
        let ghost pred = awaiting_acknowledgement(id@);
        let mut index: usize = 0;
        while index < self.sessions.len()
            invariant
                self.sessions@ == previous,
                previous == old(self).sessions@,
                sorted_by(previous, before_fn::<SessionViewModel>()),
                self.observation_degraded == old(self).observation_degraded,
                self.attention == old(self).attention,
                self.attention.wf(),
                pred == awaiting_acknowledgement(id@),
                index <= previous.len(),
                forall|j: int| 0 <= j < index ==> !pred(#[trigger] previous[j]),
            decreases self.sessions.len() - index,
        {
            if self.sessions[index].needs_attention && str_equal(
                self.sessions[index].id.as_str(),
                id,
            ) {
                proof {
                    lemma_first_match_at(previous, pred, index as int);
                }
                let mut item = self.sessions.remove(index);
                item.needs_attention = false;
                self.sessions.insert(index, item);
                proof {
                    assert(self.sessions@ =~= previous.update(
                        index as int,
                        with_attention(previous[index as int], false),
                    ));
                    assert forall|i: int, j: int|
                        0 <= i < j < self.sessions@.len() implies !before_fn::<SessionViewModel>()(
                        #[trigger] self.sessions@[j],
                        #[trigger] self.sessions@[i],
                    ) by {
                        assert(before_fn::<SessionViewModel>()(self.sessions@[j], self.sessions@[i])
                            == before_fn::<SessionViewModel>()(previous[j], previous[i]));
                    }
                }
                return true;
            }
            index = index + 1;
        }
        proof {
            lemma_first_match_at(previous, pred, index as int);
        }
        false
    }

    /// Returns the presentation subset for the selected project.
    ///
    /// The underlying session collection is never changed by filtering. A
    /// missing filter keeps every session visible; a selected identity keeps
    /// only sessions with the same complete project identity.
    pub fn sessions_for_project(&self, project: Option<&ProjectIdentity>) -> (selected: Vec<
        &SessionViewModel,
    >)
        ensures
            selected@.map_values(|s: &SessionViewModel| *s) == keep_where(
                self.sessions_view(),
                in_project(project_view(project)),
            ),
    {
        let ghost keep = in_project(project_view(project));
        let mut selected: Vec<&SessionViewModel> = Vec::new();
        let mut index: usize = 0;
        while index < self.sessions.len()
            invariant
                index <= self.sessions@.len(),
                keep == in_project(project_view(project)),
                selected@.map_values(|s: &SessionViewModel| *s) == keep_where(
                    self.sessions@.take(index as int),
                    keep,
                ),
            decreases self.sessions.len() - index,
        {
            proof {
                assert(self.sessions@.take(index + 1).drop_last() =~= self.sessions@.take(
                    index as int,
                ));
            }
            let session = &self.sessions[index];
            let selected_here = match project {
                None => true,
                Some(p) => same_opt_identity(session.project_identity.as_ref(), Some(p)),
            };
            if selected_here {
                let ghost before_push = selected@;
                selected.push(session);
                proof {
                    assert(selected@.map_values(|s: &SessionViewModel| *s) =~= before_push.map_values(
                        |s: &SessionViewModel| *s,
                    ).push(*session));
                }
            }
            index = index + 1;
        }
        proof {
            assert(self.sessions@.take(self.sessions@.len() as int) =~= self.sessions@);
        }
        selected
    }

    pub fn replace_attention(&mut self, items: Vec<AttentionItem>) -> (changed: bool)
        requires
            old(self).wf(),
        ensures
            final(self).wf(),
            final(self).sessions_view() == old(self).sessions_view(),
            final(self).degraded_view() == old(self).degraded_view(),
            changed == (crate::attention::item_views(old(self).attention_view().contents())
                != crate::attention::item_views(sort_by(items@, before_fn::<AttentionItem>()))),
            changed ==> final(self).attention_view().contents() == sort_by(
                items@,
                before_fn::<AttentionItem>(),
            ),
            !changed ==> final(self).attention_view().contents()
                == old(self).attention_view().contents(),
    {
        self.attention.replace(items)
    }
}


pub fn carried_attention_of(previous: &SessionViewModel, item: &SessionViewModel) -> (flag: bool)
    ensures
        flag == carried_attention(*previous, *item),
{
    if previous.readiness == Readiness::Working && item.readiness == Readiness::Ready {
        true
    } else if item.readiness != Readiness::Ready {
        false
    } else {
        previous.needs_attention
    }
}


/// Attention is raised only by a completion: a session that did not need
/// attention needs it after an update only when it went from working to
/// ready.
pub proof fn lemma_attention_raised_only_by_completion(
    previous: SessionViewModel,
    item: SessionViewModel,
)
    requires
        !previous.needs_attention,
        carried_attention(previous, item),
    ensures
        previous.readiness == Readiness::Working,
        item.readiness == Readiness::Ready,
{
}

/// An acknowledged ready session stays quiet while it stays ready, and any
/// state other than ready clears attention.
pub proof fn lemma_acknowledged_ready_session_stays_quiet(
    previous: SessionViewModel,
    item: SessionViewModel,
)
    ensures
        previous.readiness == Readiness::Ready && !previous.needs_attention && item.readiness
            == Readiness::Ready ==> !carried_attention(previous, item),
        item.readiness != Readiness::Ready ==> !carried_attention(previous, item),
        previous.readiness == Readiness::Ready && previous.needs_attention && item.readiness
            == Readiness::Ready ==> carried_attention(previous, item),
{
}
} // verus!
