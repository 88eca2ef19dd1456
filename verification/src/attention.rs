//! Product-facing items that need human attention.
//!
//! Attention is deliberately independent from recorded session readiness. A
//! session can be `WORKING`, `READY`, or `UNKNOWN` while still having zero or
//! more attention items.

use vstd::prelude::*;

use crate::order::{
    before_fn, keep_where, lemma_keep_where, lemma_lex_irreflexive, lemma_lex_transitive,
    lemma_sort_by, lex_lt, sort_by, sorted_by, stable_sort, strict_order, text_less, Precedes,
};
use crate::text::{copy_opt, opt_chars, opt_text_equal};

verus! {

#[derive(Clone, Copy, Debug, PartialEq, Eq, Structural)]
pub enum AttentionCategory {
    Failure,
    ReviewRequired,
    MergeReady,
    UserActionRequired,
}

impl AttentionCategory {
    pub open spec fn label(self) -> Seq<char> {
        match self {
            AttentionCategory::Failure => "FAILURE"@,
            AttentionCategory::ReviewRequired => "REVIEW_REQUIRED"@,
            AttentionCategory::MergeReady => "MERGE_READY"@,
            AttentionCategory::UserActionRequired => "USER_ACTION_REQUIRED"@,
        }
    }

    /// Position in presentation order: failures first, user actions last.
    pub open spec fn rank(self) -> int {
        match self {
            AttentionCategory::Failure => 0,
            AttentionCategory::ReviewRequired => 1,
            AttentionCategory::MergeReady => 2,
            AttentionCategory::UserActionRequired => 3,
        }
    }

    pub fn as_str(self) -> (label: &'static str)
        ensures
            label@ == self.label(),
    {
        match self {
            AttentionCategory::Failure => "FAILURE",
            AttentionCategory::ReviewRequired => "REVIEW_REQUIRED",
            AttentionCategory::MergeReady => "MERGE_READY",
            AttentionCategory::UserActionRequired => "USER_ACTION_REQUIRED",
        }
    }

    pub fn position(self) -> (rank: u8)
        ensures
            rank == self.rank(),
    {
        match self {
            AttentionCategory::Failure => 0,
            AttentionCategory::ReviewRequired => 1,
            AttentionCategory::MergeReady => 2,
            AttentionCategory::UserActionRequired => 3,
        }
    }
}

#[derive(Debug, PartialEq, Eq)]
pub struct AttentionItem {
    pub id: String,
    pub session_id: String,
    pub category: AttentionCategory,
    pub title: String,
    pub detail: Option<String>,
}

pub type AttentionItemView = (Seq<char>, Seq<char>, AttentionCategory, Seq<char>, Option<Seq<char>>);

impl AttentionItem {
    pub open spec fn view(self) -> AttentionItemView {
        (self.id@, self.session_id@, self.category, self.title@, opt_chars(self.detail))
    }

    pub fn same_as(&self, other: &AttentionItem) -> (same: bool)
        ensures
            same == (self.view() == other.view()),
    {
        self.id == other.id && self.session_id == other.session_id && self.category
            == other.category && self.title == other.title && opt_text_equal(
            &self.detail,
            &other.detail,
        )
    }
}

impl Clone for AttentionItem {
    fn clone(&self) -> (copy: Self)
        ensures
            copy == *self,
    {
        AttentionItem {
            id: self.id.clone(),
            session_id: self.session_id.clone(),
            category: self.category,
            title: self.title.clone(),
            detail: copy_opt(&self.detail),
        }
    }
}

/// Presentation order: by category, then session, then item identity.
pub open spec fn attention_before(a: AttentionItem, b: AttentionItem) -> bool {
    a.category.rank() < b.category.rank() || (a.category.rank() == b.category.rank() && (lex_lt(
        a.session_id@,
        b.session_id@,
    ) || (a.session_id@ == b.session_id@ && lex_lt(a.id@, b.id@))))
}

impl Precedes for AttentionItem {
    open spec fn before(a: Self, b: Self) -> bool {
        attention_before(a, b)
    }

    fn goes_before(&self, other: &Self) -> (before: bool) {
        let (left, right) = (self.category.position(), other.category.position());
        if left != right {
            return left < right;
        }
        if text_less(self.session_id.as_str(), other.session_id.as_str()) {
            return true;
        }
        self.session_id == other.session_id && text_less(self.id.as_str(), other.id.as_str())
    }
}

pub proof fn lemma_attention_order()
    ensures
        strict_order(before_fn::<AttentionItem>()),
{
    assert forall|a: AttentionItem| !#[trigger] before_fn::<AttentionItem>()(a, a) by {
        lemma_lex_irreflexive(a.session_id@);
        lemma_lex_irreflexive(a.id@);
    }
    assert forall|a: AttentionItem, b: AttentionItem, c: AttentionItem|
        #[trigger] before_fn::<AttentionItem>()(a, b) && #[trigger] before_fn::<AttentionItem>()(
            b,
            c,
        ) implies before_fn::<AttentionItem>()(a, c) by {
        if lex_lt(a.session_id@, b.session_id@) && lex_lt(b.session_id@, c.session_id@) {
            lemma_lex_transitive(a.session_id@, b.session_id@, c.session_id@);
        }
        if lex_lt(a.id@, b.id@) && lex_lt(b.id@, c.id@) {
            lemma_lex_transitive(a.id@, b.id@, c.id@);
        }
    }
}


/// Attention items come in the declared category order — failures, then
/// reviews required, then merges ready, then user actions — whatever order
/// they were given in: an item never follows one of a later category.
pub proof fn lemma_categories_in_declared_order(items: Seq<AttentionItem>, i: int, j: int)
    requires
        0 <= i < j < sort_by(items, before_fn::<AttentionItem>()).len(),
    ensures
        ({
            let s = sort_by(items, before_fn::<AttentionItem>());
            let (earlier, later) = (s[i].category, s[j].category);
            &&& later == AttentionCategory::Failure ==> earlier == AttentionCategory::Failure
            &&& later == AttentionCategory::ReviewRequired ==> earlier
                == AttentionCategory::Failure || earlier == AttentionCategory::ReviewRequired
            &&& later == AttentionCategory::MergeReady ==> earlier
                != AttentionCategory::UserActionRequired
        }),
{
    lemma_attention_order();
    lemma_sort_by(items, before_fn::<AttentionItem>());
    let s = sort_by(items, before_fn::<AttentionItem>());
    assert(!before_fn::<AttentionItem>()(s[j], s[i]));
}

/// The position of a category follows its declaration: each category comes
/// strictly before the next.
pub proof fn lemma_position_follows_declaration()
    ensures
        AttentionCategory::Failure.rank() < AttentionCategory::ReviewRequired.rank(),
        AttentionCategory::ReviewRequired.rank() < AttentionCategory::MergeReady.rank(),
        AttentionCategory::MergeReady.rank() < AttentionCategory::UserActionRequired.rank(),
{
}

pub open spec fn item_views(items: Seq<AttentionItem>) -> Seq<AttentionItemView> {
    items.map_values(|item: AttentionItem| item.view())
}

/// Whether two item lists hold the same items in the same order.
pub fn same_items(a: &Vec<AttentionItem>, b: &Vec<AttentionItem>) -> (same: bool)
    ensures
        same == (item_views(a@) == item_views(b@)),
{
    if a.len() != b.len() {
        proof {
            assert(item_views(a@).len() != item_views(b@).len());
        }
        return false;
    }
    let mut index: usize = 0;
    while index < a.len()
        invariant
            a@.len() == b@.len(),
            index <= a@.len(),
            forall|i: int| 0 <= i < index ==> a@[i].view() == #[trigger] b@[i].view(),
        decreases a.len() - index,
    {
        if !a[index].same_as(&b[index]) {
            proof {
                assert(item_views(a@)[index as int] != item_views(b@)[index as int]);
            }
            return false;
        }
        index = index + 1;
    }
    proof {
        assert(item_views(a@) =~= item_views(b@));
    }
    true
}

pub open spec fn of_other_session(session_id: Seq<char>) -> spec_fn(AttentionItem) -> bool {
    |item: AttentionItem| item.session_id@ != session_id
}

/// The observed attention items, kept in presentation order.
#[derive(Debug, PartialEq, Eq)]
pub struct AttentionCenter {
    items: Vec<AttentionItem>,
}

impl Default for AttentionCenter {
    fn default() -> (center: Self)
        ensures
            center.contents() == Seq::<AttentionItem>::empty(),
    {
        AttentionCenter { items: Vec::new() }
    }
}

impl Clone for AttentionCenter {
    fn clone(&self) -> (copy: Self)
        ensures
            copy.contents() == self.contents(),
    {
        let mut items: Vec<AttentionItem> = Vec::new();
        let mut index: usize = 0;
        while index < self.items.len()
            invariant
                index <= self.items@.len(),
                items@ == self.items@.take(index as int),
            decreases self.items.len() - index,
        {
            items.push(self.items[index].clone());
            proof {
                assert(self.items@.take(index + 1) =~= self.items@.take(index as int).push(
                    self.items@[index as int],
                ));
            }
            index = index + 1;
        }
        proof {
            assert(self.items@.take(self.items@.len() as int) =~= self.items@);
        }
        AttentionCenter { items }
    }
}

impl AttentionCenter {
    /// The items, in presentation order.
    pub closed spec fn contents(self) -> Seq<AttentionItem> {
        self.items@
    }

    /// The items are kept in presentation order.
    pub open spec fn wf(self) -> bool {
        sorted_by(self.contents(), before_fn::<AttentionItem>())
    }

    pub fn new() -> (center: Self)
        ensures
            center.contents() == Seq::<AttentionItem>::empty(),
            center.wf(),
    {
        AttentionCenter { items: Vec::new() }
    }

    pub fn items(&self) -> (items: &[AttentionItem])
        ensures
            items@ == self.contents(),
    {
        self.items.as_slice()
    }

    /// Replace the observed set and keep presentation order deterministic.
    /// Reports whether the visible set changed.
    pub fn replace(&mut self, items: Vec<AttentionItem>) -> (changed: bool)
        ensures
            changed == (item_views(old(self).contents()) != item_views(
                sort_by(items@, before_fn::<AttentionItem>()),
            )),
            changed ==> final(self).contents() == sort_by(items@, before_fn::<AttentionItem>()),
            !changed ==> final(self).contents() == old(self).contents(),
            final(self).wf() || !changed && !old(self).wf(),
            item_views(final(self).contents()) == item_views(
                sort_by(items@, before_fn::<AttentionItem>()),
            ),
    {
        proof {
            lemma_attention_order();
            lemma_sort_by(items@, before_fn::<AttentionItem>());
        }
        let sorted = stable_sort(items);
        if same_items(&self.items, &sorted) {
            return false;
        }
        self.items = sorted;
        true
    }

    /// Removes every item of one session; reports whether any was removed.
    pub fn remove_session(&mut self, session_id: &str) -> (removed: bool)
        ensures
            final(self).contents() == keep_where(old(self).contents(), of_other_session(session_id@)),
            removed == (final(self).contents().len() != old(self).contents().len()),
            old(self).wf() ==> final(self).wf(),
    {
        let ghost keep = of_other_session(session_id@);
        let mut kept: Vec<AttentionItem> = Vec::new();
        let mut index: usize = 0;
        while index < self.items.len()
            invariant
                index <= self.items@.len(),
                keep == of_other_session(session_id@),
                kept@ == keep_where(self.items@.take(index as int), keep),
            decreases self.items.len() - index,
        {
            proof {
                assert(self.items@.take(index + 1).drop_last() =~= self.items@.take(index as int));
            }
            if !crate::text::str_equal(self.items[index].session_id.as_str(), session_id) {
                kept.push(self.items[index].clone());
            }
            index = index + 1;
        }
        proof {
            assert(self.items@.take(self.items@.len() as int) =~= self.items@);
            lemma_keep_where(self.items@, keep, before_fn::<AttentionItem>());
        }
        let before = self.items.len();
        self.items = kept;
        before != self.items.len()
    }
}

} // verus!
