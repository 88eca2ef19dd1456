//! Deterministic, in-memory queue state for future agent workflows.
//!
//! This module deliberately knows nothing about readiness, dependency
//! resolution, priorities, scheduling, or agent execution. Dependency IDs
//! are retained only as opaque references for a later domain layer.

use vstd::prelude::*;

use crate::decimal::{decimal, decimal_text};
use crate::text::{copy_strings, str_equal};

verus! {

#[derive(Clone, Copy, Debug, PartialEq, Eq, Structural)]
pub enum QueueItemState {
    Queued,
    Active,
    Completed,
    Blocked,
}

#[derive(Debug, PartialEq, Eq)]
pub struct QueueItem {
    pub id: String,
    pub label: String,
    pub state: QueueItemState,
    pub dependency_ids: Vec<String>,
}

impl QueueItem {
    /// A queued item without dependencies.
    pub fn new(id: &str, label: &str) -> (item: Self)
        ensures
            item.id@ == id@,
            item.label@ == label@,
            item.state == QueueItemState::Queued,
            item.dependency_ids@.len() == 0,
    {
        QueueItem {
            id: id.to_owned(),
            label: label.to_owned(),
            state: QueueItemState::Queued,
            dependency_ids: Vec::new(),
        }
    }
}

impl Clone for QueueItem {
    fn clone(&self) -> (copy: Self)
        ensures
            copy.id == self.id,
            copy.label == self.label,
            copy.state == self.state,
            copy.dependency_ids@ == self.dependency_ids@,
    {
        QueueItem {
            id: self.id.clone(),
            label: self.label.clone(),
            state: self.state,
            dependency_ids: copy_strings(&self.dependency_ids),
        }
    }
}

#[derive(Debug, PartialEq, Eq)]
pub enum QueueError {
    DuplicateId(String),
    NotFound(String),
    PositionOutOfBounds { position: usize, len: usize },
    IdMismatch { expected: String, actual: String },
}

impl QueueError {
    /// The human-readable description of the error.
    pub open spec fn text(self) -> Seq<char> {
        match self {
            QueueError::DuplicateId(id) => "queue item ID already exists: "@ + id@,
            QueueError::NotFound(id) => "queue item ID was not found: "@ + id@,
            QueueError::PositionOutOfBounds { position, len } => "queue position "@ + decimal_text(
                position as nat,
            ) + " is out of bounds for "@ + decimal_text(len as nat) + " items"@,
            QueueError::IdMismatch { expected, actual } => "queue update ID "@ + actual@
                + " does not match "@ + expected@,
        }
    }

    pub fn message(&self) -> (text: String)
        ensures
            text@ == self.text(),
    {
        let mut text = String::new();
        match self {
            QueueError::DuplicateId(id) => {
                text.append("queue item ID already exists: ");
                text.append(id.as_str());
            },
            QueueError::NotFound(id) => {
                text.append("queue item ID was not found: ");
                text.append(id.as_str());
            },
            QueueError::PositionOutOfBounds { position, len } => {
                text.append("queue position ");
                let p = decimal(*position as u64);
                text.append(p.as_str());
                text.append(" is out of bounds for ");
                let n = decimal(*len as u64);
                text.append(n.as_str());
                text.append(" items");
            },
            QueueError::IdMismatch { expected, actual } => {
                text.append("queue update ID ");
                text.append(actual.as_str());
                text.append(" does not match ");
                text.append(expected.as_str());
            },
        }
        text
    }
}

/// The identifiers of a sequence of items.
pub open spec fn item_ids(items: Seq<QueueItem>) -> Seq<Seq<char>> {
    items.map_values(|item: QueueItem| item.id@)
}

/// The position of the item with identifier `id`.
pub open spec fn index_of_id(items: Seq<QueueItem>, id: Seq<char>) -> Option<int> {
    if item_ids(items).contains(id) {
        Some(item_ids(items).index_of(id))
    } else {
        None
    }
}

/// An ordered queue of items with distinct identifiers.
#[derive(Debug, PartialEq, Eq)]
pub struct Queue {
    items: Vec<QueueItem>,
}

impl Default for Queue {
    fn default() -> (queue: Self)
        ensures
            queue.contents().len() == 0,
            queue.wf(),
    {
        Queue { items: Vec::new() }
    }
}

impl Queue {
    /// The items in queue order.
    pub closed spec fn contents(self) -> Seq<QueueItem> {
        self.items@
    }

    /// No two items share an identifier.
    pub open spec fn wf(self) -> bool {
        item_ids(self.contents()).no_duplicates()
    }

    pub fn new() -> (queue: Self)
        ensures
            queue.contents().len() == 0,
            queue.wf(),
    {
        Queue { items: Vec::new() }
    }

    pub fn items(&self) -> (items: &[QueueItem])
        ensures
            items@ == self.contents(),
    {
        self.items.as_slice()
    }

    /// The position of the item with identifier `id`.
    fn position(&self, id: &str) -> (found: Option<usize>)
        requires
            self.wf(),
        ensures
            match found {
                Some(k) => index_of_id(self.contents(), id@) == Some(k as int) && k
                    < self.contents().len() && self.contents()[k as int].id@ == id@,
                None => index_of_id(self.contents(), id@) is None,
            },
    {
        let ghost ids = item_ids(self.items@);
        let mut index: usize = 0;
        while index < self.items.len()
            invariant
                index <= self.items@.len(),
                ids == item_ids(self.items@),
                self.wf(),
                forall|j: int| 0 <= j < index ==> ids[j] != id@,
            decreases self.items.len() - index,
        {
            if str_equal(self.items[index].id.as_str(), id) {
                proof {
                    assert(ids[index as int] == id@);
                    assert(ids.contains(id@));
                    let i = ids.index_of(id@);
                    assert(0 <= i < ids.len() && ids[i] == id@);
                    if i != index as int {
                        assert(ids[i] != ids[index as int]);
                    }
                    assert(i == index as int);
                }
                return Some(index);
            }
            index = index + 1;
        }
        proof {
            assert(!ids.contains(id@)) by {
                if ids.contains(id@) {
                    let j = choose|j: int| 0 <= j < ids.len() && ids[j] == id@;
                    assert(ids[j] != id@);
                }
            }
        }
        None
    }

    /// Appends an item whose identifier is new; a duplicate is refused and
    /// the queue is left as it was.
    pub fn enqueue(&mut self, item: QueueItem) -> (result: Result<(), QueueError>)
        requires
            old(self).wf(),
        ensures
            final(self).wf(),
            item_ids(old(self).contents()).contains(item.id@) ==> result == Err::<(), QueueError>(
                QueueError::DuplicateId(item.id),
            ) && final(self).contents() == old(self).contents(),
            !item_ids(old(self).contents()).contains(item.id@) ==> result is Ok
                && final(self).contents() == old(self).contents().push(item),
    {
        match self.position(item.id.as_str()) {
            Some(_) => Err(QueueError::DuplicateId(item.id)),
            None => {
                let ghost before = self.items@;
                self.items.push(item);
                proof {
                    assert(item_ids(self.items@) =~= item_ids(before).push(item.id@));
                    assert forall|i: int, j: int|
                        0 <= i < j < item_ids(self.items@).len() implies item_ids(
                        self.items@,
                    )[i] != item_ids(self.items@)[j] by {
                        if j == before.len() {
                            assert(item_ids(before)[i] == item_ids(self.items@)[i]);
                        }
                    }
                }
                Ok(())
            },
        }
    }

    /// The item with identifier `id`.
    pub fn get(&self, id: &str) -> (found: Option<&QueueItem>)
        requires
            self.wf(),
        ensures
            match index_of_id(self.contents(), id@) {
                Some(k) => found == Some(&self.contents()[k]),
                None => found is None,
            },
    {
        match self.position(id) {
            Some(k) => Some(&self.items[k]),
            None => None,
        }
    }

    /// Removes and returns the item with identifier `id`, closing the gap.
    pub fn remove(&mut self, id: &str) -> (removed: Option<QueueItem>)
        requires
            old(self).wf(),
        ensures
            final(self).wf(),
            match index_of_id(old(self).contents(), id@) {
                Some(k) => removed == Some(old(self).contents()[k]) && final(self).contents()
                    == old(self).contents().remove(k),
                None => removed is None && final(self).contents() == old(self).contents(),
            },
    {
        match self.position(id) {
            Some(k) => {
                let ghost before = self.items@;
                let item = self.items.remove(k);
                proof {
                    assert(item_ids(self.items@) =~= item_ids(before).remove(k as int));
                    lemma_remove_distinct(item_ids(before), k as int);
                }
                Some(item)
            },
            None => None,
        }
    }

    /// Moves the item with identifier `id` to `position`, keeping the order
    /// of the others.
    pub fn reorder(&mut self, id: &str, position: usize) -> (result: Result<(), QueueError>)
        requires
            old(self).wf(),
        ensures
            final(self).wf(),
            position >= old(self).contents().len() ==> result == Err::<(), QueueError>(
                QueueError::PositionOutOfBounds { position, len: old(self).contents().len() as usize },
            ) && final(self).contents() == old(self).contents(),
            position < old(self).contents().len() ==> match index_of_id(old(self).contents(), id@) {
                Some(k) => result is Ok && final(self).contents() == old(self).contents().remove(
                    k,
                ).insert(position as int, old(self).contents()[k]),
                None => result matches Err(QueueError::NotFound(missing)) && missing@ == id@
                    && final(self).contents() == old(self).contents(),
            },
    {
        if position >= self.items.len() {
            return Err(QueueError::PositionOutOfBounds { position, len: self.items.len() });
        }
        match self.position(id) {
            Some(current) => {
                let ghost before = self.items@;
                let item = self.items.remove(current);
                self.items.insert(position, item);
                proof {
                    let removed = before.remove(current as int);
                    assert(item_ids(self.items@) =~= item_ids(removed).insert(
                        position as int,
                        before[current as int].id@,
                    ));
                    assert(item_ids(removed) =~= item_ids(before).remove(current as int));
                    lemma_remove_distinct(item_ids(before), current as int);
                    lemma_insert_distinct(item_ids(removed), position as int, before[current as int].id@);
                }
                Ok(())
            },
            None => Err(QueueError::NotFound(id.to_owned())),
        }
    }

    /// Replaces the data of the item with identifier `id`; the replacement
    /// must carry the same identifier.
    pub fn update(&mut self, id: &str, item: QueueItem) -> (result: Result<(), QueueError>)
        requires
            old(self).wf(),
        ensures
            final(self).wf(),
            item.id@ != id@ ==> (result matches Err(QueueError::IdMismatch { expected, actual })
                && expected@ == id@ && actual == item.id && final(self).contents() == old(
                self,
            ).contents()),
            item.id@ == id@ ==> match index_of_id(old(self).contents(), id@) {
                Some(k) => result is Ok && final(self).contents() == old(self).contents().update(
                    k,
                    item,
                ),
                None => result matches Err(QueueError::NotFound(missing)) && missing@ == id@
                    && final(self).contents() == old(self).contents(),
            },
    {
        if !str_equal(item.id.as_str(), id) {
            return Err(QueueError::IdMismatch { expected: id.to_owned(), actual: item.id });
        }
        match self.position(id) {
            Some(k) => {
                let ghost before = self.items@;
                self.items.set(k, item);
                proof {
                    assert(item_ids(self.items@) =~= item_ids(before));
                }
                Ok(())
            },
            None => Err(QueueError::NotFound(id.to_owned())),
        }
    }

    /// Sets the state of the item with identifier `id`.
    pub fn update_state(&mut self, id: &str, state: QueueItemState) -> (result: Result<
        (),
        QueueError,
    >)
        requires
            old(self).wf(),
        ensures
            final(self).wf(),
            match index_of_id(old(self).contents(), id@) {
                Some(k) => result is Ok && final(self).contents() == old(self).contents().update(
                    k,
                    QueueItem { state, ..old(self).contents()[k] },
                ),
                None => result matches Err(QueueError::NotFound(missing)) && missing@ == id@
                    && final(self).contents() == old(self).contents(),
            },
    {
        match self.position(id) {
            Some(k) => {
                let ghost before = self.items@;
                let mut item = self.items.remove(k);
                item.state = state;
                self.items.insert(k, item);
                proof {
                    assert(self.items@ =~= before.update(k as int, item));
                    assert(item_ids(self.items@) =~= item_ids(before));
                }
                Ok(())
            },
            None => Err(QueueError::NotFound(id.to_owned())),
        }
    }
}

/// An item appended under a new identifier is found again by that identifier,
/// at the back of the queue, and every item that was there is still found
/// where it was.
pub proof fn lemma_enqueued_item_is_found(items: Seq<QueueItem>, item: QueueItem, id: Seq<char>)
    requires
        item_ids(items).no_duplicates(),
        !item_ids(items).contains(item.id@),
    ensures
        index_of_id(items.push(item), item.id@) == Some(items.len() as int),
        items.push(item)[items.len() as int] == item,
        id != item.id@ ==> index_of_id(items.push(item), id) == index_of_id(items, id),
{
    let before = item_ids(items);
    let after = item_ids(items.push(item));
    assert(after =~= before.push(item.id@));
    assert(after[items.len() as int] == item.id@);
    assert(after.contains(item.id@));
    let k = after.index_of(item.id@);
    if k != items.len() as int {
        assert(before[k] == item.id@);
        assert(before.contains(item.id@));
    }
    if id != item.id@ {
        if before.contains(id) {
            let i = before.index_of(id);
            assert(after[i] == id);
            assert(after.contains(id));
            let j = after.index_of(id);
            assert(j != items.len() as int);
            assert(before[j] == id);
            if j < i {
                assert(before.index_of(id) <= j);
            }
            if i < j {
                assert(after.index_of(id) <= i);
            }
        } else if after.contains(id) {
            let j = after.index_of(id);
            assert(j != items.len() as int);
            assert(before[j] == id);
        }
    }
}

/// Once an item is removed, its identifier is found no more.
pub proof fn lemma_removed_item_is_gone(items: Seq<QueueItem>, id: Seq<char>)
    requires
        item_ids(items).no_duplicates(),
        index_of_id(items, id) is Some,
    ensures
        index_of_id(items.remove(index_of_id(items, id)->0), id) is None,
{
    let k = index_of_id(items, id)->0;
    assert(item_ids(items.remove(k)) =~= item_ids(items).remove(k));
    lemma_remove_distinct(item_ids(items), k);
}

/// Removing an element of a duplicate-free sequence keeps it duplicate-free
/// and leaves no other copy of the removed element.
proof fn lemma_remove_distinct<T>(s: Seq<T>, k: int)
    requires
        s.no_duplicates(),
        0 <= k < s.len(),
    ensures
        s.remove(k).no_duplicates(),
        !s.remove(k).contains(s[k]),
{
    let r = s.remove(k);
    assert forall|i: int, j: int| 0 <= i < j < r.len() implies r[i] != r[j] by {
        let si = if i < k { i } else { i + 1 };
        let sj = if j < k { j } else { j + 1 };
        assert(r[i] == s[si] && r[j] == s[sj]);
    }
    if r.contains(s[k]) {
        let i = choose|i: int| 0 <= i < r.len() && r[i] == s[k];
        let si = if i < k { i } else { i + 1 };
        assert(r[i] == s[si]);
    }
}

/// Inserting a new element into a duplicate-free sequence keeps it
/// duplicate-free.
proof fn lemma_insert_distinct<T>(s: Seq<T>, p: int, x: T)
    requires
        s.no_duplicates(),
        !s.contains(x),
        0 <= p <= s.len(),
    ensures
        s.insert(p, x).no_duplicates(),
{
    let r = s.insert(p, x);
    assert forall|i: int, j: int| 0 <= i < j < r.len() implies r[i] != r[j] by {
        if i != p && j != p {
            let si = if i < p { i } else { i - 1 };
            let sj = if j < p { j } else { j - 1 };
            assert(r[i] == s[si] && r[j] == s[sj]);
        } else if i == p {
            assert(r[j] == s[j - 1]);
        } else {
            let si = if i < p { i } else { i - 1 };
            assert(r[i] == s[si]);
        }
    }
}

} // verus!
