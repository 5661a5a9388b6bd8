//! Bounded undo/redo history of text snapshots.
use vstd::prelude::*;

use crate::rich_text_input::types::HistoryEntry;

verus! {

/// Undo/redo history.  `entries[..current_index]` can be undone (the last
/// one first) and `entries[current_index..]` redone.  At most
/// `max_entries` snapshots are kept; pushing beyond that drops the oldest.
#[derive(Debug)]
pub struct HistoryManager {
    entries: Vec<HistoryEntry>,
    current_index: usize,
    max_entries: usize,
}

/// Abstract state of a history: the snapshots (oldest first), how many of
/// them can be undone, and how many are kept at most.
pub struct HistoryView {
    pub entries: Seq<HistoryEntry>,
    pub position: int,
    pub capacity: int,
}

/// A well-formed history state.
pub open spec fn history_wf(v: HistoryView) -> bool {
    &&& 0 <= v.position <= v.entries.len() <= v.capacity
    &&& v.capacity >= 1
}

/// The state after recording `e`: the redoable part is discarded, `e` is
/// appended, the oldest snapshot is dropped when the capacity is exceeded,
/// and everything is undoable.
pub open spec fn history_push(v: HistoryView, e: HistoryEntry) -> HistoryView {
    let kept = v.entries.subrange(0, v.position).push(e);
    let entries = if kept.len() > v.capacity {
        kept.drop_first()
    } else {
        kept
    };
    HistoryView { entries, position: entries.len() as int, capacity: v.capacity }
}

/// The state after an undo, and the snapshot it returns.
pub open spec fn history_undo(v: HistoryView) -> (HistoryView, Option<HistoryEntry>) {
    if v.position > 0 {
        (
            HistoryView { entries: v.entries, position: v.position - 1, capacity: v.capacity },
            Some(v.entries[v.position - 1]),
        )
    } else {
        (v, None)
    }
}

/// The state after a redo, and the snapshot it returns.
pub open spec fn history_redo(v: HistoryView) -> (HistoryView, Option<HistoryEntry>) {
    if v.position < v.entries.len() {
        (
            HistoryView { entries: v.entries, position: v.position + 1, capacity: v.capacity },
            Some(v.entries[v.position]),
        )
    } else {
        (v, None)
    }
}

/// A returned reference, taken by value.
pub open spec fn deref_opt(r: Option<&HistoryEntry>) -> Option<HistoryEntry> {
    match r {
        Some(e) => Some(*e),
        None => None,
    }
}

impl View for HistoryManager {
    type V = HistoryView;

    closed spec fn view(&self) -> HistoryView {
        HistoryView {
            entries: self.entries@,
            position: self.current_index as int,
            capacity: self.max_entries as int,
        }
    }
}

impl HistoryManager {
    /// Well-formedness of the stored state.
    pub open spec fn wf(&self) -> bool {
        history_wf(self@)
    }

    /// Records `entry` as the newest snapshot (see `history_push`).
    pub fn push(&mut self, entry: HistoryEntry)
        requires
            old(self).wf(),
        ensures
            final(self).wf(),
            final(self)@ == history_push(old(self)@, entry),
    {
        if self.current_index < self.entries.len() {
            self.entries.truncate(self.current_index);
        }
        self.entries.push(entry);
        if self.entries.len() > self.max_entries {
            self.entries.remove(0);
        } else {
            self.current_index = self.current_index + 1;
        }
        assert(self@.entries =~= history_push(old(self)@, entry).entries);
    }

    /// Steps back one snapshot and returns it (see `history_undo`).
    pub fn undo(&mut self) -> (r: Option<&HistoryEntry>)
        requires
            old(self).wf(),
        ensures
            final(self).wf(),
            (final(self)@, deref_opt(r)) == history_undo(old(self)@),
    {
        if self.current_index > 0 {
            self.current_index = self.current_index - 1;
            self.entries.get(self.current_index)
        } else {
            None
        }
    }

    /// Steps forward one snapshot and returns it (see `history_redo`).
    pub fn redo(&mut self) -> (r: Option<&HistoryEntry>)
        requires
            old(self).wf(),
        ensures
            final(self).wf(),
            (final(self)@, deref_opt(r)) == history_redo(old(self)@),
    {
        if self.current_index < self.entries.len() {
            let i = self.current_index;
            self.current_index = self.current_index + 1;
            self.entries.get(i)
        } else {
            None
        }
    }

    /// Something can be undone.
    pub fn can_undo(&self) -> (b: bool)
        ensures
            b == (self@.position > 0),
    {
        self.current_index > 0
    }

    /// Something can be redone.
    pub fn can_redo(&self) -> (b: bool)
        ensures
            b == (self@.position < self@.entries.len()),
    {
        self.current_index < self.entries.len()
    }
}

impl Default for HistoryManager {
    fn default() -> (r: Self)
        ensures
            r.wf(),
            r@.entries.len() == 0,
            r@.position == 0,
            r@.capacity == 50,
    {
        HistoryManager { entries: Vec::new(), current_index: 0, max_entries: 50 }
    }
}

/// Every operation keeps a history well formed.
pub proof fn law_history_ops_keep_wf(v: HistoryView, e: HistoryEntry)
    requires
        history_wf(v),
    ensures
        history_wf(history_push(v, e)),
        history_wf(history_undo(v).0),
        history_wf(history_redo(v).0),
{
}

/// Undo right after recording a snapshot gives that snapshot back.
pub proof fn law_undo_after_push(v: HistoryView, e: HistoryEntry)
    requires
        history_wf(v),
    ensures
        history_undo(history_push(v, e)).1 == Some(e),
{
}

/// Nothing can be redone right after recording a snapshot.
pub proof fn law_no_redo_after_push(v: HistoryView, e: HistoryEntry)
    requires
        history_wf(v),
    ensures
        history_redo(history_push(v, e)).1 is None,
        history_redo(history_push(v, e)).0 == history_push(v, e),
{
}

/// A redo undoes an undo: it restores the state and returns the snapshot
/// the undo returned.
pub proof fn law_redo_undoes_undo(v: HistoryView)
    requires
        history_wf(v),
        v.position > 0,
    ensures
        history_redo(history_undo(v).0) == (v, history_undo(v).1),
{
}

/// An undo undoes a redo.
pub proof fn law_undo_undoes_redo(v: HistoryView)
    requires
        history_wf(v),
        v.position < v.entries.len(),
    ensures
        history_undo(history_redo(v).0) == (v, history_redo(v).1),
{
}

/// At most `capacity` snapshots are kept, and below the capacity nothing
/// is lost: the undoable part grows by exactly the new snapshot.
pub proof fn law_push_bounded(v: HistoryView, e: HistoryEntry)
    requires
        history_wf(v),
    ensures
        history_push(v, e).entries.len() <= v.capacity,
        v.position < v.capacity ==> history_push(v, e).entries == v.entries.subrange(
            0,
            v.position,
        ).push(e),
{
}

} // verus!
