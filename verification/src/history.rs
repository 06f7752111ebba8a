//! Undo and redo: two stacks of snapshots of whatever an edit changes, the
//! undo stack holding at most [`MAX_UNDO_STEPS`] of them.
use vstd::prelude::*;

verus! {

/// How many snapshots the undo stack keeps; the oldest goes first.
pub const MAX_UNDO_STEPS: usize = 100;

/// The snapshots to undo to (the last one first) and to redo to (the last one first).
pub struct HistoryView<T> {
    pub undo: Seq<T>,
    pub redo: Seq<T>,
}

/// Undo and redo stacks of snapshots.
pub struct History<T> {
    undo: Vec<T>,
    redo: Vec<T>,
}

impl<T> View for History<T> {
    type V = HistoryView<T>;

    closed spec fn view(&self) -> HistoryView<T> {
        HistoryView { undo: self.undo@, redo: self.redo@ }
    }
}

/// Saving the snapshot `s` taken before an edit: it goes on top of the undo
/// stack (the oldest snapshot dropped beyond the limit) and the redo stack empties.
pub open spec fn checkpoint_post<T>(h: HistoryView<T>, s: T, r: HistoryView<T>) -> bool {
    let pushed = h.undo.push(s);
    &&& r.redo.len() == 0
    &&& r.undo == if pushed.len() > MAX_UNDO_STEPS {
        pushed.drop_first()
    } else {
        pushed
    }
}

/// Undoing from the state `current`: with a snapshot to go back to, it is
/// returned and `current` goes on top of the redo stack; otherwise nothing changes.
pub open spec fn undo_post<T>(h: HistoryView<T>, current: T, r: HistoryView<T>, out: Option<T>) -> bool {
    if h.undo.len() > 0 {
        &&& out == Some(h.undo.last())
        &&& r.undo == h.undo.drop_last()
        &&& r.redo == h.redo.push(current)
    } else {
        out is None && r == h
    }
}

/// Redoing from the state `current`: the mirror image of undoing.
pub open spec fn redo_post<T>(h: HistoryView<T>, current: T, r: HistoryView<T>, out: Option<T>) -> bool {
    if h.redo.len() > 0 {
        &&& out == Some(h.redo.last())
        &&& r.redo == h.redo.drop_last()
        &&& r.undo == h.undo.push(current)
    } else {
        out is None && r == h
    }
}

impl<T> History<T> {
    /// No snapshots.
    pub fn new() -> (r: Self)
        ensures
            r@.undo.len() == 0,
            r@.redo.len() == 0,
    {
        History { undo: Vec::new(), redo: Vec::new() }
    }

    /// How many snapshots can be undone to.
    pub fn undo_len(&self) -> (n: usize)
        ensures
            n == self@.undo.len(),
    {
        self.undo.len()
    }

    /// How many snapshots can be redone to.
    pub fn redo_len(&self) -> (n: usize)
        ensures
            n == self@.redo.len(),
    {
        self.redo.len()
    }

    /// Saves the snapshot taken before an edit.
    pub fn checkpoint(&mut self, snapshot: T)
        ensures
            checkpoint_post(old(self)@, snapshot, final(self)@),
    {
        self.redo = Vec::new();
        self.undo.push(snapshot);
        if self.undo.len() > MAX_UNDO_STEPS {
            let _ = self.undo.remove(0);
        }
        assert(self@.redo =~= Seq::<T>::empty());
        assert(self@.undo =~= (if old(self)@.undo.push(snapshot).len() > MAX_UNDO_STEPS {
            old(self)@.undo.push(snapshot).drop_first()
        } else {
            old(self)@.undo.push(snapshot)
        }));
    }

    /// Goes back to the last snapshot, if any, remembering `current` to redo to.
    pub fn undo(&mut self, current: T) -> (out: Option<T>)
        ensures
            undo_post(old(self)@, current, final(self)@, out),
    {
        match self.undo.pop() {
            Some(prev) => {
                self.redo.push(current);
                Some(prev)
            },
            None => None,
        }
    }

    /// Goes forward again to the last snapshot undone from, if any,
    /// remembering `current` to undo to.
    pub fn redo(&mut self, current: T) -> (out: Option<T>)
        ensures
            redo_post(old(self)@, current, final(self)@, out),
    {
        match self.redo.pop() {
            Some(next) => {
                self.undo.push(current);
                Some(next)
            },
            None => None,
        }
    }
}

/// Undoing right after saving a snapshot gives that snapshot back, and the
/// state undone from is what redo then gives back.
pub proof fn lemma_undo_after_checkpoint<T>(
    h0: HistoryView<T>,
    s: T,
    h1: HistoryView<T>,
    current: T,
    h2: HistoryView<T>,
    out: Option<T>,
    later: T,
    h3: HistoryView<T>,
    again: Option<T>,
)
    requires
        checkpoint_post(h0, s, h1),
        undo_post(h1, current, h2, out),
        redo_post(h2, later, h3, again),
    ensures
        out == Some(s),
        again == Some(current),
        h3.redo.len() == 0,
{
    let pushed = h0.undo.push(s);
    if pushed.len() > MAX_UNDO_STEPS {
        assert(h1.undo.last() == pushed.drop_first().last());
    }
}

/// Redoing right after undoing gives back the state undone from, and leaves
/// the undo stack as it was before the undo, with the state redone from on top.
pub proof fn lemma_redo_after_undo<T>(
    h0: HistoryView<T>,
    current: T,
    h1: HistoryView<T>,
    out: Option<T>,
    later: T,
    h2: HistoryView<T>,
    again: Option<T>,
)
    requires
        h0.undo.len() > 0,
        undo_post(h0, current, h1, out),
        redo_post(h1, later, h2, again),
    ensures
        again == Some(current),
        h2.redo == h0.redo,
        h2.undo == h0.undo.drop_last().push(later),
{
    assert(h1.redo.drop_last() =~= h0.redo);
}

} // verus!
