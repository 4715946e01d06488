use vstd::prelude::*;

verus! {

/// The undo and redo stacks of a document. A group `G` is one undoable
/// unit of edits; applying it to the document is the caller's work.
pub struct UndoHistory<G> {
    pub undo_stack: Vec<G>,
    pub redo_stack: Vec<G>,
}

/// The two stacks, bottom first.
pub struct HistoryView<G> {
    pub undo: Seq<G>,
    pub redo: Seq<G>,
}

/// The history after committing `g`: it goes on the undo stack, and
/// what could be redone is forgotten.
pub open spec fn committed<G>(h: HistoryView<G>, g: G) -> HistoryView<G> {
    HistoryView { undo: h.undo.push(g), redo: Seq::empty() }
}

/// The history after undoing its last group, whose reverse is `reverse`.
pub open spec fn undone<G>(h: HistoryView<G>, reverse: G) -> HistoryView<G> {
    HistoryView { undo: h.undo.drop_last(), redo: h.redo.push(reverse) }
}

/// The history after redoing its last undone group, whose reverse is
/// `reverse`.
pub open spec fn redone<G>(h: HistoryView<G>, reverse: G) -> HistoryView<G> {
    HistoryView { undo: h.undo.push(reverse), redo: h.redo.drop_last() }
}

/// Commit each group of `groups` in turn.
pub open spec fn commit_all<G>(h: HistoryView<G>, groups: Seq<G>) -> HistoryView<G>
    decreases groups.len(),
{
    if groups.len() == 0 {
        h
    } else {
        committed(commit_all(h, groups.drop_last()), groups.last())
    }
}

/// Undo once for each of `reverses`, taking the reverses in order.
pub open spec fn undo_all<G>(h: HistoryView<G>, reverses: Seq<G>) -> HistoryView<G>
    decreases reverses.len(),
{
    if reverses.len() == 0 {
        h
    } else {
        undone(undo_all(h, reverses.drop_last()), reverses.last())
    }
}

impl<G> UndoHistory<G> {
    pub open spec fn view(&self) -> HistoryView<G> {
        HistoryView { undo: self.undo_stack@, redo: self.redo_stack@ }
    }

    pub fn new() -> (r: UndoHistory<G>)
        ensures
            r.view().undo.len() == 0,
            r.view().redo.len() == 0,
    {
        UndoHistory { undo_stack: Vec::new(), redo_stack: Vec::new() }
    }

    /// Record a group of edits that succeeded. Nothing is left to redo.
    pub fn commit(&mut self, group: G)
        ensures
            final(self).view() == committed(old(self).view(), group),
    {
        self.undo_stack.push(group);
        self.redo_stack = Vec::new();
        proof {
            assert(self.view().redo =~= Seq::<G>::empty());
        }
    }

    /// Take the last group to undo, if any, for the caller to reverse;
    /// the caller hands its reverse to `finish_undo`. With nothing to
    /// undo the history stays as it is.
    pub fn take_undo(&mut self) -> (r: Option<G>)
        ensures
            old(self).view().undo.len() == 0 ==> r is None && final(self).view() == old(
                self,
            ).view(),
            old(self).view().undo.len() > 0 ==> r == Some(old(self).view().undo.last())
                && final(self).view().undo == old(self).view().undo.drop_last()
                && final(self).view().redo == old(self).view().redo,
    {
        self.undo_stack.pop()
    }

    /// Record the reverse of the group that was just undone.
    pub fn finish_undo(&mut self, reverse: G)
        ensures
            final(self).view().redo == old(self).view().redo.push(reverse),
            final(self).view().undo == old(self).view().undo,
    {
        self.redo_stack.push(reverse);
    }

    /// Take the last undone group, if any, for the caller to apply again;
    /// the caller hands its reverse to `finish_redo`. With nothing to
    /// redo the history stays as it is.
    pub fn take_redo(&mut self) -> (r: Option<G>)
        ensures
            old(self).view().redo.len() == 0 ==> r is None && final(self).view() == old(
                self,
            ).view(),
            old(self).view().redo.len() > 0 ==> r == Some(old(self).view().redo.last())
                && final(self).view().redo == old(self).view().redo.drop_last()
                && final(self).view().undo == old(self).view().undo,
    {
        self.redo_stack.pop()
    }

    /// Record the reverse of the group that was just redone.
    pub fn finish_redo(&mut self, reverse: G)
        ensures
            final(self).view().undo == old(self).view().undo.push(reverse),
            final(self).view().redo == old(self).view().redo,
    {
        self.undo_stack.push(reverse);
    }
}

/// Committing any groups and then undoing as many times brings the undo
/// stack back to where it was, and leaves exactly the reverses, in the
/// order they were recorded, to redo.
pub proof fn lemma_undo_round_trip<G>(h: HistoryView<G>, groups: Seq<G>, reverses: Seq<G>)
    requires
        groups.len() > 0,
        reverses.len() == groups.len(),
    ensures
        undo_all(commit_all(h, groups), reverses).undo == h.undo,
        undo_all(commit_all(h, groups), reverses).redo == reverses,
{
    lemma_commit_all_undo(h, groups);
    lemma_undo_all(commit_all(h, groups), reverses);
    let c = commit_all(h, groups);
    assert(c.undo.subrange(0, c.undo.len() - reverses.len()) =~= h.undo);
    assert(c.redo + reverses =~= reverses);
}

proof fn lemma_commit_all_undo<G>(h: HistoryView<G>, groups: Seq<G>)
    ensures
        commit_all(h, groups).undo == h.undo + groups,
        groups.len() > 0 ==> commit_all(h, groups).redo.len() == 0,
    decreases groups.len(),
{
    if groups.len() > 0 {
        lemma_commit_all_undo(h, groups.drop_last());
        assert(h.undo + groups =~= (h.undo + groups.drop_last()).push(groups.last()));
    } else {
        assert(h.undo + groups =~= h.undo);
    }
}

proof fn lemma_undo_all<G>(h: HistoryView<G>, reverses: Seq<G>)
    requires
        reverses.len() <= h.undo.len(),
    ensures
        undo_all(h, reverses).undo == h.undo.subrange(0, h.undo.len() - reverses.len()),
        undo_all(h, reverses).redo == h.redo + reverses,
    decreases reverses.len(),
{
    if reverses.len() > 0 {
        lemma_undo_all(h, reverses.drop_last());
        assert(h.redo + reverses =~= (h.redo + reverses.drop_last()).push(reverses.last()));
        let prev = h.undo.subrange(0, h.undo.len() - reverses.drop_last().len());
        assert(prev.drop_last() =~= h.undo.subrange(0, h.undo.len() - reverses.len()));
    } else {
        assert(h.redo + reverses =~= h.redo);
        assert(h.undo.subrange(0, h.undo.len() as int) =~= h.undo);
    }
}

} // verus!
