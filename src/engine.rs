use vstd::prelude::*;

use crate::forest::{kids, Forest, Node};
use generational_arena::Index;
use crate::history::UndoHistory;
use crate::location::{
    leaf_text, spec_after_children, spec_after_parent, spec_before_children, spec_enter_text,
    spec_first, spec_inorder_next, spec_inorder_prev, spec_last, spec_next, spec_prev,
    bookmark_ok, can_insert, spec_parent_node, delete_done, insert_done, prev_sibling, is_normal, is_text, lemma_normal_is_fixed_point, parent_of, spec_left_node, spec_right_node,
    text_len, Bookmark, Location, LocationInner,
};
use crate::text::{text_insert, text_remove};
use vstd::string::StrSliceExecFns;

verus! {

/// One reversible change to the tree. Applying it yields the change that
/// undoes it.
#[derive(Clone, Copy, Debug)]
pub enum Op {
    /// Insert the node at the bookmarked place.
    InsertAt(Bookmark, Node),
    /// Delete the node, which must be live and have a parent.
    Delete(Node),
    /// Insert the char into the leaf's text before the char at the index.
    TextInsert(Node, usize, char),
    /// Delete the char at the index from the leaf's text.
    TextDelete(Node, usize),
    /// Push the node onto the clipboard.
    ClipPush(Node),
    /// Pop the clipboard.
    ClipPop,
}

/// Clipboard commands. The clipboard is a stack of detached trees.
#[derive(Clone, Copy, Debug, PartialEq, Eq, Structural)]
pub enum ClipboardCommand {
    /// Push a copy of the node left of the cursor.
    Copy,
    /// Copy, then delete the node left of the cursor.
    Cut,
    /// Insert a copy of the top of the clipboard at the cursor.
    Paste,
    /// Trade the node right of the cursor for the top of the clipboard.
    PasteSwap,
    /// Push a copy of the top of the clipboard.
    Dup,
    /// Drop the top of the clipboard.
    Pop,
}

/// Text editing commands, at a cursor inside text.
#[derive(Clone, Copy, Debug)]
pub enum TextEdCommand {
    Insert(char),
    Backspace,
    Delete,
}

/// Text navigation commands, at a cursor inside text.
#[derive(Clone, Copy, Debug, PartialEq, Eq, Structural)]
pub enum TextNavCommand {
    Left,
    Right,
    Beginning,
    End,
}

/// Tree navigation commands.
#[derive(Clone, Copy, Debug, PartialEq, Eq, Structural)]
pub enum TreeNavCommand {
    Prev,
    Next,
    First,
    Last,
    BeforeFirstChild,
    LastChild,
    Parent,
    PrevLeaf,
    NextLeaf,
    EnterText,
}

/// Tree editing commands.
#[derive(Clone, Copy, Debug)]
pub enum TreeEdCommand {
    /// Insert a node at the cursor (in a fixed slot: swap it in).
    Insert(Node),
    /// Delete the node left of the cursor.
    Backspace,
    /// Delete the node right of the cursor.
    Delete,
}

/// Why a command did nothing.
#[derive(Clone, Copy, Debug, PartialEq, Eq, Structural)]
pub enum EditError {
    NoSuchPosition,
    CannotInsert,
    NothingToDelete,
    NothingToUndo,
    NothingToRedo,
    NothingToCopy,
    ClipboardEmpty,
}

/// Where a navigation command leads from `l`; `None` where there is no such
/// place.
pub open spec fn spec_nav(f: Forest, l: LocationInner, cmd: TreeNavCommand) -> Option<LocationInner> {
    match cmd {
        TreeNavCommand::Prev => spec_prev(f, l),
        TreeNavCommand::Next => spec_next(f, l),
        TreeNavCommand::First => spec_first(f, l),
        TreeNavCommand::Last => spec_last(f, l),
        TreeNavCommand::BeforeFirstChild => match spec_right_node(f, l) {
            Some(n) => spec_before_children(f, n),
            None => None,
        },
        TreeNavCommand::LastChild => match spec_left_node(l) {
            Some(n) => spec_after_children(f, n),
            None => None,
        },
        TreeNavCommand::Parent => spec_after_parent(f, l),
        TreeNavCommand::PrevLeaf => spec_inorder_prev(f, l),
        TreeNavCommand::NextLeaf => spec_inorder_next(f, l),
        TreeNavCommand::EnterText => spec_enter_text(f, l),
    }
}

/// Only the text of leaf `n` differs between `f0` and `f1`, and it is `t`.
pub open spec fn text_changed(f0: Forest, f1: Forest, n: Index, t: Seq<char>) -> bool {
    &&& f1.nodes().dom() == f0.nodes().dom()
    &&& f1.nodes()[n].children is Leaf
    &&& leaf_text(f1, n) == t
    &&& f1.nodes()[n].parent == f0.nodes()[n].parent
    &&& forall|x: Index| x != n ==> #[trigger] f1.nodes()[x] == f0.nodes()[x]
}

/// A document being edited: the forest that holds it, the cursor, the
/// changes made since the last group ended, and the undo history.
pub struct Engine {
    pub forest: Forest,
    pub loc: Location,
    pub group: Vec<Op>,
    pub history: UndoHistory<Vec<Op>>,
    /// Saved places, by name; a later save under a name replaces it.
    pub bookmarks: Vec<(char, Bookmark)>,
    /// Detached trees, the last on top.
    pub clipboard: Vec<Node>,
}

/// The bookmark last saved under `name`, if any.
pub open spec fn lookup_mark(marks: Seq<(char, Bookmark)>, name: char) -> Option<Bookmark>
    decreases marks.len(),
{
    if marks.len() == 0 {
        None
    } else if marks.last().0 == name {
        Some(marks.last().1)
    } else {
        lookup_mark(marks.drop_last(), name)
    }
}

impl Engine {
    /// The forest is well formed and the cursor names a live place in
    /// normal form.
    pub open spec fn wf(&self) -> bool {
        &&& self.forest.wf()
        &&& is_normal(self.forest, self.loc.0)
    }

    /// An engine editing `forest` with the cursor at `loc`, with no
    /// history.
    pub fn new(forest: Forest, loc: Location) -> (r: Engine)
        requires
            forest.wf(),
            is_normal(forest, loc.0),
        ensures
            r.wf(),
            r.forest == forest,
            r.loc == loc,
            r.group@.len() == 0,
            r.history.view().undo.len() == 0,
            r.history.view().redo.len() == 0,
    {
        Engine {
            forest,
            loc,
            group: Vec::new(),
            history: UndoHistory::new(),
            bookmarks: Vec::new(),
            clipboard: Vec::new(),
        }
    }

    /// Move the cursor. Fails, changing nothing, where there is no such
    /// place.
    pub fn execute_tree_nav(&mut self, cmd: TreeNavCommand) -> (r: Result<(), EditError>)
        requires
            old(self).wf(),
        ensures
            final(self).wf(),
            final(self).forest == old(self).forest,
            final(self).group == old(self).group,
            final(self).history == old(self).history,
            r is Err ==> final(self).loc == old(self).loc,
            r is Ok <==> spec_nav(old(self).forest, old(self).loc.0, cmd) is Some,
            r is Ok ==> final(self).loc.0 == spec_nav(old(self).forest, old(self).loc.0, cmd)->0,
    {
        let f = &self.forest;
        let next = match cmd {
            TreeNavCommand::Prev => self.loc.prev(f),
            TreeNavCommand::Next => self.loc.next(f),
            TreeNavCommand::First => self.loc.first(f),
            TreeNavCommand::Last => self.loc.last(f),
            TreeNavCommand::BeforeFirstChild => match self.loc.right_node(f) {
                Some(n) => Location::before_children(n, f),
                None => None,
            },
            TreeNavCommand::LastChild => match self.loc.left_node(f) {
                Some(n) => Location::after_children(n, f),
                None => None,
            },
            TreeNavCommand::Parent => self.loc.after_parent(f),
            TreeNavCommand::PrevLeaf => self.loc.inorder_prev(f),
            TreeNavCommand::NextLeaf => self.loc.inorder_next(f),
            TreeNavCommand::EnterText => self.loc.enter_text(f),
        };
        match next {
            Some(l) => {
                self.loc = l;
                Ok(())
            },
            None => Err(EditError::NoSuchPosition),
        }
    }

    /// Save the cursor's place under `name`.
    pub fn save_bookmark(&mut self, name: char)
        requires
            old(self).wf(),
        ensures
            final(self).wf(),
            final(self).forest == old(self).forest,
            final(self).loc == old(self).loc,
            final(self).group == old(self).group,
            final(self).history == old(self).history,
            lookup_mark(final(self).bookmarks@, name) == Some(old(self).loc.bookmark_spec()),
            forall|other: char|
                other != name ==> lookup_mark(final(self).bookmarks@, other) == lookup_mark(
                    old(self).bookmarks@,
                    other,
                ),
    {
        let mark = self.loc.bookmark();
        let ghost before = self.bookmarks@;
        self.bookmarks.push((name, mark));
        proof {
            assert(self.bookmarks@.drop_last() =~= before);
        }
    }

    /// Move the cursor to the place saved under `name`, if that place
    /// still exists in this tree (see `validate_bookmark`). Otherwise
    /// nothing changes.
    pub fn goto_bookmark(&mut self, name: char) -> (r: Result<(), EditError>)
        requires
            old(self).wf(),
        ensures
            final(self).wf(),
            final(self).forest == old(self).forest,
            final(self).group == old(self).group,
            final(self).history == old(self).history,
            lookup_mark(old(self).bookmarks@, name) is None ==> r is Err,
            r is Ok <==> (lookup_mark(old(self).bookmarks@, name) matches Some(m) && bookmark_ok(
                old(self).forest,
                old(self).loc.0,
                m.0,
            )),
            r is Err ==> final(self).loc == old(self).loc,
            r is Ok ==> final(self).loc.0 == crate::location::normalize(
                old(self).forest,
                (lookup_mark(old(self).bookmarks@, name)->0).0,
            ),
    {
        let mut k = self.bookmarks.len();
        proof {
            assert(self.bookmarks@.take(k as int) =~= self.bookmarks@);
        }
        while k > 0
            invariant
                k <= self.bookmarks.len(),
                *self == *old(self),
                self.wf(),
                lookup_mark(self.bookmarks@, name) == lookup_mark(self.bookmarks@.take(k as int), name),
            decreases k,
        {
            proof {
                assert(self.bookmarks@.take(k as int).drop_last() =~= self.bookmarks@.take(k - 1));
            }
            if self.bookmarks[k - 1].0 == name {
                let mark = self.bookmarks[k - 1].1;
                return match self.loc.validate_bookmark(mark, &self.forest) {
                    Some(l) => {
                        self.loc = l;
                        Ok(())
                    },
                    None => Err(EditError::NoSuchPosition),
                };
            }
            k = k - 1;
        }
        Err(EditError::NoSuchPosition)
    }

    /// Leave the text for the place just after the leaf.
    pub fn exit_text(&mut self) -> (r: Result<(), EditError>)
        requires
            old(self).wf(),
        ensures
            final(self).wf(),
            final(self).forest == old(self).forest,
            final(self).group == old(self).group,
            final(self).history == old(self).history,
            r is Err <==> !(old(self).loc.0 is InText),
            r is Err ==> final(self).loc == old(self).loc,
            r is Ok ==> final(self).loc.0 == LocationInner::AfterNode(
                crate::location::anchor(old(self).loc.0),
            ),
    {
        match self.loc.exit_text() {
            Some(l) => {
                self.loc = l;
                Ok(())
            },
            None => Err(EditError::NoSuchPosition),
        }
    }

    /// Apply one change, and return the change that undoes it. On failure
    /// nothing changes.
    fn apply(&mut self, op: Op) -> (r: Result<Op, EditError>)
        requires
            old(self).wf(),
        ensures
            final(self).wf(),
            final(self).group == old(self).group,
            final(self).history == old(self).history,
            r is Err ==> final(self).forest == old(self).forest && final(self).loc == old(self).loc
                && final(self).clipboard == old(self).clipboard,
            !(op is ClipPush || op is ClipPop) ==> final(self).clipboard == old(self).clipboard,
            (op is ClipPush || op is ClipPop) ==> final(self).forest == old(self).forest
                && final(self).loc == old(self).loc,
            op matches Op::ClipPush(n) ==> r is Ok && final(self).clipboard@ == old(self).clipboard@.push(n),
            op is ClipPop ==> (r is Ok <==> old(self).clipboard@.len() > 0),
            op is ClipPop && r is Ok ==> final(self).clipboard@ == old(self).clipboard@.drop_last(),
            op matches Op::InsertAt(mark, node) ==> (mark.0 == old(self).loc.0 ==> ((r is Ok <==> old(self).forest.nodes().contains_key(node.0) && can_insert(
                old(self).forest,
                old(self).loc.0,
                node.0,
            )) && (r is Ok ==> final(self).loc.0 == LocationInner::AfterNode(node.0)))),
            op matches Op::TextInsert(n, i, c) ==> ((r is Ok <==> old(self).forest.nodes().contains_key(n.0)
                && is_text(old(self).forest, n.0) && i <= text_len(old(self).forest, n.0) && i < usize::MAX)
                && (r is Ok ==> text_changed(old(self).forest, final(self).forest, n.0, leaf_text(
                old(self).forest,
                n.0,
            ).insert(i as int, c)) && final(self).loc.0 == LocationInner::InText(n.0, (i + 1) as usize)
                && r == Ok::<Op, EditError>(Op::TextDelete(n, i)))),
            op matches Op::TextDelete(n, i) ==> ((r is Ok <==> old(self).forest.nodes().contains_key(n.0)
                && is_text(old(self).forest, n.0) && i < text_len(old(self).forest, n.0)) && (r is Ok
                ==> text_changed(old(self).forest, final(self).forest, n.0, leaf_text(
                old(self).forest,
                n.0,
            ).remove(i as int)) && final(self).loc.0 == LocationInner::InText(n.0, i))),
            op matches Op::Delete(n) ==> (old(self).forest.nodes().contains_key(n.0) ==> (r is Ok
                <==> parent_of(old(self).forest, n.0) is Some)),
            op matches Op::Delete(n) ==> (r is Ok ==> delete_done(
                old(self).forest,
                LocationInner::AfterNode(n.0),
                true,
                final(self).forest,
                Some(n),
            )),
            op matches Op::Delete(n) ==> (r is Ok ==> (prev_sibling(old(self).forest, n.0) matches Some(p)
                ==> final(self).loc.0 == LocationInner::AfterNode(p))),
            op matches Op::InsertAt(mark, node) ==> (r is Ok && mark.0 == old(self).loc.0 ==> exists|
                x: Result<Option<Node>, ()>,
            | insert_done(old(self).forest, old(self).loc.0, node.0, final(self).forest, final(self).loc.0, x)),
    {
        match op {
            Op::InsertAt(mark, node) => {
                if !node.is_valid(&self.forest) {
                    return Err(EditError::CannotInsert);
                }
                proof {
                    lemma_normal_is_fixed_point(self.forest, self.loc.0);
                }
                let mut at = match self.loc.validate_bookmark(mark, &self.forest) {
                    Some(l) => l,
                    None => {
                        return Err(EditError::NoSuchPosition);
                    },
                };
                let ghost f0 = self.forest;
                let ghost at0 = at.0;
                let res = at.insert(node, &mut self.forest);
                proof {
                    assert(insert_done(f0, at0, node.0, self.forest, at.0, res));
                }
                match res {
                    Err(()) => Err(EditError::CannotInsert),
                    Ok(None) => {
                        self.loc = at;
                        Ok(Op::Delete(node))
                    },
                    Ok(Some(displaced)) => {
                        let back = Location::before(node, &self.forest);
                        self.loc = at;
                        Ok(Op::InsertAt(back.bookmark(), displaced))
                    },
                }
            },
            Op::Delete(node) => {
                if !node.is_valid(&self.forest) {
                    return Err(EditError::NothingToDelete);
                }
                let parent = match node.parent(&self.forest) {
                    Some(p) => p,
                    None => {
                        return Err(EditError::NothingToDelete);
                    },
                };
                let prev = node.prev_sibling(&self.forest);
                let mut at = Location::after(node, &self.forest);
                let ghost f0 = self.forest;
                let removed = at.delete_neighbor(true, &mut self.forest);
                proof {
                    assert(delete_done(f0, LocationInner::AfterNode(node.0), true, self.forest, removed));
                }
                if removed.is_none() {
                    return Err(EditError::NothingToDelete);
                }
                let place = match prev {
                    Some(p) => Location::after(p, &self.forest),
                    None => match Location::before_children(parent, &self.forest) {
                        Some(l) => l,
                        None => Location::after(parent, &self.forest),
                    },
                };
                self.loc = place;
                Ok(Op::InsertAt(place.bookmark(), node))
            },
            Op::TextInsert(node, i, c) => {
                if !node.is_valid(&self.forest) || !node.is_leaf(&self.forest) {
                    return Err(EditError::NoSuchPosition);
                }
                if i > node.text_len(&self.forest) || i == usize::MAX {
                    return Err(EditError::NoSuchPosition);
                }
                let t = text_insert(node.leaf(&self.forest), i, c);
                let slot = node.leaf_mut(&mut self.forest);
                *slot = t;
                proof {
                    assert(self.forest.nodes().dom() =~= old(self).forest.nodes().dom());
                    assert(self.forest.nodes()[node.0] == crate::forest::with_leaf(old(self).forest.nodes()[node.0], t));
                }
                self.loc = Location(LocationInner::InText(node.0, i + 1));
                Ok(Op::TextDelete(node, i))
            },
            Op::TextDelete(node, i) => {
                if !node.is_valid(&self.forest) || !node.is_leaf(&self.forest) {
                    return Err(EditError::NothingToDelete);
                }
                if i >= node.text_len(&self.forest) {
                    return Err(EditError::NothingToDelete);
                }
                let c = node.leaf(&self.forest).as_str().get_char(i);
                let t = text_remove(node.leaf(&self.forest), i);
                let slot = node.leaf_mut(&mut self.forest);
                *slot = t;
                proof {
                    assert(self.forest.nodes().dom() =~= old(self).forest.nodes().dom());
                    assert(self.forest.nodes()[node.0] == crate::forest::with_leaf(old(self).forest.nodes()[node.0], t));
                }
                self.loc = Location(LocationInner::InText(node.0, i));
                Ok(Op::TextInsert(node, i, c))
            },
            Op::ClipPush(node) => {
                self.clipboard.push(node);
                Ok(Op::ClipPop)
            },
            Op::ClipPop => {
                if self.clipboard.len() == 0 {
                    return Err(EditError::ClipboardEmpty);
                }
                let node = self.clipboard.pop().unwrap();
                Ok(Op::ClipPush(node))
            },
        }
    }

    /// Apply a change and record its undo in the open group.
    fn record(&mut self, op: Op) -> (r: Result<(), EditError>)
        requires
            old(self).wf(),
        ensures
            final(self).wf(),
            final(self).history == old(self).history,
            r is Err ==> final(self).forest == old(self).forest && final(self).loc == old(self).loc
                && final(self).clipboard == old(self).clipboard && final(self).group == old(self).group,
            op is ClipPop ==> (r is Ok <==> old(self).clipboard@.len() > 0),
            op is ClipPop && r is Ok ==> final(self).clipboard@ == old(self).clipboard@.drop_last(),
            op is ClipPop ==> final(self).forest == old(self).forest && final(self).loc == old(self).loc,
            op matches Op::Delete(n) ==> (r is Ok ==> delete_done(
                old(self).forest,
                LocationInner::AfterNode(n.0),
                true,
                final(self).forest,
                Some(n),
            )),
            op matches Op::ClipPush(n) ==> r is Ok && final(self).clipboard@ == old(self).clipboard@.push(n) && final(self).forest == old(self).forest && final(self).loc
                == old(self).loc,
            op matches Op::Delete(n) ==> (old(self).forest.nodes().contains_key(n.0) ==> (r is Ok
                <==> parent_of(old(self).forest, n.0) is Some)),
            op matches Op::InsertAt(mark, node) ==> (mark.0 == old(self).loc.0 ==> ((r is Ok <==> old(self).forest.nodes().contains_key(node.0) && can_insert(
                old(self).forest,
                old(self).loc.0,
                node.0,
            )) && (r is Ok ==> final(self).loc.0 == LocationInner::AfterNode(node.0)))),
            !(op is ClipPush || op is ClipPop) ==> final(self).clipboard == old(self).clipboard,
    {
        let undo = self.apply(op)?;
        self.group.push(undo);
        Ok(())
    }

    /// A clipboard command; its changes join the open undo group, so undo
    /// restores the clipboard with the tree.
    pub fn execute_clipboard(&mut self, cmd: ClipboardCommand) -> (r: Result<(), EditError>)
        requires
            old(self).wf(),
        ensures
            final(self).wf(),
            final(self).history == old(self).history,
            cmd is Pop ==> (r is Ok <==> old(self).clipboard@.len() > 0),
            cmd is Pop && r is Ok ==> final(self).clipboard@ == old(self).clipboard@.drop_last(),
            (cmd is Copy || cmd is Cut) && spec_left_node(old(self).loc.0) is None ==> r is Err,
            cmd is Copy ==> (r is Ok <==> spec_left_node(old(self).loc.0) is Some),
            cmd is Cut ==> (r is Ok <==> (spec_left_node(old(self).loc.0) matches Some(n) && parent_of(
                old(self).forest,
                n,
            ) is Some)),
            cmd is Cut && r is Ok ==> final(self).clipboard@.len() == old(self).clipboard@.len() + 1
                && final(self).clipboard@.drop_last() == old(self).clipboard@
                && !old(self).forest.nodes().contains_key(final(self).clipboard@.last().0)
                && delete_done(
                old(self).forest,
                old(self).loc.0,
                true,
                final(self).forest,
                Some(Node(spec_left_node(old(self).loc.0)->0)),
            ),
            (cmd is Copy || cmd is Dup) && r is Ok ==> final(self).clipboard@.len() == old(self).clipboard@.len() + 1 && final(self).clipboard@.drop_last() == old(self).clipboard@
                && !old(self).forest.nodes().contains_key(final(self).clipboard@.last().0)
                && final(self).loc == old(self).loc,
            (cmd is Copy || cmd is Dup) && r is Ok ==> forall|x: Index|
                #[trigger] old(self).forest.nodes().contains_key(x) ==> final(self).forest.nodes().contains_key(x) && final(self).forest.nodes()[x] == old(self).forest.nodes()[x],
            cmd is Dup ==> (r is Ok <==> old(self).clipboard@.len() > 0 && old(self).forest.nodes().contains_key(old(self).clipboard@.last().0)),
            (cmd is Paste || cmd is Dup || cmd is PasteSwap) && old(self).clipboard@.len() == 0
                ==> r is Err,
            cmd is Paste ==> (r is Ok <==> old(self).clipboard@.len() > 0 && old(self).forest.nodes().contains_key(old(self).clipboard@.last().0) && (spec_parent_node(
                old(self).forest,
                old(self).loc.0,
            ) matches Some(p) && (old(self).forest.nodes()[p].fixed ==> spec_right_node(
                old(self).forest,
                old(self).loc.0,
            ) is Some)) && crate::location::sort_fits(old(self).forest, old(self).loc.0, old(self).clipboard@.last().0)),
            cmd is Paste && r is Ok ==> final(self).clipboard == old(self).clipboard && (final(self).loc.0 matches LocationInner::AfterNode(n) && !old(self).forest.nodes().contains_key(
                n,
            )),
            cmd is PasteSwap && r is Ok ==> final(self).clipboard@.len() == old(self).clipboard@.len(),
            cmd is PasteSwap && r is Ok ==> final(self).clipboard@ == old(self).clipboard@.drop_last().push(
                Node(spec_right_node(old(self).forest, old(self).loc.0)->0),
            ) && final(self).loc.0 == LocationInner::AfterNode(old(self).clipboard@.last().0),
            cmd is PasteSwap && (spec_right_node(old(self).forest, old(self).loc.0) is None
                || spec_parent_node(old(self).forest, old(self).loc.0) is None) ==> r is Err,
    {
        match cmd {
            ClipboardCommand::Copy => {
                let node = match self.loc.left_node(&self.forest) {
                    Some(n) => n,
                    None => {
                        return Err(EditError::NothingToCopy);
                    },
                };
                let copy = node.deep_copy(&mut self.forest);
                self.record(Op::ClipPush(copy))
            },
            ClipboardCommand::Cut => {
                let node = match self.loc.left_node(&self.forest) {
                    Some(n) => n,
                    None => {
                        return Err(EditError::NothingToCopy);
                    },
                };
                let ghost f0 = self.forest;
                let copy = node.deep_copy(&mut self.forest);
                self.record(Op::ClipPush(copy))?;
                let ghost f1 = self.forest;
                let r = self.record(Op::Delete(node));
                proof {
                    if r is Ok {
                        let l = LocationInner::AfterNode(node.0);
                        assert(f0.nodes().contains_key(node.0));
                        assert(f1.nodes()[node.0] == f0.nodes()[node.0]);
                        let p = f0.nodes()[node.0].parent->0;
                        crate::forest::lemma_sibling_position(&f0, node.0);
                        assert(f0.nodes().contains_key(p));
                        assert(f1.nodes()[p] == f0.nodes()[p]);
                        assert(delete_done(f0, l, true, self.forest, Some(node)));
                    }
                }
                r
            },
            ClipboardCommand::Paste => {
                let top = match self.clipboard.last() {
                    Some(n) => *n,
                    None => {
                        return Err(EditError::ClipboardEmpty);
                    },
                };
                if !top.is_valid(&self.forest) {
                    return Err(EditError::ClipboardEmpty);
                }
                let ghost f0 = self.forest;
                let copy = top.deep_copy(&mut self.forest);
                proof {
                    let f1 = self.forest;
                    let l = self.loc.0;
                    let anchor = crate::location::anchor(l);
                    assert(f0.nodes().contains_key(anchor));
                    assert(f1.nodes()[anchor] == f0.nodes()[anchor]);
                    assert(f1.spec_root(copy.0) == copy.0);
                    match spec_parent_node(f0, l) {
                        Some(p) => {
                            if !(l is BelowNode) {
                                crate::forest::lemma_sibling_position(&f0, anchor);
                            }
                            assert(f0.nodes().contains_key(p));
                            assert(f1.nodes()[p] == f0.nodes()[p]);
                            crate::forest::lemma_root_not_new(&f0, &f1, p, copy.0);
                            match spec_right_node(f0, l) {
                                Some(rn) => {
                                    if l is AfterNode {
                                        let i = crate::location::siblings_of(f0, anchor).index_of(anchor);
                                        crate::forest::lemma_child_names_parent(&f0, p, i + 1);
                                    }
                                    assert(f0.nodes().contains_key(rn));
                                    crate::forest::lemma_root_not_new(&f0, &f1, rn, copy.0);
                                },
                                None => {},
                            }
                        },
                        None => {},
                    }
                    assert(spec_parent_node(f1, l) == spec_parent_node(f0, l));
                    assert(spec_right_node(f1, l) == spec_right_node(f0, l));
                    assert(f1.nodes()[copy.0].sort == f0.nodes()[top.0].sort);
                    if spec_parent_node(f0, l) is Some {
                        let p = spec_parent_node(f0, l)->0;
                        if !(l is BelowNode) {
                            assert(crate::location::siblings_of(f1, anchor) == crate::location::siblings_of(f0, anchor));
                        }
                        assert(crate::location::insert_pos(f1, l) == crate::location::insert_pos(f0, l));
                        assert(crate::location::required_sort(f1, p, crate::location::insert_pos(f1, l))
                            == crate::location::required_sort(f0, p, crate::location::insert_pos(f0, l)));
                    }
                    assert(crate::location::sort_fits(f1, l, copy.0) == crate::location::sort_fits(f0, l, top.0));
                }
                self.record(Op::InsertAt(self.loc.bookmark(), copy))
            },
            ClipboardCommand::PasteSwap => {
                let right = match self.loc.right_node(&self.forest) {
                    Some(n) => n,
                    None => {
                        return Err(EditError::NothingToDelete);
                    },
                };
                let top = match self.clipboard.last() {
                    Some(n) => *n,
                    None => {
                        return Err(EditError::ClipboardEmpty);
                    },
                };
                let fixed = match self.loc.parent_node(&self.forest) {
                    Some(p) => p.is_fixed(&self.forest),
                    None => {
                        return Err(EditError::NothingToDelete);
                    },
                };
                let ghost c0 = self.clipboard@;
                self.record(Op::ClipPop)?;
                if !fixed {
                    self.record(Op::Delete(right))?;
                }
                self.record(Op::InsertAt(self.loc.bookmark(), top))?;
                let ghost c1 = self.clipboard@;
                let r = self.record(Op::ClipPush(right));
                proof {
                    assert(c1 == c0.drop_last());
                    assert(top == c0.last());
                }
                r
            },
            ClipboardCommand::Dup => {
                let top = match self.clipboard.last() {
                    Some(n) => *n,
                    None => {
                        return Err(EditError::ClipboardEmpty);
                    },
                };
                if !top.is_valid(&self.forest) {
                    return Err(EditError::ClipboardEmpty);
                }
                let copy = top.deep_copy(&mut self.forest);
                self.record(Op::ClipPush(copy))
            },
            ClipboardCommand::Pop => self.record(Op::ClipPop),
        }
    }

    /// Edit the text at the cursor. The change joins the open undo group.
    /// Fails, changing nothing, outside text, or with no char to delete.
    pub fn execute_text_ed(&mut self, cmd: TextEdCommand) -> (r: Result<(), EditError>)
        requires
            old(self).wf(),
        ensures
            final(self).wf(),
            final(self).history == old(self).history,
            !(old(self).loc.0 is InText) ==> r is Err,
            old(self).loc.0 matches LocationInner::InText(n, i) ==> match cmd {
                TextEdCommand::Insert(c) => (r is Ok <==> i < usize::MAX) && (r is Ok ==> text_changed(
                    old(self).forest,
                    final(self).forest,
                    n,
                    leaf_text(old(self).forest, n).insert(i as int, c),
                ) && final(self).loc.0 == LocationInner::InText(n, (i + 1) as usize)),
                TextEdCommand::Backspace => (r is Ok <==> i > 0) && (r is Ok ==> text_changed(
                    old(self).forest,
                    final(self).forest,
                    n,
                    leaf_text(old(self).forest, n).remove(i - 1),
                ) && final(self).loc.0 == LocationInner::InText(n, (i - 1) as usize)),
                TextEdCommand::Delete => (r is Ok <==> i < text_len(old(self).forest, n)) && (r is Ok
                    ==> text_changed(
                    old(self).forest,
                    final(self).forest,
                    n,
                    leaf_text(old(self).forest, n).remove(i as int),
                ) && final(self).loc.0 == LocationInner::InText(n, i)),
            },
            r is Err ==> final(self).forest == old(self).forest && final(self).loc == old(self).loc
                && final(self).group == old(self).group,
            r is Ok ==> final(self).group@.len() == old(self).group@.len() + 1,
    {
        let (node, i) = match self.loc.text_pos() {
            Some(p) => p,
            None => {
                return Err(EditError::NoSuchPosition);
            },
        };
        let op = match cmd {
            TextEdCommand::Insert(c) => Op::TextInsert(node, i, c),
            TextEdCommand::Backspace => {
                if i == 0 {
                    return Err(EditError::NothingToDelete);
                }
                Op::TextDelete(node, i - 1)
            },
            TextEdCommand::Delete => Op::TextDelete(node, i),
        };
        let undo = self.apply(op)?;
        self.group.push(undo);
        Ok(())
    }

    /// Move the cursor within the text. Fails, changing nothing, outside
    /// text or past either end.
    pub fn execute_text_nav(&mut self, cmd: TextNavCommand) -> (r: Result<(), EditError>)
        requires
            old(self).wf(),
        ensures
            final(self).wf(),
            final(self).forest == old(self).forest,
            final(self).group == old(self).group,
            final(self).history == old(self).history,
            r is Ok <==> (old(self).loc.0 matches LocationInner::InText(n, i) && (cmd is Left ==> i > 0)
                && (cmd is Right ==> i < text_len(old(self).forest, n))),
            r is Err ==> final(self).loc == old(self).loc,
            r is Ok ==> (old(self).loc.0 matches LocationInner::InText(n, i)
                && final(self).loc.0 == LocationInner::InText(
                n,
                match cmd {
                    TextNavCommand::Left => (i - 1) as usize,
                    TextNavCommand::Right => (i + 1) as usize,
                    TextNavCommand::Beginning => 0,
                    TextNavCommand::End => text_len(old(self).forest, n) as usize,
                },
            )),
    {
        let (node, i) = match self.loc.text_pos() {
            Some(p) => p,
            None => {
                return Err(EditError::NoSuchPosition);
            },
        };
        let len = node.text_len(&self.forest);
        let j = match cmd {
            TextNavCommand::Left => {
                if i == 0 {
                    return Err(EditError::NoSuchPosition);
                }
                i - 1
            },
            TextNavCommand::Right => {
                if i >= len {
                    return Err(EditError::NoSuchPosition);
                }
                i + 1
            },
            TextNavCommand::Beginning => 0,
            TextNavCommand::End => len,
        };
        self.loc = Location(LocationInner::InText(node.0, j));
        Ok(())
    }

    /// Edit the tree at the cursor. The change joins the open undo group.
    pub fn execute_tree_ed(&mut self, cmd: TreeEdCommand) -> (r: Result<(), EditError>)
        requires
            old(self).wf(),
        ensures
            final(self).wf(),
            final(self).history == old(self).history,
            r is Err ==> final(self).forest == old(self).forest && final(self).loc == old(self).loc
                && final(self).group == old(self).group,
            r is Ok ==> final(self).group@.len() == old(self).group@.len() + 1,
            cmd matches TreeEdCommand::Insert(node) ==> ((r is Ok <==> old(self).forest.nodes().contains_key(node.0) && can_insert(
                old(self).forest,
                old(self).loc.0,
                node.0,
            )) && (r is Ok ==> final(self).loc.0 == LocationInner::AfterNode(node.0))),
            cmd is Backspace ==> (r is Ok <==> (spec_left_node(old(self).loc.0) matches Some(n)
                && parent_of(old(self).forest, n) is Some)),
            cmd is Backspace && r is Ok ==> delete_done(
                old(self).forest,
                old(self).loc.0,
                true,
                final(self).forest,
                Some(Node(spec_left_node(old(self).loc.0)->0)),
            ),
            cmd is Delete && r is Ok ==> delete_done(
                old(self).forest,
                LocationInner::AfterNode(spec_right_node(old(self).forest, old(self).loc.0)->0),
                true,
                final(self).forest,
                Some(Node(spec_right_node(old(self).forest, old(self).loc.0)->0)),
            ),
            cmd matches TreeEdCommand::Insert(node) ==> (r is Ok ==> exists|x: Result<Option<Node>, ()>|
                insert_done(old(self).forest, old(self).loc.0, node.0, final(self).forest, final(self).loc.0, x)),
            cmd is Delete ==> (r is Ok <==> (spec_right_node(old(self).forest, old(self).loc.0) matches Some(n)
                && parent_of(old(self).forest, n) is Some)),
    {
        let op = match cmd {
            TreeEdCommand::Insert(node) => Op::InsertAt(self.loc.bookmark(), node),
            TreeEdCommand::Backspace => match self.loc.left_node(&self.forest) {
                Some(n) => Op::Delete(n),
                None => {
                    return Err(EditError::NothingToDelete);
                },
            },
            TreeEdCommand::Delete => match self.loc.right_node(&self.forest) {
                Some(n) => Op::Delete(n),
                None => {
                    return Err(EditError::NothingToDelete);
                },
            },
        };
        let ghost f0 = self.forest;
        let ghost l0 = self.loc.0;
        let undo = self.apply(op)?;
        let ghost f1 = self.forest;
        let ghost l1 = self.loc.0;
        self.group.push(undo);
        proof {
            assert(self.forest == f1 && self.loc.0 == l1);
            match cmd {
                TreeEdCommand::Insert(node) => {
                    assert(op == Op::InsertAt(Bookmark(l0), node));
                    let x = choose|x: Result<Option<Node>, ()>| insert_done(f0, l0, node.0, f1, l1, x);
                    assert(insert_done(f0, l0, node.0, self.forest, self.loc.0, x));
                },
                _ => {},
            }
        }
        Ok(())
    }

    /// Close the open undo group, if it holds any change.
    pub fn end_undo_group(&mut self)
        requires
            old(self).wf(),
        ensures
            final(self).wf(),
            final(self).forest == old(self).forest,
            final(self).loc == old(self).loc,
            final(self).group@.len() == 0,
            old(self).group@.len() > 0 ==> final(self).history.view().undo.drop_last() == old(self).history.view().undo,
            old(self).group@.len() > 0 ==> final(self).history.view().undo.last()@ == old(self).group@,
            old(self).group@.len() > 0 ==> final(self).history.view().redo.len() == 0,
            old(self).group@.len() == 0 ==> final(self).history == old(self).history,
    {
        if self.group.len() > 0 {
            let group = self.group.split_off(0);
            self.history.commit(group);
        }
    }

    /// Apply the changes of a group, last first, and return the changes
    /// that undo them, in the order they were applied.
    fn apply_group(&mut self, group: &Vec<Op>) -> (r: Result<Vec<Op>, EditError>)
        requires
            old(self).wf(),
        ensures
            final(self).wf(),
            final(self).group == old(self).group,
            final(self).history == old(self).history,
            r matches Ok(v) ==> v@.len() == group@.len(),
    {
        let mut reverses: Vec<Op> = Vec::new();
        let mut i = group.len();
        while i > 0
            invariant
                self.wf(),
                self.group == old(self).group,
                self.history == old(self).history,
                i <= group.len(),
                reverses@.len() == group.len() - i,
            decreases i,
        {
            i = i - 1;
            let undo = self.apply(group[i])?;
            reverses.push(undo);
        }
        Ok(reverses)
    }

    /// Undo the last group of changes. The open group is closed first.
    pub fn undo(&mut self) -> (r: Result<(), EditError>)
        requires
            old(self).wf(),
        ensures
            final(self).wf(),
            final(self).group@.len() == 0,
            old(self).history.view().undo.len() == 0 && old(self).group@.len() == 0 ==> r
                == Err::<(), EditError>(EditError::NothingToUndo) && final(self).forest == old(self).forest && final(self).loc == old(self).loc && final(self).history.view() == old(self).history.view(),
            r is Ok && old(self).group@.len() > 0 ==> final(self).history.view().undo == old(self).history.view().undo && final(self).history.view().redo.len() == 1,
            r is Ok && old(self).group@.len() == 0 ==> final(self).history.view().undo == old(self).history.view().undo.drop_last() && final(self).history.view().redo.len() == old(self).history.view().redo.len() + 1,
            r is Err && old(self).group@.len() == 0 ==> final(self).history.view().undo == old(self).history.view().undo
                && final(self).history.view().redo == old(self).history.view().redo,
    {
        self.end_undo_group();
        let group = match self.history.take_undo() {
            Some(g) => g,
            None => {
                return Err(EditError::NothingToUndo);
            },
        };
        let redo = match self.apply_group(&group) {
            Ok(v) => v,
            Err(e) => {
                self.history.finish_redo(group);
                proof {
                    if old(self).group@.len() == 0 {
                        assert(self.history.view().undo =~= old(self).history.view().undo);
                    }
                }
                return Err(e);
            },
        };
        self.history.finish_undo(redo);
        Ok(())
    }

    /// Redo the last undone group of changes.
    pub fn redo(&mut self) -> (r: Result<(), EditError>)
        requires
            old(self).wf(),
        ensures
            final(self).wf(),
            final(self).group@.len() == 0,
            old(self).history.view().redo.len() == 0 || old(self).group@.len() > 0 ==> r
                == Err::<(), EditError>(EditError::NothingToRedo) && final(self).forest == old(self).forest && final(self).loc == old(self).loc,
            r is Ok ==> final(self).history.view().redo == old(self).history.view().redo.drop_last()
                && final(self).history.view().undo.len() == old(self).history.view().undo.len() + 1,
            r is Err && old(self).group@.len() == 0 ==> final(self).history.view().undo == old(self).history.view().undo
                && final(self).history.view().redo == old(self).history.view().redo,
    {
        self.end_undo_group();
        let group = match self.history.take_redo() {
            Some(g) => g,
            None => {
                return Err(EditError::NothingToRedo);
            },
        };
        let undo = match self.apply_group(&group) {
            Ok(v) => v,
            Err(e) => {
                self.history.finish_undo(group);
                proof {
                    if old(self).group@.len() == 0 {
                        assert(self.history.view().redo =~= old(self).history.view().redo);
                    }
                }
                return Err(e);
            },
        };
        self.history.finish_redo(undo);
        Ok(())
    }
}

} // verus!
