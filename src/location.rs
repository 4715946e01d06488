use vstd::prelude::*;
use vstd::string::StrSliceExecFns;

use crate::language::{any_sort, is_any};
use crate::forest::{kids, Forest, Node, NodeChildren};
use generational_arena::Index;

verus! {

/// Whether the cursor is between nodes or inside text.
#[derive(Clone, Copy, Debug, PartialEq, Eq, Structural)]
pub enum Mode {
    Tree,
    Text,
}

/// The places a cursor can be. One place between two nodes has two
/// names (after the left one, before the right one); `Location` keeps the
/// first that applies of `AfterNode`, `BeforeNode`, `BelowNode`.
#[derive(Clone, Copy, Debug)]
pub enum LocationInner {
    /// Inside the text of a leaf, before the char at this index (which
    /// may equal the length).
    InText(Index, usize),
    AfterNode(Index),
    BeforeNode(Index),
    /// Inside an empty sequence of children.
    BelowNode(Index),
}

/// A cursor position, in normal form.
#[derive(Clone, Copy, Debug)]
pub struct Location(pub LocationInner);

/// A saved cursor position. Its node may have moved or been deleted
/// since: it is checked before use.
#[derive(Clone, Copy, Debug)]
pub struct Bookmark(pub LocationInner);

pub open spec fn parent_of(f: Forest, n: Index) -> Option<Index> {
    f.nodes()[n].parent
}

pub open spec fn siblings_of(f: Forest, n: Index) -> Seq<Index> {
    kids(f.nodes()[parent_of(f, n)->0])
}

pub open spec fn prev_sibling(f: Forest, n: Index) -> Option<Index> {
    match parent_of(f, n) {
        None => None,
        Some(_) => {
            let i = siblings_of(f, n).index_of(n);
            if i > 0 {
                Some(siblings_of(f, n)[i - 1])
            } else {
                None
            }
        },
    }
}

pub open spec fn next_sibling(f: Forest, n: Index) -> Option<Index> {
    match parent_of(f, n) {
        None => None,
        Some(_) => {
            let i = siblings_of(f, n).index_of(n);
            if i + 1 < siblings_of(f, n).len() {
                Some(siblings_of(f, n)[i + 1])
            } else {
                None
            }
        },
    }
}

pub open spec fn first_sibling(f: Forest, n: Index) -> Index {
    match parent_of(f, n) {
        None => n,
        Some(_) => siblings_of(f, n)[0],
    }
}

pub open spec fn last_sibling(f: Forest, n: Index) -> Index {
    match parent_of(f, n) {
        None => n,
        Some(_) => siblings_of(f, n).last(),
    }
}

pub open spec fn is_text(f: Forest, n: Index) -> bool {
    f.nodes()[n].children is Leaf
}

/// The text of a leaf; empty for a branch.
pub open spec fn leaf_text(f: Forest, n: Index) -> Seq<char> {
    match f.nodes()[n].children {
        NodeChildren::Leaf(t) => t@,
        NodeChildren::Branch(_) => Seq::empty(),
    }
}

pub open spec fn text_len(f: Forest, n: Index) -> nat {
    match f.nodes()[n].children {
        NodeChildren::Leaf(t) => t@.len(),
        NodeChildren::Branch(_) => 0,
    }
}

/// The node that a location is stated in terms of.
pub open spec fn anchor(l: LocationInner) -> Index {
    match l {
        LocationInner::InText(n, _) => n,
        LocationInner::AfterNode(n) => n,
        LocationInner::BeforeNode(n) => n,
        LocationInner::BelowNode(n) => n,
    }
}

/// `l` names a live place in its normal form: text positions lie within
/// the text; `BeforeNode` only where no sibling comes before; `BelowNode` only for an
/// empty branch.
pub open spec fn is_normal(f: Forest, l: LocationInner) -> bool {
    &&& f.nodes().contains_key(anchor(l))
    &&& match l {
        LocationInner::InText(n, i) => is_text(f, n) && i <= text_len(f, n),
        LocationInner::AfterNode(_) => true,
        LocationInner::BeforeNode(n) => prev_sibling(f, n) is None,
        LocationInner::BelowNode(p) => !is_text(f, p) && kids(f.nodes()[p]).len() == 0,
    }
}

/// The normal name of the place `l` names.
pub open spec fn normalize(f: Forest, l: LocationInner) -> LocationInner {
    match l {
        LocationInner::InText(n, i) => LocationInner::InText(
            n,
            if i <= text_len(f, n) {
                i
            } else {
                text_len(f, n) as usize
            },
        ),
        LocationInner::AfterNode(_) => l,
        LocationInner::BeforeNode(n) => match prev_sibling(f, n) {
            Some(p) => LocationInner::AfterNode(p),
            None => l,
        },
        LocationInner::BelowNode(p) => if kids(f.nodes()[p]).len() > 0 {
            LocationInner::AfterNode(kids(f.nodes()[p]).last())
        } else {
            l
        },
    }
}

pub open spec fn opt_index(n: Option<Node>) -> Option<Index> {
    match n {
        Some(x) => Some(x.0),
        None => None,
    }
}

proof fn lemma_index_of_unique(s: Seq<Index>, k: int)
    requires
        s.no_duplicates(),
        0 <= k < s.len(),
    ensures
        s.index_of(s[k]) == k,
{
    assert(s.contains(s[k]));
}

/// What `siblings_of` and `prev_sibling` say of the `k`th child of `p`.
proof fn lemma_kth_child(f: &Forest, p: Index, k: int)
    requires
        f.wf(),
        f.nodes().contains_key(p),
        0 <= k < kids(f.nodes()[p]).len(),
    ensures
        f.nodes().contains_key(kids(f.nodes()[p])[k]),
        parent_of(*f, kids(f.nodes()[p])[k]) == Some(p),
        siblings_of(*f, kids(f.nodes()[p])[k]) == kids(f.nodes()[p]),
        siblings_of(*f, kids(f.nodes()[p])[k]).index_of(kids(f.nodes()[p])[k]) == k,
{
    crate::forest::lemma_child_names_parent(f, p, k);
    crate::forest::lemma_sibling_position(f, kids(f.nodes()[p])[k]);
    lemma_index_of_unique(kids(f.nodes()[p]), k);
}

/// The position of `n` among its parent's children.
fn position(n: Node, f: &Forest) -> (r: usize)
    requires
        f.wf(),
        f.nodes().contains_key(n.0),
        parent_of(*f, n.0) is Some,
    ensures
        r == siblings_of(*f, n.0).index_of(n.0),
        r < siblings_of(*f, n.0).len(),
        siblings_of(*f, n.0)[r as int] == n.0,
        f.nodes().contains_key(parent_of(*f, n.0)->0),
{
    let i = match n.sibling_index(f) {
        Some(i) => i,
        None => 0,
    };
    proof {
        crate::forest::lemma_sibling_position(f, n.0);
        lemma_index_of_unique(siblings_of(*f, n.0), i as int);
    }
    i
}

impl Node {
    /// The sibling before this node, if any.
    pub fn prev_sibling(self, f: &Forest) -> (r: Option<Node>)
        requires
            f.wf(),
            f.nodes().contains_key(self.0),
        ensures
            opt_index(r) == prev_sibling(*f, self.0),
            r matches Some(x) ==> f.nodes().contains_key(x.0) && parent_of(*f, x.0) == parent_of(
                *f,
                self.0,
            ),
    {
        match self.parent(f) {
            None => None,
            Some(p) => {
                let i = position(self, f);
                if i > 0 {
                    proof {
                        crate::forest::lemma_child_names_parent(f, p.0, i - 1);
                    }
                    Some(Node(p.children(f)[i - 1]))
                } else {
                    None
                }
            },
        }
    }

    /// The sibling after this node, if any.
    pub fn next_sibling(self, f: &Forest) -> (r: Option<Node>)
        requires
            f.wf(),
            f.nodes().contains_key(self.0),
        ensures
            opt_index(r) == next_sibling(*f, self.0),
            r matches Some(x) ==> f.nodes().contains_key(x.0) && parent_of(*f, x.0) == parent_of(
                *f,
                self.0,
            ),
    {
        match self.parent(f) {
            None => None,
            Some(p) => {
                let i = position(self, f);
                let n = p.children(f).len();
                if i < n - 1 {
                    proof {
                        crate::forest::lemma_child_names_parent(f, p.0, i + 1);
                    }
                    Some(Node(p.children(f)[i + 1]))
                } else {
                    None
                }
            },
        }
    }

    /// The first of this node's siblings (itself for a root).
    pub fn first_sibling(self, f: &Forest) -> (r: Node)
        requires
            f.wf(),
            f.nodes().contains_key(self.0),
        ensures
            r.0 == first_sibling(*f, self.0),
            f.nodes().contains_key(r.0),
            parent_of(*f, r.0) == parent_of(*f, self.0),
    {
        match self.parent(f) {
            None => self,
            Some(p) => {
                let _ = position(self, f);
                proof {
                    crate::forest::lemma_child_names_parent(f, p.0, 0);
                }
                Node(p.children(f)[0])
            },
        }
    }

    /// The last of this node's siblings (itself for a root).
    pub fn last_sibling(self, f: &Forest) -> (r: Node)
        requires
            f.wf(),
            f.nodes().contains_key(self.0),
        ensures
            r.0 == last_sibling(*f, self.0),
            f.nodes().contains_key(r.0),
            parent_of(*f, r.0) == parent_of(*f, self.0),
    {
        match self.parent(f) {
            None => self,
            Some(p) => {
                let _ = position(self, f);
                let n = p.children(f).len();
                proof {
                    crate::forest::lemma_child_names_parent(f, p.0, n - 1);
                }
                Node(p.children(f)[n - 1])
            },
        }
    }

    /// The number of chars in a leaf's text.
    pub fn text_len(self, f: &Forest) -> (r: usize)
        requires
            f.nodes().contains_key(self.0),
            is_text(*f, self.0),
        ensures
            r == text_len(*f, self.0),
    {
        self.leaf(f).as_str().unicode_len()
    }
}

pub open spec fn spec_mode(l: LocationInner) -> Mode {
    match l {
        LocationInner::InText(_, _) => Mode::Text,
        _ => Mode::Tree,
    }
}

/// The node right of the place, if any.
pub open spec fn spec_right_node(f: Forest, l: LocationInner) -> Option<Index> {
    match l {
        LocationInner::AfterNode(n) => next_sibling(f, n),
        LocationInner::BeforeNode(n) => Some(n),
        _ => None,
    }
}

/// The node left of the place, if any.
pub open spec fn spec_left_node(l: LocationInner) -> Option<Index> {
    match l {
        LocationInner::AfterNode(n) => Some(n),
        _ => None,
    }
}

/// The node whose children the place lies among, if any.
pub open spec fn spec_parent_node(f: Forest, l: LocationInner) -> Option<Index> {
    match l {
        LocationInner::InText(_, _) => None,
        LocationInner::AfterNode(n) => parent_of(f, n),
        LocationInner::BeforeNode(n) => parent_of(f, n),
        LocationInner::BelowNode(n) => Some(n),
    }
}

pub open spec fn spec_before_children(f: Forest, n: Index) -> Option<LocationInner> {
    if is_text(f, n) {
        None
    } else if kids(f.nodes()[n]).len() == 0 {
        Some(LocationInner::BelowNode(n))
    } else {
        Some(LocationInner::BeforeNode(kids(f.nodes()[n])[0]))
    }
}

pub open spec fn spec_after_children(f: Forest, n: Index) -> Option<LocationInner> {
    if is_text(f, n) {
        None
    } else if kids(f.nodes()[n]).len() == 0 {
        Some(LocationInner::BelowNode(n))
    } else {
        Some(LocationInner::AfterNode(kids(f.nodes()[n]).last()))
    }
}

pub open spec fn opt_inner(l: Option<Location>) -> Option<LocationInner> {
    match l {
        Some(x) => Some(x.0),
        None => None,
    }
}

/// A bookmark `mark` can be used from `here`: its node is alive, in the
/// same tree, and still of the kind the mark needs.
pub open spec fn bookmark_ok(f: Forest, here: LocationInner, mark: LocationInner) -> bool {
    &&& f.nodes().contains_key(anchor(mark))
    &&& f.spec_root(anchor(mark)) == f.spec_root(anchor(here))
    &&& mark is InText ==> is_text(f, anchor(mark))
    &&& mark is BelowNode ==> !is_text(f, anchor(mark))
}

/// Where a node inserted at `l` goes among the parent's children.
pub open spec fn insert_pos(f: Forest, l: LocationInner) -> int {
    match l {
        LocationInner::AfterNode(n) => siblings_of(f, n).index_of(n) + 1,
        LocationInner::BeforeNode(n) => siblings_of(f, n).index_of(n),
        _ => 0,
    }
}

/// The sort that the child at position `pos` of `p` must satisfy, if
/// any: its slot's for a fixed branch, the list's for a list.
pub open spec fn required_sort(f: Forest, p: Index, pos: int) -> Option<Seq<char>> {
    let sl = f.nodes()[p].slots@;
    if f.nodes()[p].fixed {
        if 0 <= pos < sl.len() {
            Some(sl[pos]@)
        } else {
            None
        }
    } else if sl.len() > 0 {
        Some(sl[0]@)
    } else {
        None
    }
}

/// `new` satisfies the sort its place at `l` requires: any node fits the
/// universal sort, and otherwise the sorts must be the same.
pub open spec fn sort_fits(f: Forest, l: LocationInner, new: Index) -> bool {
    match spec_parent_node(f, l) {
        None => true,
        Some(p) => match required_sort(f, p, insert_pos(f, l)) {
            None => true,
            Some(r) => r == any_sort() || r == f.nodes()[new].sort@,
        },
    }
}

fn fits_slot(parent: Node, pos: usize, new: Node, f: &Forest) -> (r: bool)
    requires
        f.nodes().contains_key(parent.0),
        f.nodes().contains_key(new.0),
    ensures
        r == match required_sort(*f, parent.0, pos as int) {
            None => true,
            Some(s) => s == any_sort() || s == f.nodes()[new.0].sort@,
        },
{
    let sl = parent.slots(f);
    let req = if parent.is_fixed(f) {
        if pos < sl.len() {
            Some(&sl[pos])
        } else {
            None
        }
    } else if sl.len() > 0 {
        Some(&sl[0])
    } else {
        None
    };
    match req {
        None => true,
        Some(s) => is_any(s) || *s == *new.sort(f),
    }
}

/// Whether inserting `new` at `l` succeeds: the place lies among some
/// node's children; in a fixed branch there must be a node on the right
/// to swap out; and `new` must come from another tree.
pub open spec fn can_insert(f: Forest, l: LocationInner, new: Index) -> bool {
    sort_fits(f, l, new) && match spec_parent_node(f, l) {
        None => false,
        Some(p) => if f.nodes()[p].fixed {
            match spec_right_node(f, l) {
                Some(right) => f.spec_root(new) != f.spec_root(right),
                None => false,
            }
        } else {
            f.spec_root(new) != f.spec_root(p)
        },
    }
}

/// The neighbor that `delete_neighbor` removes.
pub open spec fn neighbor(f: Forest, l: LocationInner, on_left: bool) -> Option<Index> {
    if on_left {
        spec_left_node(l)
    } else {
        spec_right_node(f, l)
    }
}

/// What `Location::insert` does: from `f0` with the cursor at `l0`,
/// inserting `new` leaves the forest `f1`, the cursor at `l1`, and returns
/// `r`.
pub open spec fn insert_done(
    f0: Forest,
    l0: LocationInner,
    new: Index,
    f1: Forest,
    l1: LocationInner,
    r: Result<Option<Node>, ()>,
) -> bool {
    &&& f1.wf()
    &&& forall|n: Index| #[trigger] f0.nodes().contains_key(n) ==> f1.nodes().contains_key(n)
    &&& r is Ok <==> can_insert(f0, l0, new)
    &&& r is Err ==> f1 == f0 && l1 == l0
    &&& r is Ok ==> l1 == LocationInner::AfterNode(new) && is_normal(f1, l1)
    &&& r is Ok ==> ({
        let p = spec_parent_node(f0, l0)->0;
        let pos = insert_pos(f0, l0);
        if f0.nodes()[p].fixed {
            &&& r matches Ok(Some(x)) && Some(x.0) == spec_right_node(f0, l0)
                && f1.nodes()[x.0].parent == f0.nodes()[new].parent
            &&& kids(f1.nodes()[p]) == kids(f0.nodes()[p]).update(pos, new)
            &&& kids(f1.nodes()[p]).len() == kids(f0.nodes()[p]).len()
        } else {
            &&& r matches Ok(None)
            &&& 0 <= pos <= kids(f0.nodes()[p]).len()
            &&& kids(f1.nodes()[p]) == kids(f0.nodes()[p]).insert(pos, new)
            &&& parent_of(f1, new) == Some(p)
            &&& !f1.nodes()[p].fixed
        }
    })
}

/// What `Location::delete_neighbor` does: from `f0` with the cursor at
/// `l0`, removing the neighbor on the left (or right) leaves the forest
/// `f1` and returns `r`.
pub open spec fn delete_done(
    f0: Forest,
    l0: LocationInner,
    on_left: bool,
    f1: Forest,
    r: Option<Node>,
) -> bool {
    &&& f1.wf()
    &&& forall|n: Index| #[trigger] f0.nodes().contains_key(n) ==> f1.nodes().contains_key(n)
    &&& r is Some <==> spec_parent_node(f0, l0) is Some && neighbor(f0, l0, on_left) is Some
    &&& r is None ==> f1 == f0
    &&& r matches Some(x) ==> ({
        let p = spec_parent_node(f0, l0)->0;
        let i = siblings_of(f0, x.0).index_of(x.0);
        &&& Some(x.0) == neighbor(f0, l0, on_left)
        &&& f1.nodes().contains_key(x.0)
        &&& f1.nodes()[x.0].parent is None
        &&& if f0.nodes()[p].fixed {
            &&& kids(f1.nodes()[p]).len() == kids(f0.nodes()[p]).len()
            &&& !f0.nodes().contains_key(kids(f1.nodes()[p])[i])
            &&& f1.nodes()[kids(f1.nodes()[p])[i]].data@ == seq!['?']
            &&& f1.nodes()[kids(f1.nodes()[p])[i]].fixed
            &&& f1.nodes()[kids(f1.nodes()[p])[i]].children is Branch
            &&& kids(f1.nodes()[kids(f1.nodes()[p])[i]]).len() == 0
            &&& kids(f1.nodes()[p]) == kids(f0.nodes()[p]).update(i, kids(f1.nodes()[p])[i])
        } else {
            kids(f1.nodes()[p]) == kids(f0.nodes()[p]).remove(i)
        }
    })
}

/// A place already in normal form is its own normal form.
pub proof fn lemma_normal_is_fixed_point(f: Forest, l: LocationInner)
    requires
        is_normal(f, l),
    ensures
        normalize(f, l) == l,
{
}

/// Inserting a node into a list and then deleting the node left of the
/// cursor hands back the inserted node and gives the list its children
/// back as they were.
pub proof fn lemma_insert_then_backspace(
    f0: Forest,
    l0: LocationInner,
    new: Index,
    f1: Forest,
    l1: LocationInner,
    r1: Result<Option<Node>, ()>,
    f2: Forest,
    r2: Option<Node>,
)
    requires
        f0.wf(),
        is_normal(f0, l0),
        f0.nodes().contains_key(new),
        insert_done(f0, l0, new, f1, l1, r1),
        r1 is Ok,
        !f0.nodes()[spec_parent_node(f0, l0)->0].fixed,
        delete_done(f1, l1, true, f2, r2),
    ensures
        r2 matches Some(x) && x.0 == new,
        kids(f2.nodes()[spec_parent_node(f0, l0)->0]) == kids(
            f0.nodes()[spec_parent_node(f0, l0)->0],
        ),
{
    let p = spec_parent_node(f0, l0)->0;
    let pos = insert_pos(f0, l0);
    let ks = kids(f0.nodes()[p]);
    crate::forest::lemma_sibling_position(&f1, new);
    assert(kids(f1.nodes()[p])[pos] == new);
    lemma_index_of_unique(kids(f1.nodes()[p]), pos);
    assert(ks.insert(pos, new).remove(pos) =~= ks);
}

/// Where each navigation step leads from `l`; `None` where there is no
/// such place.
pub open spec fn spec_prev(f: Forest, l: LocationInner) -> Option<LocationInner> {
    match l {
        LocationInner::AfterNode(n) => Some(normalize(f, LocationInner::BeforeNode(n))),
        _ => None,
    }
}

pub open spec fn spec_next(f: Forest, l: LocationInner) -> Option<LocationInner> {
    match l {
        LocationInner::AfterNode(n) => match next_sibling(f, n) {
            Some(m) => Some(LocationInner::AfterNode(m)),
            None => None,
        },
        LocationInner::BeforeNode(n) => Some(LocationInner::AfterNode(n)),
        _ => None,
    }
}

pub open spec fn spec_first(f: Forest, l: LocationInner) -> Option<LocationInner> {
    match l {
        LocationInner::InText(_, _) => None,
        LocationInner::AfterNode(n) => Some(
            normalize(f, LocationInner::BeforeNode(first_sibling(f, n))),
        ),
        _ => Some(l),
    }
}

pub open spec fn spec_last(f: Forest, l: LocationInner) -> Option<LocationInner> {
    match l {
        LocationInner::InText(_, _) => None,
        LocationInner::AfterNode(n) => Some(LocationInner::AfterNode(last_sibling(f, n))),
        LocationInner::BeforeNode(n) => Some(LocationInner::AfterNode(last_sibling(f, n))),
        _ => Some(l),
    }
}

pub open spec fn spec_before_parent(f: Forest, l: LocationInner) -> Option<LocationInner> {
    match spec_parent_node(f, l) {
        Some(p) => Some(normalize(f, LocationInner::BeforeNode(p))),
        None => None,
    }
}

pub open spec fn spec_after_parent(f: Forest, l: LocationInner) -> Option<LocationInner> {
    match spec_parent_node(f, l) {
        Some(p) => Some(LocationInner::AfterNode(p)),
        None => None,
    }
}

pub open spec fn spec_inorder_next(f: Forest, l: LocationInner) -> Option<LocationInner> {
    match spec_right_node(f, l) {
        Some(n) => match spec_before_children(f, n) {
            Some(l) => Some(l),
            None => Some(LocationInner::AfterNode(n)),
        },
        None => match spec_parent_node(f, l) {
            Some(p) => Some(LocationInner::AfterNode(p)),
            None => None,
        },
    }
}

pub open spec fn spec_inorder_prev(f: Forest, l: LocationInner) -> Option<LocationInner> {
    match spec_left_node(l) {
        Some(n) => match spec_after_children(f, n) {
            Some(l) => Some(l),
            None => Some(normalize(f, LocationInner::BeforeNode(n))),
        },
        None => match spec_parent_node(f, l) {
            Some(p) => Some(normalize(f, LocationInner::BeforeNode(p))),
            None => None,
        },
    }
}

pub open spec fn spec_enter_text(f: Forest, l: LocationInner) -> Option<LocationInner> {
    match l {
        LocationInner::AfterNode(n) => if is_text(f, n) {
            Some(LocationInner::InText(n, text_len(f, n) as usize))
        } else {
            None
        },
        _ => None,
    }
}

impl Location {
    /// The place just before `node`.
    pub fn before(node: Node, f: &Forest) -> (r: Location)
        requires
            f.wf(),
            f.nodes().contains_key(node.0),
        ensures
            r.0 == normalize(*f, LocationInner::BeforeNode(node.0)),
            is_normal(*f, r.0),
    {
        match node.prev_sibling(f) {
            Some(p) => Location(LocationInner::AfterNode(p.0)),
            None => Location(LocationInner::BeforeNode(node.0)),
        }
    }

    /// The place just after `node`.
    pub fn after(node: Node, f: &Forest) -> (r: Location)
        requires
            f.nodes().contains_key(node.0),
        ensures
            r.0 == LocationInner::AfterNode(node.0),
            is_normal(*f, r.0),
    {
        Location(LocationInner::AfterNode(node.0))
    }

    /// The place at the start of `node`'s children; `None` for a leaf.
    pub fn before_children(node: Node, f: &Forest) -> (r: Option<Location>)
        requires
            f.wf(),
            f.nodes().contains_key(node.0),
        ensures
            opt_inner(r) == spec_before_children(*f, node.0),
            r matches Some(l) ==> is_normal(*f, l.0),
    {
        if node.is_leaf(f) {
            return None;
        }
        let children = node.children(f);
        if children.len() == 0 {
            Some(Location(LocationInner::BelowNode(node.0)))
        } else {
            proof {
                lemma_kth_child(f, node.0, 0);
            }
            Some(Location(LocationInner::BeforeNode(children[0])))
        }
    }

    /// The place at the end of `node`'s children; `None` for a leaf.
    pub fn after_children(node: Node, f: &Forest) -> (r: Option<Location>)
        requires
            f.wf(),
            f.nodes().contains_key(node.0),
        ensures
            opt_inner(r) == spec_after_children(*f, node.0),
            r matches Some(l) ==> is_normal(*f, l.0),
    {
        if node.is_leaf(f) {
            return None;
        }
        let children = node.children(f);
        let n = children.len();
        if n == 0 {
            Some(Location(LocationInner::BelowNode(node.0)))
        } else {
            proof {
                lemma_kth_child(f, node.0, n - 1);
            }
            Some(Location(LocationInner::AfterNode(children[n - 1])))
        }
    }

    /// Text mode inside text, tree mode elsewhere.
    pub fn mode(self) -> (r: Mode)
        ensures
            r == spec_mode(self.0),
    {
        match self.0 {
            LocationInner::InText(_, _) => Mode::Text,
            _ => Mode::Tree,
        }
    }

    /// The leaf and char index, when in text.
    pub fn text_pos(self) -> (r: Option<(Node, usize)>)
        ensures
            self.0 matches LocationInner::InText(n, i) ==> r matches Some((m, j)) && m.0 == n
                && j == i,
            !(self.0 is InText) ==> r is None,
    {
        match self.0 {
            LocationInner::InText(n, i) => Some((Node(n), i)),
            _ => None,
        }
    }

    /// The nodes on either side of the cursor, which a printer draws as
    /// its two halves: none inside text.
    pub fn cursor_halves(self, f: &Forest) -> (r: (Option<Node>, Option<Node>))
        requires
            f.wf(),
            is_normal(*f, self.0),
        ensures
            opt_index(r.0) == spec_left_node(self.0),
            opt_index(r.1) == spec_right_node(*f, self.0),
    {
        (self.left_node(f), self.right_node(f))
    }

    /// The node left of this place, if any.
    pub fn left_node(self, _f: &Forest) -> (r: Option<Node>)
        ensures
            opt_index(r) == spec_left_node(self.0),
    {
        match self.0 {
            LocationInner::AfterNode(n) => Some(Node(n)),
            _ => None,
        }
    }

    /// The node right of this place, if any.
    pub fn right_node(self, f: &Forest) -> (r: Option<Node>)
        requires
            f.wf(),
            is_normal(*f, self.0),
        ensures
            opt_index(r) == spec_right_node(*f, self.0),
            r matches Some(n) ==> f.nodes().contains_key(n.0),
    {
        match self.0 {
            LocationInner::AfterNode(n) => Node(n).next_sibling(f),
            LocationInner::BeforeNode(n) => Some(Node(n)),
            _ => None,
        }
    }

    /// The node whose children this place lies among, if any.
    pub fn parent_node(self, f: &Forest) -> (r: Option<Node>)
        requires
            f.wf(),
            is_normal(*f, self.0),
        ensures
            opt_index(r) == spec_parent_node(*f, self.0),
            r matches Some(n) ==> f.nodes().contains_key(n.0),
    {
        match self.0 {
            LocationInner::InText(_, _) => None,
            LocationInner::AfterNode(n) => {
                proof {
                    if parent_of(*f, n) is Some {
                        crate::forest::lemma_sibling_position(f, n);
                    }
                }
                Node(n).parent(f)
            },
            LocationInner::BeforeNode(n) => {
                proof {
                    if parent_of(*f, n) is Some {
                        crate::forest::lemma_sibling_position(f, n);
                    }
                }
                Node(n).parent(f)
            },
            LocationInner::BelowNode(n) => Some(Node(n)),
        }
    }

    /// The root of the tree this place lies in.
    pub fn root_node(self, f: &Forest) -> (r: Node)
        requires
            f.wf(),
            is_normal(*f, self.0),
        ensures
            r.0 == f.spec_root(anchor(self.0)),
    {
        let n = match self.0 {
            LocationInner::InText(n, _) => n,
            LocationInner::AfterNode(n) => n,
            LocationInner::BeforeNode(n) => n,
            LocationInner::BelowNode(n) => n,
        };
        Node(n).root(f)
    }

    /// The place before this one among the same siblings.
    pub fn prev(self, f: &Forest) -> (r: Option<Location>)
        requires
            f.wf(),
            is_normal(*f, self.0),
        ensures
            opt_inner(r) == spec_prev(*f, self.0),
            r matches Some(l) ==> is_normal(*f, l.0),
    {
        match self.0 {
            LocationInner::AfterNode(n) => Some(Location::before(Node(n), f)),
            _ => None,
        }
    }

    /// The place after this one among the same siblings.
    pub fn next(self, f: &Forest) -> (r: Option<Location>)
        requires
            f.wf(),
            is_normal(*f, self.0),
        ensures
            opt_inner(r) == spec_next(*f, self.0),
            r matches Some(l) ==> is_normal(*f, l.0),
    {
        match self.0 {
            LocationInner::AfterNode(n) => match Node(n).next_sibling(f) {
                Some(m) => Some(Location::after(m, f)),
                None => None,
            },
            LocationInner::BeforeNode(n) => Some(Location::after(Node(n), f)),
            _ => None,
        }
    }

    /// The first place among the same siblings.
    pub fn first(self, f: &Forest) -> (r: Option<Location>)
        requires
            f.wf(),
            is_normal(*f, self.0),
        ensures
            opt_inner(r) == spec_first(*f, self.0),
            r matches Some(l) ==> is_normal(*f, l.0),
    {
        match self.0 {
            LocationInner::InText(_, _) => None,
            LocationInner::AfterNode(n) => Some(Location::before(Node(n).first_sibling(f), f)),
            _ => Some(self),
        }
    }

    /// The last place among the same siblings.
    pub fn last(self, f: &Forest) -> (r: Option<Location>)
        requires
            f.wf(),
            is_normal(*f, self.0),
        ensures
            opt_inner(r) == spec_last(*f, self.0),
            r matches Some(l) ==> is_normal(*f, l.0),
    {
        match self.0 {
            LocationInner::InText(_, _) => None,
            LocationInner::AfterNode(n) => Some(Location::after(Node(n).last_sibling(f), f)),
            LocationInner::BeforeNode(n) => Some(Location::after(Node(n).last_sibling(f), f)),
            _ => Some(self),
        }
    }

    /// The place just before the parent node.
    pub fn before_parent(self, f: &Forest) -> (r: Option<Location>)
        requires
            f.wf(),
            is_normal(*f, self.0),
        ensures
            opt_inner(r) == spec_before_parent(*f, self.0),
            r matches Some(l) ==> is_normal(*f, l.0),
    {
        match self.parent_node(f) {
            Some(p) => Some(Location::before(p, f)),
            None => None,
        }
    }

    /// The place just after the parent node.
    pub fn after_parent(self, f: &Forest) -> (r: Option<Location>)
        requires
            f.wf(),
            is_normal(*f, self.0),
        ensures
            opt_inner(r) == spec_after_parent(*f, self.0),
            r matches Some(l) ==> is_normal(*f, l.0),
    {
        match self.parent_node(f) {
            Some(p) => Some(Location::after(p, f)),
            None => None,
        }
    }

    /// The next place in an inorder walk of the tree: into the node on
    /// the right, past it if it is a leaf, or out of the parent at the end.
    pub fn inorder_next(self, f: &Forest) -> (r: Option<Location>)
        requires
            f.wf(),
            is_normal(*f, self.0),
        ensures
            opt_inner(r) == spec_inorder_next(*f, self.0),
            r matches Some(l) ==> is_normal(*f, l.0),
    {
        match self.right_node(f) {
            Some(right) => match Location::before_children(right, f) {
                Some(l) => Some(l),
                None => Some(Location::after(right, f)),
            },
            None => self.after_parent(f),
        }
    }

    /// The previous place in an inorder walk of the tree.
    pub fn inorder_prev(self, f: &Forest) -> (r: Option<Location>)
        requires
            f.wf(),
            is_normal(*f, self.0),
        ensures
            opt_inner(r) == spec_inorder_prev(*f, self.0),
            r matches Some(l) ==> is_normal(*f, l.0),
    {
        match self.left_node(f) {
            Some(left) => match Location::after_children(left, f) {
                Some(l) => Some(l),
                None => Some(Location::before(left, f)),
            },
            None => self.before_parent(f),
        }
    }

    /// From just after a leaf, the place at the end of its text.
    pub fn enter_text(self, f: &Forest) -> (r: Option<Location>)
        requires
            f.wf(),
            is_normal(*f, self.0),
        ensures
            opt_inner(r) == spec_enter_text(*f, self.0),
            r matches Some(l) ==> is_normal(*f, l.0),
    {
        match self.0 {
            LocationInner::AfterNode(n) => {
                if Node(n).is_leaf(f) {
                    let len = Node(n).text_len(f);
                    Some(Location(LocationInner::InText(n, len)))
                } else {
                    None
                }
            },
            _ => None,
        }
    }

    /// From inside a leaf's text, the place just after the leaf.
    pub fn exit_text(self) -> (r: Option<Location>)
        ensures
            opt_inner(r) == match self.0 {
                LocationInner::InText(n, _) => Some(LocationInner::AfterNode(n)),
                _ => None,
            },
    {
        match self.0 {
            LocationInner::InText(n, _) => Some(Location(LocationInner::AfterNode(n))),
            _ => None,
        }
    }

    /// Insert `new_node` here, and move just after it. In a fixed branch
    /// it takes the place of the node on the right, which is returned,
    /// detached; in a list it is added. Fails, changing nothing, per
    /// `can_insert`.
    #[verifier::rlimit(40)]
    pub fn insert(&mut self, new_node: Node, f: &mut Forest) -> (r: Result<Option<Node>, ()>)
        requires
            old(f).wf(),
            is_normal(*old(f), old(self).0),
            old(f).nodes().contains_key(new_node.0),
        ensures
            insert_done(*old(f), old(self).0, new_node.0, *final(f), final(self).0, r),
    {
        let ghost l = self.0;
        let parent = match self.parent_node(f) {
            Some(p) => p,
            None => {
                return Err(());
            },
        };
        proof {
            match l {
                LocationInner::AfterNode(n) => {
                    if parent_of(*f, n) is Some {
                        crate::forest::lemma_sibling_position(f, n);
                    }
                },
                LocationInner::BeforeNode(n) => {
                    if parent_of(*f, n) is Some {
                        crate::forest::lemma_sibling_position(f, n);
                    }
                },
                _ => {},
            }
        }
        let pos0: usize = match self.0 {
            LocationInner::AfterNode(left) => {
                let i = position(Node(left), f);
                let n = parent.children(f).len();
                if i < n {
                    i + 1
                } else {
                    n
                }
            },
            LocationInner::BeforeNode(right) => position(Node(right), f),
            _ => 0,
        };
        if !fits_slot(parent, pos0, new_node, f) {
            return Err(());
        }
        if parent.is_fixed(f) {
            let right = match self.right_node(f) {
                Some(n) => n,
                None => {
                    return Err(());
                },
            };
            proof {
                match l {
                    LocationInner::AfterNode(n) => {
                        let i = siblings_of(*f, n).index_of(n);
                        lemma_kth_child(f, parent.0, i + 1);
                    },
                    LocationInner::BeforeNode(n) => {
                        crate::forest::lemma_sibling_position(f, n);
                        let i = siblings_of(*f, n).index_of(n);
                        lemma_kth_child(f, parent.0, i);
                    },
                    _ => {},
                }
            }
            if new_node.swap(f, right) {
                *self = Location::after(new_node, f);
                Ok(Some(right))
            } else {
                Err(())
            }
        } else {
            let pos: usize = match self.0 {
                LocationInner::AfterNode(left) => {
                    let i = position(Node(left), f);
                    let n = parent.children(f).len();
                    if i < n {
                        i + 1
                    } else {
                        n
                    }
                },
                LocationInner::BeforeNode(right) => position(Node(right), f),
                _ => 0,
            };
            proof {
                assert(!is_text(*f, parent.0));
                if l is BelowNode {
                    assert(kids(f.nodes()[parent.0]).len() == 0);
                }
            }
            if parent.insert_child(f, pos, new_node) {
                *self = Location::after(new_node, f);
                Ok(None)
            } else {
                Err(())
            }
        }
    }

    /// Remove the node on one side of this place: in a fixed branch it is
    /// swapped for a new hole; in a list it is detached. Returns the removed
    /// node, now a root; `None`, changing nothing, when there is no such
    /// node. The place itself is left as it is.
    #[verifier::rlimit(40)]
    pub fn delete_neighbor(&mut self, on_left: bool, f: &mut Forest) -> (r: Option<Node>)
        requires
            old(f).wf(),
            is_normal(*old(f), old(self).0),
        ensures
            final(self).0 == old(self).0,
            delete_done(*old(f), old(self).0, on_left, *final(f), r),
    {
        let parent = match self.parent_node(f) {
            Some(p) => p,
            None => {
                return None;
            },
        };
        let node = if on_left {
            match self.left_node(f) {
                Some(n) => n,
                None => {
                    return None;
                },
            }
        } else {
            match self.right_node(f) {
                Some(n) => n,
                None => {
                    return None;
                },
            }
        };
        proof {
            assert(f.nodes().contains_key(node.0));
            assert(parent_of(*f, node.0) == Some(parent.0)) by {
                match self.0 {
                    LocationInner::AfterNode(n) => {
                        if !on_left {
                            crate::forest::lemma_sibling_position(f, n);
                            let i = siblings_of(*f, n).index_of(n);
                            lemma_kth_child(f, parent.0, i + 1);
                        }
                    },
                    _ => {},
                }
            }
            crate::forest::lemma_sibling_position(f, node.0);
        }
        if parent.is_fixed(f) {
            proof {
                reveal_strlit("?");
            }
            let mark = "?".to_owned();
            assert(mark@ == seq!['?']);
            let hole = f.new_fixed_branch(mark, 0);
            proof {
                assert(f.spec_root(hole.0) == hole.0);
                crate::forest::lemma_desc_has_kids(f, node.0, hole.0);
                crate::forest::lemma_sibling_position(f, node.0);
            }
            let ghost f_mid = *f;
            let _ = node.swap(f, hole);
            proof {
                let q = parent.0;
                let i = kids(f_mid.nodes()[q]).index_of(node.0);
                assert(0 <= i < kids(f_mid.nodes()[q]).len());
                assert(kids(f.nodes()[q])[i] == hole.0);
                assert(f.nodes()[hole.0].data@ == seq!['?']);
            }
            Some(node)
        } else {
            node.detach(f);
            Some(node)
        }
    }

    pub open spec fn bookmark_spec(self) -> Bookmark {
        Bookmark(self.0)
    }

    /// Save this place to come back to later.
    pub fn bookmark(self) -> (r: Bookmark)
        ensures
            r == self.bookmark_spec(),
    {
        Bookmark(self.0)
    }

    /// The place of a saved bookmark, if its node is still alive and in
    /// the same tree as this place, in normal form for the forest as it is
    /// now. `None` otherwise.
    pub fn validate_bookmark(self, mark: Bookmark, f: &Forest) -> (r: Option<Location>)
        requires
            f.wf(),
            is_normal(*f, self.0),
        ensures
            r is Some <==> bookmark_ok(*f, self.0, mark.0),
            r matches Some(l) ==> l.0 == normalize(*f, mark.0) && is_normal(*f, l.0),
    {
        let node = Node(
            match mark.0 {
                LocationInner::InText(n, _) => n,
                LocationInner::AfterNode(n) => n,
                LocationInner::BeforeNode(n) => n,
                LocationInner::BelowNode(n) => n,
            },
        );
        if !node.is_valid(f) {
            return None;
        }
        if node.root(f).0 != self.root_node(f).0 {
            return None;
        }
        match mark.0 {
            LocationInner::InText(n, i) => {
                if !node.is_leaf(f) {
                    return None;
                }
                let len = node.text_len(f);
                Some(Location(LocationInner::InText(n, if i <= len { i } else { len })))
            },
            LocationInner::AfterNode(_) => Some(Location(mark.0)),
            LocationInner::BeforeNode(_) => Some(Location::before(node, f)),
            LocationInner::BelowNode(_) => {
                if node.is_leaf(f) {
                    return None;
                }
                match Location::after_children(node, f) {
                    Some(l) => Some(l),
                    None => None,
                }
            },
        }
    }
}

} // verus!
