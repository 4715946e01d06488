use vstd::prelude::*;

use generational_arena::{Arena, Index};

verus! {

#[verifier::external_type_specification]
#[verifier::external_body]
pub struct ExIndex(Index);

#[verifier::external_type_specification]
#[verifier::external_body]
#[verifier::reject_recursive_types(T)]
pub struct ExArena<T>(Arena<T>);

/// `Index` derives `PartialEq` over its slot and generation: equal handles
/// are equal values.
pub assume_specification[ <Index as PartialEq>::eq ](a: &Index, b: &Index) -> (r: bool)
    ensures
        r == (*a == *b),
;

/// What a branch or leaf holds below it.
#[derive(Debug)]
pub enum NodeChildren {
    Leaf(String),
    Branch(Vec<Index>),
}

/// One node of the arena: its parent, its data and its children. A fixed
/// branch has a set number of slots, which edits swap but never add or
/// remove; other branches hold a list of any length.
#[derive(Debug)]
pub struct NodeContents {
    pub parent: Option<Index>,
    pub data: String,
    pub fixed: bool,
    pub children: NodeChildren,
    /// The sort this node satisfies.
    pub sort: String,
    /// The sorts its children must satisfy: one per slot of a fixed
    /// branch; for a list, the first applies to every child. None given
    /// means no requirement.
    pub slots: Vec<String>,
}

/// The nodes that an arena holds, by handle.
pub uninterp spec fn arena_nodes(a: Arena<NodeContents>) -> Map<Index, NodeContents>;

/// Relies on Arena::new: a new arena holds nothing.
#[verifier::external_body]
fn arena_new() -> (r: Arena<NodeContents>)
    ensures
        arena_nodes(r).dom() =~= Set::empty(),
{
    Arena::new()
}

/// Relies on Arena::insert: the value is stored under a handle that the
/// arena did not hold.
#[verifier::external_body]
fn arena_insert(a: &mut Arena<NodeContents>, value: NodeContents) -> (r: Index)
    ensures
        !arena_nodes(*old(a)).contains_key(r),
        arena_nodes(*final(a)) == arena_nodes(*old(a)).insert(r, value),
{
    a.insert(value)
}

/// Relies on Arena::get: the value stored under the handle, if any.
#[verifier::external_body]
fn arena_get(a: &Arena<NodeContents>, i: Index) -> (r: Option<&NodeContents>)
    ensures
        r is Some <==> arena_nodes(*a).contains_key(i),
        r matches Some(v) ==> *v == arena_nodes(*a)[i],
{
    a.get(i)
}

/// Relies on Arena::contains: whether a value is stored under the handle.
#[verifier::external_body]
fn arena_contains(a: &Arena<NodeContents>, i: Index) -> (r: bool)
    ensures
        r == arena_nodes(*a).contains_key(i),
{
    a.contains(i)
}

/// Relies on Arena::remove: the value under the handle leaves the arena.
#[verifier::external_body]
fn arena_remove(a: &mut Arena<NodeContents>, i: Index) -> (r: Option<NodeContents>)
    ensures
        arena_nodes(*old(a)).contains_key(i) ==> r == Some(arena_nodes(*old(a))[i]),
        !arena_nodes(*old(a)).contains_key(i) ==> r is None,
        arena_nodes(*final(a)) == arena_nodes(*old(a)).remove(i),
{
    a.remove(i)
}

/// Relies on Arena::iter: it yields the handle of each stored value once.
#[verifier::external_body]
fn arena_handles(a: &Arena<NodeContents>) -> (r: Vec<Index>)
    ensures
        r@.no_duplicates(),
        forall|i: Index| r@.contains(i) <==> arena_nodes(*a).contains_key(i),
{
    a.iter().map(|(i, _)| i).collect()
}

/// Relies on Arena::get_mut: the value stored under the handle, to be
/// changed in place.
#[verifier::external_body]
fn arena_get_mut(a: &mut Arena<NodeContents>, i: Index) -> (r: Option<&mut NodeContents>)
    ensures
        r is Some <==> arena_nodes(*old(a)).contains_key(i),
        r is None ==> arena_nodes(*final(a)) == arena_nodes(*old(a)),
        r matches Some(v) ==> *v == arena_nodes(*old(a))[i] && arena_nodes(*final(a))
            == arena_nodes(*old(a)).insert(i, *final(v)),
{
    a.get_mut(i)
}

/// The children of a node, in order; none for a leaf.
pub open spec fn kids(c: NodeContents) -> Seq<Index> {
    match c.children {
        NodeChildren::Branch(v) => v@,
        NodeChildren::Leaf(_) => Seq::empty(),
    }
}

/// `n`'s parent, if any, holds `n` among its children and ranks below it.
pub open spec fn parent_ok(m: Map<Index, NodeContents>, rank: Map<Index, nat>, n: Index) -> bool {
    match m[n].parent {
        None => true,
        Some(p) => {
            &&& m.contains_key(p)
            &&& m[p].children is Branch
            &&& kids(m[p]).contains(n)
            &&& rank.contains_key(p)
            &&& rank[p] < rank[n]
        },
    }
}

/// Each child of `n` is held in the arena, appears once, and names `n` as
/// its parent.
pub open spec fn kids_ok(m: Map<Index, NodeContents>, n: Index) -> bool {
    &&& kids(m[n]).no_duplicates()
    &&& forall|i: int|
        0 <= i < kids(m[n]).len() ==> m.contains_key(#[trigger] kids(m[n])[i]) && m[kids(
            m[n],
        )[i]].parent == Some(n)
}

/// Parent and child links agree, and `rank` orders every parent below its
/// children.
pub open spec fn wf_nodes(m: Map<Index, NodeContents>, rank: Map<Index, nat>) -> bool {
    &&& forall|n: Index| #[trigger] m.contains_key(n) ==> rank.contains_key(n)
    &&& forall|n: Index| #[trigger] m.contains_key(n) ==> parent_ok(m, rank, n)
    &&& forall|n: Index| #[trigger] m.contains_key(n) ==> kids_ok(m, n)
}

/// `roots` lists each node without a parent, once.
pub open spec fn roots_ok(m: Map<Index, NodeContents>, roots: Seq<Index>) -> bool {
    &&& roots.no_duplicates()
    &&& forall|n: Index|
        #![trigger roots.contains(n)]
        #![trigger m.contains_key(n)]
        roots.contains(n) <==> (m.contains_key(n) && m[n].parent is None)
}

/// The root of the tree that holds `n`: follow parents while they rank
/// lower. In a well-formed forest every parent does.
pub open spec fn root_of(m: Map<Index, NodeContents>, rank: Map<Index, nat>, n: Index) -> Index
    decreases rank[n],
{
    if m.contains_key(n) && m[n].parent is Some && rank.contains_key(m[n].parent->0)
        && rank[m[n].parent->0] < rank[n] {
        root_of(m, rank, m[n].parent->0)
    } else {
        n
    }
}

/// `d` is `a` or lies below it.
pub open spec fn is_desc(m: Map<Index, NodeContents>, rank: Map<Index, nat>, d: Index, a: Index) -> bool
    decreases rank[d],
{
    if d == a {
        true
    } else if m.contains_key(d) && m[d].parent is Some && rank.contains_key(m[d].parent->0)
        && rank[m[d].parent->0] < rank[d] {
        is_desc(m, rank, m[d].parent->0, a)
    } else {
        false
    }
}

proof fn lemma_remove_at(s: Seq<Index>, i: int)
    requires
        s.no_duplicates(),
        0 <= i < s.len(),
    ensures
        s.remove(i).no_duplicates(),
        !s.remove(i).contains(s[i]),
        forall|x: Index| x != s[i] && s.contains(x) ==> s.remove(i).contains(x),
        forall|j: int| 0 <= j < s.remove(i).len() ==> s.contains(#[trigger] s.remove(i)[j]),
{
    let r = s.remove(i);
    assert forall|x: Index| x != s[i] && s.contains(x) implies r.contains(x) by {
        let k = choose|k: int| 0 <= k < s.len() && s[k] == x;
        if k < i {
            assert(r[k] == x);
        } else {
            assert(r[k - 1] == x);
        }
    }
    assert forall|j: int| 0 <= j < r.len() implies s.contains(#[trigger] r[j]) by {
        if j < i {
            assert(s[j] == r[j]);
        } else {
            assert(s[j + 1] == r[j]);
        }
    }
}

proof fn lemma_root_step(m: Map<Index, NodeContents>, rank: Map<Index, nat>, n: Index)
    requires
        wf_nodes(m, rank),
        m.contains_key(n),
        m[n].parent is Some,
    ensures
        root_of(m, rank, n) == root_of(m, rank, m[n].parent->0),
{
    assert(parent_ok(m, rank, n));
}

proof fn lemma_root_is_root(m: Map<Index, NodeContents>, rank: Map<Index, nat>, n: Index)
    requires
        wf_nodes(m, rank),
        m.contains_key(n),
    ensures
        m.contains_key(root_of(m, rank, n)),
        m[root_of(m, rank, n)].parent is None,
    decreases rank[n],
{
    assert(parent_ok(m, rank, n));
    if m[n].parent is Some {
        lemma_root_is_root(m, rank, m[n].parent->0);
    }
}

proof fn lemma_desc_same_root(m: Map<Index, NodeContents>, rank: Map<Index, nat>, d: Index, a: Index)
    requires
        wf_nodes(m, rank),
        m.contains_key(d),
        is_desc(m, rank, d, a),
    ensures
        root_of(m, rank, d) == root_of(m, rank, a),
    decreases rank[d],
{
    assert(parent_ok(m, rank, d));
    if d != a {
        lemma_desc_same_root(m, rank, m[d].parent->0, a);
    }
}

/// Cutting `a` loose from its parent makes it the root of exactly its
/// descendants; the others keep their roots.
proof fn lemma_cut_roots(
    m0: Map<Index, NodeContents>,
    m1: Map<Index, NodeContents>,
    rank: Map<Index, nat>,
    a: Index,
    x: Index,
)
    requires
        wf_nodes(m0, rank),
        wf_nodes(m1, rank),
        m0.dom() == m1.dom(),
        m0.contains_key(x),
        m1[a].parent is None,
        forall|n: Index| n != a ==> #[trigger] m1[n].parent == m0[n].parent,
    ensures
        is_desc(m0, rank, x, a) ==> root_of(m1, rank, x) == a,
        !is_desc(m0, rank, x, a) ==> root_of(m1, rank, x) == root_of(m0, rank, x),
    decreases rank[x],
{
    assert(parent_ok(m0, rank, x));
    assert(parent_ok(m1, rank, x));
    if x != a && m0[x].parent is Some {
        lemma_cut_roots(m0, m1, rank, a, m0[x].parent->0);
    }
}

/// The ranking after the tree rooted at `a` goes below a node of rank
/// `k - 1`: that tree's ranks rise by `k`.
pub open spec fn shifted(m: Map<Index, NodeContents>, rank: Map<Index, nat>, a: Index, k: nat) -> Map<
    Index,
    nat,
> {
    Map::new(
        |d: Index| rank.contains_key(d),
        |d: Index|
            if root_of(m, rank, d) == a {
                rank[d] + k
            } else {
                rank[d]
            },
    )
}

/// What holds of the nodes once the root `a` becomes child `ci` of `p`.
pub open spec fn attached(
    m1: Map<Index, NodeContents>,
    m2: Map<Index, NodeContents>,
    p: Index,
    a: Index,
    ci: int,
) -> bool {
    &&& m2.dom() == m1.dom()
    &&& m2[p].parent == m1[p].parent
    &&& m2[p].sort == m1[p].sort
    &&& m2[p].children is Branch
    &&& kids(m2[p]) == kids(m1[p]).insert(ci, a)
    &&& m2[a].parent == Some(p)
    &&& kids(m2[a]) == kids(m1[a])
    &&& m2[a].children is Branch == m1[a].children is Branch
    &&& m2[a].children == m1[a].children
    &&& m2[a].data == m1[a].data
    &&& forall|n: Index| n != p && n != a ==> #[trigger] m2[n] == m1[n]
}

#[verifier::rlimit(50)]
proof fn lemma_attach(
    m1: Map<Index, NodeContents>,
    m2: Map<Index, NodeContents>,
    rank: Map<Index, nat>,
    p: Index,
    a: Index,
    ci: int,
)
    requires
        wf_nodes(m1, rank),
        m1.contains_key(p),
        m1.contains_key(a),
        m1[a].parent is None,
        m1[p].children is Branch,
        root_of(m1, rank, p) != a,
        0 <= ci <= kids(m1[p]).len(),
        attached(m1, m2, p, a, ci),
    ensures
        wf_nodes(m2, shifted(m1, rank, a, rank[p] + 1)),
{
    let rank2 = shifted(m1, rank, a, rank[p] + 1);
    assert(kids_ok(m1, p));
    assert(!kids(m1[p]).contains(a));
    assert(root_of(m1, rank, a) == a);
    assert(kids(m2[p])[ci] == a);
    assert forall|n: Index| #[trigger] m2.contains_key(n) implies parent_ok(m2, rank2, n) by {
        assert(parent_ok(m1, rank, n));
        assert(rank2.contains_key(n));
        if n == a {
            assert(rank2[p] == rank[p]);
            assert(rank2[a] == rank[a] + rank[p] + 1);
        } else {
            match m1[n].parent {
                Some(q) => {
                    lemma_root_step(m1, rank, n);
                    if q == p {
                        let j = choose|j: int| 0 <= j < kids(m1[q]).len() && kids(m1[q])[j] == n;
                        if j < ci {
                            assert(kids(m2[q])[j] == n);
                        } else {
                            assert(kids(m2[q])[j + 1] == n);
                        }
                    }
                },
                None => {},
            }
        }
    }
    assert forall|n: Index| #[trigger] m2.contains_key(n) implies kids_ok(m2, n) by {
        lemma_attach_kids(m1, m2, rank, p, a, ci, n);
    }
}

proof fn lemma_attach_kids(
    m1: Map<Index, NodeContents>,
    m2: Map<Index, NodeContents>,
    rank: Map<Index, nat>,
    p: Index,
    a: Index,
    ci: int,
    n: Index,
)
    requires
        wf_nodes(m1, rank),
        m1.contains_key(p),
        m1.contains_key(a),
        m1.contains_key(n),
        m1[a].parent is None,
        !kids(m1[p]).contains(a),
        0 <= ci <= kids(m1[p]).len(),
        attached(m1, m2, p, a, ci),
    ensures
        kids_ok(m2, n),
{
    assert(kids_ok(m1, n));
    let ks = kids(m2[n]);
    let old_ks = kids(m1[n]);
    if n == p {
        assert forall|j: int| 0 <= j < ks.len() implies m2.contains_key(#[trigger] ks[j])
            && m2[ks[j]].parent == Some(n) by {
            if j < ci {
                assert(ks[j] == old_ks[j]);
                assert(m1.contains_key(old_ks[j]));
            } else if j > ci {
                assert(ks[j] == old_ks[j - 1]);
                assert(m1.contains_key(old_ks[j - 1]));
            }
        }
        assert forall|x: int, y: int|
            0 <= x < ks.len() && 0 <= y < ks.len() && x != y implies ks[x] != ks[y] by {
            if x != ci && y != ci {
                let x0 = if x < ci {
                    x
                } else {
                    x - 1
                };
                let y0 = if y < ci {
                    y
                } else {
                    y - 1
                };
                assert(ks[x] == old_ks[x0]);
                assert(ks[y] == old_ks[y0]);
            } else if x == ci {
                let y0 = if y < ci {
                    y
                } else {
                    y - 1
                };
                assert(ks[y] == old_ks[y0]);
                assert(old_ks.contains(old_ks[y0]));
            } else {
                let x0 = if x < ci {
                    x
                } else {
                    x - 1
                };
                assert(ks[x] == old_ks[x0]);
                assert(old_ks.contains(old_ks[x0]));
            }
        }
    } else {
        assert forall|j: int| 0 <= j < ks.len() implies m2.contains_key(#[trigger] ks[j])
            && m2[ks[j]].parent == Some(n) by {
            assert(m1.contains_key(old_ks[j]));
        }
    }
}

/// The `k`th ancestor of `n`: `n` itself for `k == 0`, then its parent,
/// and so on; `None` past the root.
pub open spec fn ancestor(m: Map<Index, NodeContents>, n: Index, k: nat) -> Option<Index>
    decreases k,
{
    if k == 0 {
        Some(n)
    } else {
        match ancestor(m, n, (k - 1) as nat) {
            Some(x) => if m.contains_key(x) {
                m[x].parent
            } else {
                None
            },
            None => None,
        }
    }
}

/// In a well-formed forest every child of a live node names that node as
/// its parent.
pub proof fn lemma_child_names_parent(f: &Forest, n: Index, i: int)
    requires
        f.wf(),
        f.nodes().contains_key(n),
        0 <= i < kids(f.nodes()[n]).len(),
    ensures
        f.nodes().contains_key(kids(f.nodes()[n])[i]),
        f.nodes()[kids(f.nodes()[n])[i]].parent == Some(n),
{
    assert(kids_ok(f.nodes(), n));
}

/// A child's place among its parent's children is where it first appears.
pub proof fn lemma_sibling_position(f: &Forest, n: Index)
    requires
        f.wf(),
        f.nodes().contains_key(n),
        f.nodes()[n].parent is Some,
    ensures
        f.nodes().contains_key(f.nodes()[n].parent->0),
        kids(f.nodes()[f.nodes()[n].parent->0]).contains(n),
        kids(f.nodes()[f.nodes()[n].parent->0]).no_duplicates(),
{
    assert(parent_ok(f.nodes(), f.rank@, n));
    assert(kids_ok(f.nodes(), f.nodes()[n].parent->0));
}

/// Only a node with children has descendants other than itself.
pub proof fn lemma_desc_has_kids(f: &Forest, d: Index, a: Index)
    requires
        f.wf(),
        f.nodes().contains_key(d),
        d != a,
        kids(f.nodes()[a]).len() == 0,
    ensures
        f.spec_root(d) != a,
{
    lemma_root_desc(f.nodes(), f.rank@, d);
    if f.spec_root(d) == a {
        lemma_desc_kids(f.nodes(), f.rank@, d, a);
    }
}

proof fn lemma_desc_kids(m: Map<Index, NodeContents>, rank: Map<Index, nat>, d: Index, a: Index)
    requires
        wf_nodes(m, rank),
        m.contains_key(d),
        d != a,
        is_desc(m, rank, d, a),
    ensures
        kids(m[a]).len() > 0,
    decreases rank[d],
{
    assert(parent_ok(m, rank, d));
    let q = m[d].parent->0;
    if q == a {
        assert(kids(m[a]).contains(d));
    } else {
        lemma_desc_kids(m, rank, q, a);
    }
}

proof fn lemma_old_not_below_new(
    m0: Map<Index, NodeContents>,
    r0: Map<Index, nat>,
    m1: Map<Index, NodeContents>,
    r1: Map<Index, nat>,
    x: Index,
    a: Index,
)
    requires
        wf_nodes(m0, r0),
        wf_nodes(m1, r1),
        m0.contains_key(x),
        !m0.contains_key(a),
        forall|y: Index| #[trigger] m0.contains_key(y) ==> m1.contains_key(y) && m1[y] == m0[y],
    ensures
        !is_desc(m1, r1, x, a),
    decreases r1[x],
{
    assert(m1.contains_key(x));
    assert(parent_ok(m0, r0, x));
    assert(parent_ok(m1, r1, x));
    if m1[x].parent is Some {
        lemma_old_not_below_new(m0, r0, m1, r1, m1[x].parent->0, a);
    }
}

/// A node added since `f0` is not the root of a node `f0` had.
pub proof fn lemma_root_not_new(f0: &Forest, f1: &Forest, x: Index, a: Index)
    requires
        f0.wf(),
        f1.wf(),
        f0.nodes().contains_key(x),
        !f0.nodes().contains_key(a),
        forall|y: Index|
            #[trigger] f0.nodes().contains_key(y) ==> f1.nodes().contains_key(y) && f1.nodes()[y]
                == f0.nodes()[y],
    ensures
        f1.spec_root(x) != a,
{
    assert(f1.nodes().contains_key(x));
    lemma_root_desc(f1.nodes(), f1.rank@, x);
    lemma_old_not_below_new(f0.nodes(), f0.rank@, f1.nodes(), f1.rank@, x, a);
}

/// No node is its own ancestor: every step up the parent chain lowers the
/// rank, so the chain from `n` ends at a root within `rank[n]` steps.
pub proof fn lemma_no_cycles(f: &Forest, n: Index, k: nat)
    requires
        f.wf(),
        f.nodes().contains_key(n),
        k >= 1,
    ensures
        ancestor(f.nodes(), n, k) matches Some(a) ==> f.nodes().contains_key(a) && a != n
            && f.rank@[a] + k <= f.rank@[n],
        k > f.rank@[n] ==> ancestor(f.nodes(), n, k) is None,
    decreases k,
{
    let m = f.nodes();
    assert(parent_ok(m, f.rank@, n));
    if k > 1 {
        lemma_no_cycles(f, n, (k - 1) as nat);
        match ancestor(m, n, (k - 1) as nat) {
            Some(x) => {
                assert(parent_ok(m, f.rank@, x));
            },
            None => {},
        }
    }
}

proof fn lemma_root_desc(m: Map<Index, NodeContents>, rank: Map<Index, nat>, d: Index)
    requires
        wf_nodes(m, rank),
        m.contains_key(d),
    ensures
        is_desc(m, rank, d, root_of(m, rank, d)),
    decreases rank[d],
{
    assert(parent_ok(m, rank, d));
    if m[d].parent is Some {
        lemma_root_desc(m, rank, m[d].parent->0);
        if d == root_of(m, rank, d) {
        }
    }
}

proof fn lemma_desc_rank(m: Map<Index, NodeContents>, rank: Map<Index, nat>, d: Index, a: Index)
    requires
        wf_nodes(m, rank),
        m.contains_key(d),
        is_desc(m, rank, d, a),
    ensures
        rank.contains_key(a),
        rank[a] <= rank[d],
    decreases rank[d],
{
    assert(parent_ok(m, rank, d));
    if d != a {
        lemma_desc_rank(m, rank, m[d].parent->0, a);
    }
}

/// What holds of the nodes once `a` and `b` trade places: `a` stood at
/// index `i` of its parent's children (if it had a parent), `b` at `j`.
pub open spec fn swapped(
    m: Map<Index, NodeContents>,
    m2: Map<Index, NodeContents>,
    a: Index,
    b: Index,
    i: int,
    j: int,
) -> bool {
    let pa = m[a].parent;
    let pb = m[b].parent;
    &&& m2.dom() == m.dom()
    &&& m2[a].parent == pb
    &&& m2[b].parent == pa
    &&& kids(m2[a]) == kids(m[a]) && (m2[a].children is Branch == m[a].children is Branch)
    &&& kids(m2[b]) == kids(m[b]) && (m2[b].children is Branch == m[b].children is Branch)
    &&& m2[a].data == m[a].data && m2[a].fixed == m[a].fixed
    &&& m2[b].data == m[b].data && m2[b].fixed == m[b].fixed
    &&& pa matches Some(p) ==> m2[p].parent == m[p].parent && m2[p].children is Branch && kids(m2[p])
        == kids(m[p]).update(i, b)
    &&& pb matches Some(q) ==> m2[q].parent == m[q].parent && m2[q].children is Branch && kids(m2[q])
        == kids(m[q]).update(j, a)
    &&& forall|n: Index|
        n != a && n != b && Some(n) != pa && Some(n) != pb ==> #[trigger] m2[n] == m[n]
}

/// The ranking after `a` and `b` trade places: each one's descendants rise
/// above the other's old parent.
pub open spec fn swap_rank(m: Map<Index, NodeContents>, rank: Map<Index, nat>, a: Index, b: Index) -> Map<
    Index,
    nat,
> {
    let ka: nat = match m[b].parent {
        Some(q) => rank[q] + 1,
        None => 0,
    };
    let kb: nat = match m[a].parent {
        Some(p) => rank[p] + 1,
        None => 0,
    };
    Map::new(
        |d: Index| rank.contains_key(d),
        |d: Index|
            if is_desc(m, rank, d, a) {
                rank[d] + ka
            } else if is_desc(m, rank, d, b) {
                rank[d] + kb
            } else {
                rank[d]
            },
    )
}

proof fn lemma_desc_step(m: Map<Index, NodeContents>, rank: Map<Index, nat>, d: Index, a: Index)
    requires
        wf_nodes(m, rank),
        m.contains_key(d),
        d != a,
        m[d].parent is Some,
    ensures
        is_desc(m, rank, d, a) == is_desc(m, rank, m[d].parent->0, a),
{
    assert(parent_ok(m, rank, d));
}

#[verifier::rlimit(80)]
proof fn lemma_swap(
    m: Map<Index, NodeContents>,
    m2: Map<Index, NodeContents>,
    rank: Map<Index, nat>,
    a: Index,
    b: Index,
    i: int,
    j: int,
)
    requires
        wf_nodes(m, rank),
        m.contains_key(a),
        m.contains_key(b),
        root_of(m, rank, a) != root_of(m, rank, b),
        m[a].parent matches Some(p) ==> 0 <= i < kids(m[p]).len() && kids(m[p])[i] == a,
        m[b].parent matches Some(q) ==> 0 <= j < kids(m[q]).len() && kids(m[q])[j] == b,
        swapped(m, m2, a, b, i, j),
    ensures
        wf_nodes(m2, swap_rank(m, rank, a, b)),
{
    let rank2 = swap_rank(m, rank, a, b);
    let pa = m[a].parent;
    let pb = m[b].parent;
    assert(parent_ok(m, rank, a));
    assert(parent_ok(m, rank, b));
    assert(is_desc(m, rank, a, a));
    assert(is_desc(m, rank, b, b));
    if is_desc(m, rank, a, b) {
        lemma_desc_same_root(m, rank, a, b);
    }
    if is_desc(m, rank, b, a) {
        lemma_desc_same_root(m, rank, b, a);
    }
    match pa {
        Some(p) => {
            lemma_root_step(m, rank, a);
            assert(kids_ok(m, p));
            if is_desc(m, rank, p, a) {
                lemma_desc_rank(m, rank, p, a);
            }
            if is_desc(m, rank, p, b) {
                lemma_desc_same_root(m, rank, p, b);
            }
            if kids(m[p]).contains(b) {
                let x = choose|x: int| 0 <= x < kids(m[p]).len() && kids(m[p])[x] == b;
                lemma_root_step(m, rank, b);
            }
        },
        None => {},
    }
    match pb {
        Some(q) => {
            lemma_root_step(m, rank, b);
            assert(kids_ok(m, q));
            if is_desc(m, rank, q, b) {
                lemma_desc_rank(m, rank, q, b);
            }
            if is_desc(m, rank, q, a) {
                lemma_desc_same_root(m, rank, q, a);
            }
            if kids(m[q]).contains(a) {
                let x = choose|x: int| 0 <= x < kids(m[q]).len() && kids(m[q])[x] == a;
                lemma_root_step(m, rank, a);
            }
        },
        None => {},
    }
    assert forall|n: Index| #[trigger] m2.contains_key(n) implies parent_ok(m2, rank2, n) by {
        assert(parent_ok(m, rank, n));
        if is_desc(m, rank, n, a) && is_desc(m, rank, n, b) {
            lemma_desc_same_root(m, rank, n, a);
            lemma_desc_same_root(m, rank, n, b);
        }
        if n != a && n != b {
            match m[n].parent {
                Some(q) => {
                    lemma_desc_step(m, rank, n, a);
                    lemma_desc_step(m, rank, n, b);
                    if Some(q) == pa {
                        let x = choose|x: int| 0 <= x < kids(m[q]).len() && kids(m[q])[x] == n;
                        assert(x != i);
                        assert(kids(m2[q])[x] == n);
                    }
                    if Some(q) == pb {
                        let x = choose|x: int| 0 <= x < kids(m[q]).len() && kids(m[q])[x] == n;
                        assert(x != j);
                        assert(kids(m2[q])[x] == n);
                    }
                },
                None => {},
            }
        } else if n == a {
            match pb {
                Some(q) => {
                    assert(kids(m2[q])[j] == a);
                },
                None => {},
            }
        } else {
            match pa {
                Some(p) => {
                    assert(kids(m2[p])[i] == b);
                },
                None => {},
            }
        }
    }
    assert forall|n: Index| #[trigger] m2.contains_key(n) implies kids_ok(m2, n) by {
        lemma_swap_kids(m, m2, rank, a, b, i, j, n);
    }
}

proof fn lemma_swap_kids(
    m: Map<Index, NodeContents>,
    m2: Map<Index, NodeContents>,
    rank: Map<Index, nat>,
    a: Index,
    b: Index,
    i: int,
    j: int,
    n: Index,
)
    requires
        wf_nodes(m, rank),
        m.contains_key(a),
        m.contains_key(b),
        m.contains_key(n),
        a != b,
        m[a].parent != m[b].parent || m[a].parent is None,
        m[a].parent matches Some(p) ==> 0 <= i < kids(m[p]).len() && kids(m[p])[i] == a && p != a
            && p != b && !kids(m[p]).contains(b),
        m[b].parent matches Some(q) ==> 0 <= j < kids(m[q]).len() && kids(m[q])[j] == b && q != a
            && q != b && !kids(m[q]).contains(a),
        swapped(m, m2, a, b, i, j),
    ensures
        kids_ok(m2, n),
{
    assert(kids_ok(m, n));
    let ks = kids(m2[n]);
    let old_ks = kids(m[n]);
    if Some(n) == m[a].parent {
        assert forall|x: int| 0 <= x < ks.len() implies m2.contains_key(#[trigger] ks[x])
            && m2[ks[x]].parent == Some(n) by {
            if x != i {
                assert(m.contains_key(old_ks[x]));
                assert(old_ks[x] != b);
            }
        }
        assert forall|x: int, y: int|
            0 <= x < ks.len() && 0 <= y < ks.len() && x != y implies ks[x] != ks[y] by {
            if x == i {
                assert(old_ks.contains(old_ks[y]));
            } else if y == i {
                assert(old_ks.contains(old_ks[x]));
            }
        }
    } else if Some(n) == m[b].parent {
        assert forall|x: int| 0 <= x < ks.len() implies m2.contains_key(#[trigger] ks[x])
            && m2[ks[x]].parent == Some(n) by {
            if x != j {
                assert(m.contains_key(old_ks[x]));
                assert(old_ks[x] != a);
            }
        }
        assert forall|x: int, y: int|
            0 <= x < ks.len() && 0 <= y < ks.len() && x != y implies ks[x] != ks[y] by {
            if x == j {
                assert(old_ks.contains(old_ks[y]));
            } else if y == j {
                assert(old_ks.contains(old_ks[x]));
            }
        }
    } else {
        assert forall|x: int| 0 <= x < ks.len() implies m2.contains_key(#[trigger] ks[x])
            && m2[ks[x]].parent == Some(n) by {
            assert(m.contains_key(old_ks[x]));
        }
    }
}

/// `c` with its data replaced by `d`.
pub open spec fn with_data(c: NodeContents, d: String) -> NodeContents {
    NodeContents { parent: c.parent, data: d, fixed: c.fixed, children: c.children, sort: c.sort, slots: c.slots }
}

/// A node's data has no part in the forest's shape.
proof fn lemma_data_change(m: Map<Index, NodeContents>, rank: Map<Index, nat>, n: Index)
    requires
        wf_nodes(m, rank),
        m.dom().finite(),
        m.contains_key(n),
    ensures
        forall|d: String|
            #![trigger with_data(m[n], d)]
            wf_nodes(
                m.insert(n, with_data(m[n], d)),
                rank,
            ) && m.insert(
                n,
                with_data(m[n], d),
            ).dom().finite(),
{
    assert forall|d: String| #![trigger with_data(m[n], d)]
        wf_nodes(
            m.insert(n, with_data(m[n], d)),
            rank,
        ) by {
        let m2 = m.insert(n, with_data(m[n], d));
        assert forall|x: Index| #[trigger] m2.contains_key(x) implies parent_ok(m2, rank, x)
            && kids_ok(m2, x) by {
            assert(parent_ok(m, rank, x));
            assert(kids_ok(m, x));
            assert(kids(m2[x]) == kids(m[x]));
            match m[x].parent {
                Some(q) => {
                    assert(kids(m2[q]) == kids(m[q]));
                },
                None => {},
            }
            assert forall|j: int| 0 <= j < kids(m2[x]).len() implies m2.contains_key(
                #[trigger] kids(m2[x])[j],
            ) && m2[kids(m2[x])[j]].parent == Some(x) by {
                assert(m.contains_key(kids(m[x])[j]));
            }
        }
    }
}

/// `c` with its sort and slot sorts replaced.
pub open spec fn with_sorts(c: NodeContents, sort: String, slots: Vec<String>) -> NodeContents {
    NodeContents { parent: c.parent, data: c.data, fixed: c.fixed, children: c.children, sort, slots }
}

/// Sorts have no part in the forest's shape.
proof fn lemma_sorts_change(
    m: Map<Index, NodeContents>,
    rank: Map<Index, nat>,
    roots: Seq<Index>,
    n: Index,
    sort: String,
    slots: Vec<String>,
)
    requires
        wf_nodes(m, rank),
        roots_ok(m, roots),
        m.contains_key(n),
    ensures
        wf_nodes(m.insert(n, with_sorts(m[n], sort, slots)), rank),
        roots_ok(m.insert(n, with_sorts(m[n], sort, slots)), roots),
{
    let m2 = m.insert(n, with_sorts(m[n], sort, slots));
    assert forall|x: Index| #[trigger] m2.contains_key(x) implies parent_ok(m2, rank, x) && kids_ok(m2, x) by {
        assert(parent_ok(m, rank, x));
        assert(kids_ok(m, x));
        assert(kids(m2[x]) == kids(m[x]));
        match m[x].parent {
            Some(q) => {
                assert(kids(m2[q]) == kids(m[q]));
            },
            None => {},
        }
        assert forall|j: int| 0 <= j < kids(m2[x]).len() implies m2.contains_key(#[trigger] kids(m2[x])[j])
            && m2[kids(m2[x])[j]].parent == Some(x) by {
            assert(m.contains_key(kids(m[x])[j]));
        }
    }
    assert forall|x: Index| roots.contains(x) <==> (m2.contains_key(x) && m2[x].parent is None) by {
        assert(roots.contains(x) <==> (m.contains_key(x) && m[x].parent is None));
    }
}

/// `c` with its leaf text replaced by `t`.
pub open spec fn with_leaf(c: NodeContents, t: String) -> NodeContents {
    NodeContents { parent: c.parent, data: c.data, fixed: c.fixed, children: NodeChildren::Leaf(t), sort: c.sort, slots: c.slots }
}

/// A leaf's text has no part in the forest's shape.
proof fn lemma_leaf_change(m: Map<Index, NodeContents>, rank: Map<Index, nat>, n: Index)
    requires
        wf_nodes(m, rank),
        m.contains_key(n),
        m[n].children is Leaf,
    ensures
        forall|t: String| #![trigger with_leaf(m[n], t)] wf_nodes(m.insert(n, with_leaf(m[n], t)), rank),
{
    assert forall|t: String| #![trigger with_leaf(m[n], t)] wf_nodes(
        m.insert(n, with_leaf(m[n], t)),
        rank,
    ) by {
        let m2 = m.insert(n, with_leaf(m[n], t));
        assert forall|x: Index| #[trigger] m2.contains_key(x) implies parent_ok(m2, rank, x)
            && kids_ok(m2, x) by {
            assert(parent_ok(m, rank, x));
            assert(kids_ok(m, x));
            assert(kids(m2[x]) == kids(m[x]));
            match m[x].parent {
                Some(q) => {
                    assert(kids_ok(m, q));
                    assert(q != n);
                    assert(kids(m2[q]) == kids(m[q]));
                },
                None => {},
            }
            assert forall|j: int| 0 <= j < kids(m2[x]).len() implies m2.contains_key(
                #[trigger] kids(m2[x])[j],
            ) && m2[kids(m2[x])[j]].parent == Some(x) by {
                assert(m.contains_key(kids(m[x])[j]));
            }
        }
    }
}

/// With no work left, no node of the tree rooted at `a` is still held.
proof fn lemma_all_removed(
    m1: Map<Index, NodeContents>,
    m: Map<Index, NodeContents>,
    rank: Map<Index, nat>,
    a: Index,
    d: Index,
)
    requires
        wf_nodes(m1, rank),
        m1.contains_key(d),
        m1[a].parent is None,
        root_of(m1, rank, d) == a,
        forall|x: Index|
            #[trigger] m.contains_key(x) && m1.contains_key(x) && root_of(m1, rank, x) == a
                ==> m1[x].parent is Some && m.contains_key(m1[x].parent->0),
    ensures
        !m.contains_key(d),
    decreases rank[d],
{
    assert(parent_ok(m1, rank, d));
    if m1[d].parent is Some {
        lemma_root_step(m1, rank, d);
        lemma_all_removed(m1, m, rank, a, m1[d].parent->0);
    }
}

/// Removing the whole tree rooted at `a` keeps the rest well formed.
proof fn lemma_remove_tree(
    m1: Map<Index, NodeContents>,
    m: Map<Index, NodeContents>,
    rank: Map<Index, nat>,
    a: Index,
)
    requires
        wf_nodes(m1, rank),
        forall|x: Index| #[trigger] m.contains_key(x) <==> m1.contains_key(x) && root_of(m1, rank, x) != a,
        forall|x: Index| #[trigger] m.contains_key(x) ==> m[x] == m1[x],
    ensures
        wf_nodes(m, rank),
{
    assert forall|n: Index| #[trigger] m.contains_key(n) implies parent_ok(m, rank, n) && kids_ok(
        m,
        n,
    ) by {
        assert(parent_ok(m1, rank, n));
        assert(kids_ok(m1, n));
        assert(m[n] == m1[n]);
        match m1[n].parent {
            Some(q) => {
                lemma_root_step(m1, rank, n);
                assert(m1.contains_key(q));
                assert(m.contains_key(q));
                assert(m[q] == m1[q]);
            },
            None => {},
        }
        assert forall|j: int| 0 <= j < kids(m[n]).len() implies m.contains_key(
            #[trigger] kids(m[n])[j],
        ) && m[kids(m[n])[j]].parent == Some(n) by {
            let k = kids(m1[n])[j];
            assert(m1.contains_key(k));
            lemma_root_step(m1, rank, k);
            assert(m.contains_key(k));
            assert(m[k] == m1[k]);
        }
    }
}

/// Delete the tree rooted at `a` from the arena.
#[verifier::rlimit(80)]
fn free_tree(f: &mut Forest, a: Index)
    requires
        old(f).wf(),
        old(f).nodes().contains_key(a),
        old(f).nodes()[a].parent is None,
    ensures
        final(f).wf(),
        final(f).rank@ == old(f).rank@,
        final(f).roots@ == old(f).roots@.remove(old(f).roots@.index_of(a)),
        forall|x: Index|
            #[trigger] final(f).nodes().contains_key(x) <==> old(f).nodes().contains_key(x)
                && root_of(old(f).nodes(), old(f).rank@, x) != a,
        forall|x: Index| #[trigger] final(f).nodes().contains_key(x) ==> final(f).nodes()[x] == old(
            f,
        ).nodes()[x],
{
    let ghost m1 = f.nodes();
    let ghost rank = f.rank@;
    let ghost roots0 = f.roots@;
    proof {
        assert(f.roots@.contains(a));
    }
    remove_root(&mut f.roots, a);
    let ghost roots1 = f.roots@;
    let mut to_delete: Vec<Index> = Vec::new();
    to_delete.push(a);
    proof {
        assert(to_delete@[0] == a);
        assert forall|x: Index| #[trigger] m1.contains_key(x) && root_of(m1, rank, x)
            == a implies to_delete@.contains(x) || (m1[x].parent is Some
            && m1.contains_key(m1[x].parent->0)) by {
            assert(parent_ok(m1, rank, x));
        }
    }
    while to_delete.len() > 0
        invariant
            wf_nodes(m1, rank),
            f.rank@ == rank,
            f.roots@ == roots1,
            roots1.no_duplicates(),
            forall|n: Index| #[trigger] roots1.contains(n) <==> (roots0.contains(n) && n != a),
            m1.contains_key(a),
            m1[a].parent is None,
            f.nodes().dom().finite(),
            forall|x: Index| #[trigger] f.nodes().contains_key(x) ==> m1.contains_key(x),
            forall|x: Index| #[trigger] f.nodes().contains_key(x) ==> f.nodes()[x] == m1[x],
            forall|x: Index|
                m1.contains_key(x) && !f.nodes().contains_key(x) ==> #[trigger] root_of(
                    m1,
                    rank,
                    x,
                ) == a,
            forall|i: int|
                0 <= i < to_delete.len() ==> m1.contains_key(#[trigger] to_delete@[i])
                    && root_of(m1, rank, to_delete@[i]) == a,
            forall|x: Index|
                #[trigger] f.nodes().contains_key(x) && root_of(m1, rank, x) == a
                    ==> to_delete@.contains(x) || (m1[x].parent is Some
                    && f.nodes().contains_key(m1[x].parent->0)),
        decreases f.nodes().dom().len(), to_delete.len(),
    {
        let ghost before = to_delete@;
        let ghost m = f.nodes();
        let w = to_delete.pop().unwrap();
        proof {
            assert(before.last() == w);
            assert(to_delete@ == before.drop_last());
        }
        match arena_remove(&mut f.arena, w) {
            Some(contents) => {
                proof {
                    assert(kids_ok(m1, w));
                    assert forall|j: int| 0 <= j < kids(contents).len() implies root_of(
                        m1,
                        rank,
                        #[trigger] kids(contents)[j],
                    ) == a by {
                        lemma_root_step(m1, rank, kids(m1[w])[j]);
                    }
                }
                match contents.children {
                    NodeChildren::Branch(mut v) => {
                        to_delete.append(&mut v);
                    },
                    NodeChildren::Leaf(_) => {},
                }
                proof {
                    let m2 = f.nodes();
                    assert(m.dom().len() > 0) by {
                        assert(m.dom().contains(w));
                    }
                    assert forall|x: Index| #[trigger] m2.contains_key(x) && root_of(
                        m1,
                        rank,
                        x,
                    ) == a implies to_delete@.contains(x) || (m1[x].parent is Some
                        && m2.contains_key(m1[x].parent->0)) by {
                        if before.contains(x) {
                            let i = choose|i: int| 0 <= i < before.len() && before[i] == x;
                            assert(i != before.len() - 1);
                            assert(to_delete@[i] == x);
                        } else if m1[x].parent == Some(w) {
                            assert(parent_ok(m1, rank, x));
                            let j = choose|j: int|
                                0 <= j < kids(m1[w]).len() && kids(m1[w])[j] == x;
                            assert(to_delete@[before.len() - 1 + j] == x);
                        }
                    }
                }
            },
            None => {
                proof {
                    assert forall|x: Index| #[trigger] m.contains_key(x) && root_of(
                        m1,
                        rank,
                        x,
                    ) == a implies to_delete@.contains(x) || (m1[x].parent is Some
                        && m.contains_key(m1[x].parent->0)) by {
                        if before.contains(x) {
                            let i = choose|i: int| 0 <= i < before.len() && before[i] == x;
                            assert(i != before.len() - 1);
                            assert(to_delete@[i] == x);
                        }
                    }
                }
            },
        }
    }
    proof {
        let m = f.nodes();
        assert(to_delete@.len() == 0);
        assert(forall|x: Index|
            #[trigger] m.contains_key(x) && m1.contains_key(x) && root_of(m1, rank, x) == a
                ==> m1[x].parent is Some && m.contains_key(m1[x].parent->0));
        assert forall|x: Index| #[trigger] m.contains_key(x) <==> m1.contains_key(x) && root_of(
            m1,
            rank,
            x,
        ) != a by {
            if m1.contains_key(x) && root_of(m1, rank, x) == a {
                lemma_all_removed(m1, m, rank, a, x);
            }
        }
        lemma_remove_tree(m1, m, rank, a);
        assert forall|n: Index| roots1.contains(n) <==> (m.contains_key(n) && m[n].parent is None) by {
            assert(roots0.contains(n) <==> (m1.contains_key(n) && m1[n].parent is None));
            if m1.contains_key(n) && m1[n].parent is None && n != a {
                assert(root_of(m1, rank, n) == n);
                assert(m.contains_key(n));
            }
            if m.contains_key(n) {
                assert(m[n] == m1[n]);
                if n == a {
                    assert(root_of(m1, rank, a) == a);
                }
            }
        }
    }
}

/// Swap `a` and `b` wherever they stand.
pub open spec fn swap_in(x: Index, a: Index, b: Index) -> Index {
    if x == a {
        b
    } else if x == b {
        a
    } else {
        x
    }
}

proof fn lemma_roots_add(m: Map<Index, NodeContents>, roots: Seq<Index>, i: Index, c: NodeContents)
    requires
        roots_ok(m, roots),
        !m.contains_key(i),
        c.parent is None,
    ensures
        roots_ok(m.insert(i, c), roots.push(i)),
{
    let m2 = m.insert(i, c);
    let r2 = roots.push(i);
    assert(!roots.contains(i));
    assert forall|n: Index| r2.contains(n) <==> (m2.contains_key(n) && m2[n].parent is None) by {
        if r2.contains(n) && n != i {
            let k = choose|k: int| 0 <= k < r2.len() && r2[k] == n;
            assert(roots[k] == n);
        }
        if n != i && roots.contains(n) {
            let k = choose|k: int| 0 <= k < roots.len() && roots[k] == n;
            assert(r2[k] == n);
        }
        if n == i {
            assert(r2[roots.len() as int] == i);
        }
    }
    assert forall|x: int, y: int| 0 <= x < y < r2.len() implies r2[x] != r2[y] by {
        if y == roots.len() {
            assert(roots.contains(r2[x]));
        }
    }
}

proof fn lemma_roots_gain(m: Map<Index, NodeContents>, roots: Seq<Index>, m2: Map<Index, NodeContents>, x: Index)
    requires
        roots_ok(m, roots),
        m.contains_key(x),
        m[x].parent is Some,
        m2.dom() == m.dom(),
        m2[x].parent is None,
        forall|n: Index| n != x ==> #[trigger] m2[n].parent == m[n].parent,
    ensures
        !roots.contains(x),
        roots_ok(m2, roots.push(x)),
{
    let r2 = roots.push(x);
    assert(!roots.contains(x));
    assert forall|n: Index| r2.contains(n) <==> (m2.contains_key(n) && m2[n].parent is None) by {
        if n != x {
            assert(m2[n].parent == m[n].parent);
            if roots.contains(n) {
                let k = choose|k: int| 0 <= k < roots.len() && roots[k] == n;
                assert(r2[k] == n);
            }
            if r2.contains(n) {
                let k = choose|k: int| 0 <= k < r2.len() && r2[k] == n;
                assert(roots[k] == n);
            }
        } else {
            assert(r2[roots.len() as int] == x);
        }
    }
    assert forall|a: int, b: int| 0 <= a < b < r2.len() implies r2[a] != r2[b] by {
        if b == roots.len() {
            assert(roots.contains(r2[a]));
        }
    }
}

proof fn lemma_roots_lose(
    m: Map<Index, NodeContents>,
    roots: Seq<Index>,
    m2: Map<Index, NodeContents>,
    x: Index,
    roots2: Seq<Index>,
)
    requires
        roots_ok(m, roots),
        m2.dom() == m.dom(),
        m2[x].parent is Some,
        forall|n: Index| n != x ==> #[trigger] m2[n].parent == m[n].parent,
        roots2.no_duplicates(),
        forall|n: Index| #[trigger] roots2.contains(n) <==> (roots.contains(n) && n != x),
    ensures
        roots_ok(m2, roots2),
{
    assert forall|n: Index| roots2.contains(n) <==> (m2.contains_key(n) && m2[n].parent is None) by {
        if n != x {
            assert(m2[n].parent == m[n].parent);
            assert(roots.contains(n) <==> (m.contains_key(n) && m[n].parent is None));
        }
    }
}

proof fn lemma_roots_swap(
    m: Map<Index, NodeContents>,
    roots: Seq<Index>,
    m2: Map<Index, NodeContents>,
    a: Index,
    b: Index,
    roots2: Seq<Index>,
)
    requires
        roots_ok(m, roots),
        m.contains_key(a),
        m.contains_key(b),
        m2.dom() == m.dom(),
        m2[a].parent == m[b].parent,
        m2[b].parent == m[a].parent,
        forall|n: Index| n != a && n != b ==> #[trigger] m2[n].parent == m[n].parent,
        roots2.no_duplicates(),
        forall|n: Index| #[trigger] roots2.contains(n) <==> roots.contains(swap_in(n, a, b)),
    ensures
        roots_ok(m2, roots2),
{
    assert forall|n: Index| roots2.contains(n) <==> (m2.contains_key(n) && m2[n].parent is None) by {
        let w = swap_in(n, a, b);
        assert(roots.contains(w) <==> (m.contains_key(w) && m[w].parent is None));
        if n != a && n != b {
            assert(m2[n].parent == m[n].parent);
        }
    }
}

/// Remove `x` from the roots, keeping the others in order.
fn remove_root(roots: &mut Vec<Index>, x: Index)
    requires
        old(roots)@.no_duplicates(),
        old(roots)@.contains(x),
    ensures
        final(roots)@ == old(roots)@.remove(old(roots)@.index_of(x)),
        final(roots)@.no_duplicates(),
        forall|n: Index| final(roots)@.contains(n) <==> (old(roots)@.contains(n) && n != x),
{
    let ghost r0 = roots@;
    let mut j: usize = 0;
    while j < roots.len() && roots[j] != x
        invariant
            roots@ == r0,
            0 <= j <= roots@.len(),
            r0.contains(x),
            forall|q: int| 0 <= q < j ==> r0[q] != x,
        decreases roots.len() - j,
    {
        j = j + 1;
    }
    proof {
        if j == r0.len() {
            let q = choose|q: int| 0 <= q < r0.len() && r0[q] == x;
            assert(false);
        }
        assert(r0[j as int] == x);
        assert(r0.contains(r0[j as int]));
        assert(r0.index_of(x) == j);
    }
    roots.remove(j);
    proof {
        let r1 = roots@;
        assert forall|a: int, b: int| 0 <= a < b < r1.len() implies r1[a] != r1[b] by {
            let a0 = if a < j { a } else { a + 1 };
            let b0 = if b < j { b } else { b + 1 };
            assert(r1[a] == r0[a0] && r1[b] == r0[b0]);
        }
        assert forall|n: Index| r1.contains(n) <==> (r0.contains(n) && n != x) by {
            if r1.contains(n) {
                let k = choose|k: int| 0 <= k < r1.len() && r1[k] == n;
                let k0 = if k < j { k } else { k + 1 };
                assert(r0[k0] == n);
                assert(k0 != j);
            }
            if r0.contains(n) && n != x {
                let k = choose|k: int| 0 <= k < r0.len() && r0[k] == n;
                assert(k != j);
                if k < j {
                    assert(r1[k] == n);
                } else {
                    assert(r1[k - 1] == n);
                }
            }
        }
    }
}

/// Exchange `a` and `b` in the roots, wherever they stand.
fn swap_roots(roots: &mut Vec<Index>, a: Index, b: Index)
    requires
        old(roots)@.no_duplicates(),
        a != b,
    ensures
        final(roots)@ == old(roots)@.map_values(|x: Index| swap_in(x, a, b)),
        final(roots)@.no_duplicates(),
        forall|n: Index| final(roots)@.contains(n) <==> old(roots)@.contains(swap_in(n, a, b)),
{
    let ghost r0 = roots@;
    let mut k: usize = 0;
    while k < roots.len()
        invariant
            roots@.len() == r0.len(),
            0 <= k <= roots@.len(),
            forall|q: int| 0 <= q < k ==> roots@[q] == swap_in(r0[q], a, b),
            forall|q: int| k <= q < r0.len() ==> roots@[q] == r0[q],
        decreases roots.len() - k,
    {
        let x = roots[k];
        if x == a {
            roots.set(k, b);
        } else if x == b {
            roots.set(k, a);
        }
        k = k + 1;
    }
    proof {
        let r1 = roots@;
        assert(r1 =~= r0.map_values(|x: Index| swap_in(x, a, b)));
        assert forall|p: int, q: int| 0 <= p < q < r1.len() implies r1[p] != r1[q] by {
            assert(r0[p] != r0[q]);
        }
        assert forall|n: Index| r1.contains(n) <==> r0.contains(swap_in(n, a, b)) by {
            if r1.contains(n) {
                let k = choose|k: int| 0 <= k < r1.len() && r1[k] == n;
                assert(r0[k] == swap_in(n, a, b));
            }
            if r0.contains(swap_in(n, a, b)) {
                let k = choose|k: int| 0 <= k < r0.len() && r0[k] == swap_in(n, a, b);
                assert(r1[k] == n);
            }
        }
    }
}

/// A handle to a node of a `Forest`. It may outlive the node: see
/// `is_valid`.
#[derive(Clone, Copy, Debug)]
pub struct Node(pub Index);

/// A collection of trees in one arena. Branch nodes have children; leaf
/// nodes have text instead. Every node has a string of data.
pub struct Forest {
    pub arena: Arena<NodeContents>,
    /// The roots of all trees, in order: a node becomes a root at the end,
    /// and keeps its place until it gets a parent or is deleted.
    pub roots: Vec<Index>,
    /// A ranking of the nodes under which every parent ranks below its
    /// children: so no node lies below itself.
    pub rank: Ghost<Map<Index, nat>>,
}

impl Forest {
    pub open spec fn nodes(&self) -> Map<Index, NodeContents> {
        arena_nodes(self.arena)
    }

    /// Parent and child links agree, and there are no cycles.
    pub open spec fn wf(&self) -> bool {
        &&& wf_nodes(self.nodes(), self.rank@)
        &&& self.nodes().dom().finite()
        &&& roots_ok(self.nodes(), self.roots@)
    }

    pub open spec fn spec_root(&self, n: Index) -> Index {
        root_of(self.nodes(), self.rank@, n)
    }

    /// A forest without nodes.
    pub fn new() -> (r: Forest)
        ensures
            r.wf(),
            r.nodes().dom() =~= Set::empty(),
            r.roots@.len() == 0,
    {
        Forest { arena: arena_new(), roots: Vec::new(), rank: Ghost(Map::empty()) }
    }

    fn add(&mut self, contents: NodeContents) -> (r: Node)
        requires
            old(self).wf(),
            contents.parent is None,
            kids(contents).len() == 0,
        ensures
            final(self).wf(),
            !old(self).nodes().contains_key(r.0),
            final(self).nodes() == old(self).nodes().insert(r.0, contents),
            final(self).rank@ == old(self).rank@.insert(r.0, 0),
            final(self).roots@ == old(self).roots@.push(r.0),
    {
        let ghost m = self.nodes();
        let ghost c = contents;
        let i = arena_insert(&mut self.arena, contents);
        proof {
            lemma_roots_add(m, self.roots@, i, c);
        }
        self.roots.push(i);
        proof {
            self.rank@ = self.rank@.insert(i, 0);
            let m2 = self.nodes();
            assert forall|n: Index| #[trigger] m2.contains_key(n) implies parent_ok(m2, self.rank@, n)
                && kids_ok(m2, n) by {
                if n != i {
                    assert(m.contains_key(n));
                    assert(parent_ok(m, old(self).rank@, n));
                    assert(kids_ok(m, n));
                    assert(m2[n] == m[n]);
                    assert forall|j: int| 0 <= j < kids(m2[n]).len() implies m2.contains_key(
                        #[trigger] kids(m2[n])[j],
                    ) && m2[kids(m2[n])[j]].parent == Some(n) by {
                        assert(m.contains_key(kids(m[n])[j]));
                    }
                }
            }
        }
        Node(i)
    }

    /// A new leaf, as a tree of its own.
    pub fn new_leaf(&mut self, data: String, leaf: String) -> (r: Node)
        requires
            old(self).wf(),
        ensures
            final(self).wf(),
            final(self).roots@ == old(self).roots@.push(r.0),
            !old(self).nodes().contains_key(r.0),
            final(self).nodes().dom() == old(self).nodes().dom().insert(r.0),
            forall|n: Index| n != r.0 ==> #[trigger] final(self).nodes()[n] == old(self).nodes()[n],
            final(self).nodes()[r.0].parent is None,
            final(self).nodes()[r.0].data == data,
            !final(self).nodes()[r.0].fixed,
            final(self).nodes()[r.0].children == NodeChildren::Leaf(leaf),
            final(self).nodes()[r.0].slots@.len() == 0,
    {
        self.add(
            NodeContents {
                parent: None,
                data,
                fixed: false,
                children: NodeChildren::Leaf(leaf),
                sort: String::new(),
                slots: Vec::new(),
            },
        )
    }

    /// A new branch without children, as a tree of its own.
    pub fn new_branch(&mut self, data: String) -> (r: Node)
        requires
            old(self).wf(),
        ensures
            final(self).wf(),
            final(self).roots@ == old(self).roots@.push(r.0),
            !old(self).nodes().contains_key(r.0),
            final(self).nodes().dom() == old(self).nodes().dom().insert(r.0),
            final(self).nodes()[r.0].parent is None,
            final(self).nodes()[r.0].data == data,
            final(self).nodes()[r.0].children is Branch,
            kids(final(self).nodes()[r.0]).len() == 0,
            forall|n: Index| n != r.0 ==> #[trigger] final(self).nodes()[n] == old(self).nodes()[n],
    {
        let children: Vec<Index> = Vec::new();
        self.add(
            NodeContents {
                parent: None,
                data,
                fixed: false,
                children: NodeChildren::Branch(children),
                sort: String::new(),
                slots: Vec::new(),
            },
        )
    }

    /// Every node of the forest, once each, in the arena's order.
    pub fn iter_nodes(&self) -> (r: Vec<Node>)
        ensures
            forall|a: int, b: int| 0 <= a < b < r@.len() ==> r@[a].0 != r@[b].0,
            r@.len() == self.nodes().dom().len() || !self.nodes().dom().finite(),
            forall|k: int| 0 <= k < r@.len() ==> self.nodes().contains_key(#[trigger] r@[k].0),
            forall|i: Index| self.nodes().contains_key(i) ==> exists|k: int|
                0 <= k < r@.len() && #[trigger] r@[k].0 == i,
    {
        let handles = arena_handles(&self.arena);
        let mut out: Vec<Node> = Vec::new();
        let mut k: usize = 0;
        while k < handles.len()
            invariant
                0 <= k <= handles.len(),
                out@.len() == k,
                forall|j: int| 0 <= j < k ==> #[trigger] out@[j].0 == handles@[j],
            decreases handles.len() - k,
        {
            out.push(Node(handles[k]));
            k = k + 1;
        }
        proof {
            assert forall|k: int| 0 <= k < out@.len() implies self.nodes().contains_key(
                #[trigger] out@[k].0,
            ) by {
                assert(handles@.contains(handles@[k]));
            }
            assert forall|a: int, b: int| 0 <= a < b < out@.len() implies out@[a].0 != out@[b].0 by {
                assert(out@[a].0 == handles@[a] && out@[b].0 == handles@[b]);
            }
            assert forall|i: Index| self.nodes().contains_key(i) implies exists|k: int|
                0 <= k < out@.len() && #[trigger] out@[k].0 == i by {
                assert(handles@.contains(i));
                let k = choose|k: int| 0 <= k < handles@.len() && handles@[k] == i;
                assert(out@[k].0 == i);
            }
            if self.nodes().dom().finite() {
                handles@.unique_seq_to_set();
                assert(handles@.to_set() =~= self.nodes().dom());
            }
        }
        out
    }

    /// The roots of all trees, in order: the nodes without a parent, each
    /// once; a node that becomes a root goes to the end.
    pub fn roots(&self) -> (r: Vec<Node>)
        requires
            self.wf(),
        ensures
            r@.len() == self.roots@.len(),
            forall|k: int| 0 <= k < r@.len() ==> (#[trigger] r@[k]).0 == self.roots@[k],
            forall|a: int, b: int| 0 <= a < b < r@.len() ==> r@[a].0 != r@[b].0,
            forall|k: int|
                0 <= k < r@.len() ==> self.nodes().contains_key(#[trigger] r@[k].0) && self.nodes()[r@[k].0].parent is None,
            forall|i: Index|
                self.nodes().contains_key(i) && self.nodes()[i].parent is None ==> exists|k: int|
                    0 <= k < r@.len() && #[trigger] r@[k].0 == i,
    {
        let mut out: Vec<Node> = Vec::new();
        let mut k: usize = 0;
        while k < self.roots.len()
            invariant
                0 <= k <= self.roots@.len(),
                out@.len() == k,
                forall|q: int| 0 <= q < k ==> (#[trigger] out@[q]).0 == self.roots@[q],
            decreases self.roots.len() - k,
        {
            out.push(Node(self.roots[k]));
            k = k + 1;
        }
        proof {
            assert forall|a: int, b: int| 0 <= a < b < out@.len() implies out@[a].0 != out@[b].0 by {
                assert(out@[a].0 == self.roots@[a] && out@[b].0 == self.roots@[b]);
            }
            assert forall|k: int| 0 <= k < out@.len() implies self.nodes().contains_key(#[trigger] out@[k].0)
                && self.nodes()[out@[k].0].parent is None by {
                assert(out@[k].0 == self.roots@[k]);
                assert(self.roots@.contains(self.roots@[k]));
            }
            assert forall|i: Index| self.nodes().contains_key(i) && self.nodes()[i].parent is None implies exists|k: int|
                0 <= k < out@.len() && #[trigger] out@[k].0 == i by {
                assert(self.roots@.contains(i));
                let k = choose|k: int| 0 <= k < self.roots@.len() && self.roots@[k] == i;
                assert(out@[k].0 == i);
            }
        }
        out
    }

    /// A new fixed branch with `arity` slots, each holding a new hole (an
    /// empty fixed branch with data `?`), as a tree of its own.
    pub fn new_fixed_branch(&mut self, data: String, arity: usize) -> (r: Node)
        requires
            old(self).wf(),
        ensures
            final(self).wf(),
            final(self).roots@ == old(self).roots@.push(r.0),
            !old(self).nodes().contains_key(r.0),
            final(self).nodes().contains_key(r.0),
            final(self).nodes()[r.0].parent is None,
            final(self).nodes()[r.0].data == data,
            final(self).nodes()[r.0].fixed,
            final(self).nodes()[r.0].children is Branch,
            kids(final(self).nodes()[r.0]).len() == arity,
            forall|n: Index|
                #[trigger] old(self).nodes().contains_key(n) ==> final(self).nodes().contains_key(n)
                    && final(self).nodes()[n] == old(self).nodes()[n],
    {
        let children: Vec<Index> = Vec::new();
        let node = self.add(
            NodeContents {
                parent: None,
                data,
                fixed: true,
                children: NodeChildren::Branch(children),
                sort: String::new(),
                slots: Vec::new(),
            },
        );
        let ghost m0 = old(self).nodes();
        let mut i: usize = 0;
        while i < arity
            invariant
                self.wf(),
                0 <= i <= arity,
                !m0.contains_key(node.0),
                self.nodes().contains_key(node.0),
                self.nodes()[node.0].parent is None,
                self.roots@ == old(self).roots@.push(node.0),
                self.nodes()[node.0].data == data,
                self.nodes()[node.0].fixed,
                self.nodes()[node.0].children is Branch,
                kids(self.nodes()[node.0]).len() == i,
                forall|n: Index|
                    #[trigger] m0.contains_key(n) ==> self.nodes().contains_key(n) && self.nodes()[n]
                        == m0[n],
            decreases arity - i,
        {
            let hole_kids: Vec<Index> = Vec::new();
            let hole = self.add(
                NodeContents {
                    parent: None,
                    data: "?".to_owned(),
                    fixed: true,
                    children: NodeChildren::Branch(hole_kids),
                    sort: String::new(),
                    slots: Vec::new(),
                },
            );
            proof {
                assert(self.spec_root(node.0) == node.0);
                assert(self.spec_root(hole.0) == hole.0);
            }
            let ghost rr = self.roots@;
            let _ = node.insert_child(self, i, hole);
            proof {
                let r0 = old(self).roots@.push(node.0);
                assert(rr == r0.push(hole.0));
                assert(rr.contains(rr[r0.len() as int]));
                assert(rr.index_of(hole.0) == r0.len());
                assert(rr.remove(r0.len() as int) =~= r0);
            }
            i = i + 1;
        }
        node
    }
}

impl Node {
    /// Whether the node is still in the forest (has not been deleted).
    pub fn is_valid(self, f: &Forest) -> (r: bool)
        ensures
            r == f.nodes().contains_key(self.0),
    {
        arena_contains(&f.arena, self.0)
    }

    /// The node's parent; `None` for a root.
    pub fn parent(self, f: &Forest) -> (r: Option<Node>)
        requires
            f.nodes().contains_key(self.0),
        ensures
            r matches Some(p) ==> f.nodes()[self.0].parent == Some(p.0),
            r is None <==> f.nodes()[self.0].parent is None,
    {
        match arena_get(&f.arena, self.0) {
            Some(c) => match c.parent {
                Some(p) => Some(Node(p)),
                None => None,
            },
            None => None,
        }
    }

    /// The root of the tree that holds this node.
    pub fn root(self, f: &Forest) -> (r: Node)
        requires
            f.wf(),
            f.nodes().contains_key(self.0),
        ensures
            r.0 == f.spec_root(self.0),
            f.nodes().contains_key(r.0),
            f.nodes()[r.0].parent is None,
    {
        let mut cur = self;
        loop
            invariant
                f.wf(),
                f.nodes().contains_key(cur.0),
                f.spec_root(self.0) == f.spec_root(cur.0),
            decreases f.rank@[cur.0],
        {
            match cur.parent(f) {
                Some(p) => {
                    proof {
                        assert(parent_ok(f.nodes(), f.rank@, cur.0));
                    }
                    cur = p;
                },
                None => {
                    return cur;
                },
            }
        }
    }

    /// The node's data.
    pub fn data(self, f: &Forest) -> (r: &String)
        requires
            f.nodes().contains_key(self.0),
        ensures
            *r == f.nodes()[self.0].data,
    {
        match arena_get(&f.arena, self.0) {
            Some(c) => &c.data,
            None => {
                assert(false);
                unreached()
            },
        }
    }

    /// Whether this is a leaf (holding text) rather than a branch.
    pub fn is_leaf(self, f: &Forest) -> (r: bool)
        requires
            f.nodes().contains_key(self.0),
        ensures
            r == f.nodes()[self.0].children is Leaf,
    {
        match arena_get(&f.arena, self.0) {
            Some(c) => match c.children {
                NodeChildren::Leaf(_) => true,
                NodeChildren::Branch(_) => false,
            },
            None => false,
        }
    }

    /// A childless copy of this node: same data, same kind, same leaf text.
    fn copy_one(self, f: &mut Forest) -> (r: Node)
        requires
            old(f).wf(),
            old(f).nodes().contains_key(self.0),
        ensures
            final(f).wf(),
            !old(f).nodes().contains_key(r.0),
            final(f).nodes().dom() == old(f).nodes().dom().insert(r.0),
            forall|x: Index| x != r.0 ==> #[trigger] final(f).nodes()[x] == old(f).nodes()[x],
            final(f).nodes()[r.0].parent is None,
            final(f).nodes()[r.0].children is Branch == old(f).nodes()[self.0].children is Branch,
            kids(final(f).nodes()[r.0]).len() == 0,
            final(f).nodes()[r.0].sort == old(f).nodes()[self.0].sort,
    {
        let data = self.data(f).clone();
        let fixed = self.is_fixed(f);
        let sort = self.sort(f).clone();
        let slots = self.slots(f).clone();
        if self.is_leaf(f) {
            let text = self.leaf(f).clone();
            f.add(NodeContents { parent: None, data, fixed, children: NodeChildren::Leaf(text), sort, slots })
        } else {
            let none: Vec<Index> = Vec::new();
            f.add(NodeContents { parent: None, data, fixed, children: NodeChildren::Branch(none), sort, slots })
        }
    }

    /// A copy of the tree below this node (its data, kinds, leaf texts and
    /// all descendants) as a new tree of its own. The forest keeps every
    /// node it had, unchanged.
    #[verifier::rlimit(60)]
    pub fn deep_copy(self, f: &mut Forest) -> (r: Node)
        requires
            old(f).wf(),
            old(f).nodes().contains_key(self.0),
        ensures
            final(f).wf(),
            !old(f).nodes().contains_key(r.0),
            final(f).nodes().contains_key(r.0),
            final(f).nodes()[r.0].sort == old(f).nodes()[self.0].sort,
            final(f).nodes()[r.0].parent is None,
            forall|x: Index|
                #[trigger] old(f).nodes().contains_key(x) ==> final(f).nodes().contains_key(x)
                    && final(f).nodes()[x] == old(f).nodes()[x],
    {
        let ghost m0 = f.nodes();
        let ghost rank0 = f.rank@;
        let top = self.copy_one(f);
        let mut work: Vec<(Index, Index)> = Vec::new();
        let mut visited: Vec<Index> = Vec::new();
        if !self.is_leaf(f) {
            work.push((self.0, top.0));
        }
        while work.len() > 0
            invariant
                f.wf(),
                wf_nodes(m0, rank0),
                m0.dom().finite(),
                visited@.no_duplicates(),
                forall|k: int| 0 <= k < visited@.len() ==> m0.contains_key(#[trigger] visited@[k]),
                forall|x: Index|
                    #[trigger] m0.contains_key(x) ==> f.nodes().contains_key(x) && f.nodes()[x]
                        == m0[x],
                !m0.contains_key(top.0),
                f.nodes().contains_key(top.0),
                f.nodes()[top.0].parent is None,
                f.nodes()[top.0].sort == m0[self.0].sort,
                forall|k: int|
                    0 <= k < work@.len() ==> m0.contains_key((#[trigger] work@[k]).0)
                        && m0[work@[k].0].children is Branch && f.nodes().contains_key(work@[k].1)
                        && !m0.contains_key(work@[k].1) && f.nodes()[work@[k].1].children is Branch,
            decreases m0.dom().len() - visited@.len(), work@.len(),
        {
            proof {
                visited@.unique_seq_to_set();
                assert(visited@.to_set().subset_of(m0.dom()));
                vstd::set_lib::lemma_len_subset(visited@.to_set(), m0.dom());
            }
            let (orig, copy) = work.pop().unwrap();
            let mut seen = false;
            let mut v: usize = 0;
            while v < visited.len()
                invariant
                    0 <= v <= visited.len(),
                    seen == exists|q: int| 0 <= q < v && visited@[q] == orig,
                decreases visited.len() - v,
            {
                if visited[v] == orig {
                    seen = true;
                }
                v = v + 1;
            }
            if !seen {
                proof {
                    assert(!visited@.contains(orig));
                    let nv = visited@.push(orig);
                    nv.unique_seq_to_set();
                    assert(nv.to_set().subset_of(m0.dom()));
                    vstd::set_lib::lemma_len_subset(nv.to_set(), m0.dom());
                }
                visited.push(orig);
                let n_children = Node(orig).children(f).len();
                let mut k: usize = 0;
                while k < n_children
                    invariant
                        f.wf(),
                        wf_nodes(m0, rank0),
                        m0.contains_key(orig),
                        m0[orig].children is Branch,
                        n_children == kids(m0[orig]).len(),
                        forall|x: Index|
                            #[trigger] m0.contains_key(x) ==> f.nodes().contains_key(x) && f.nodes()[x]
                                == m0[x],
                        !m0.contains_key(top.0),
                        f.nodes().contains_key(top.0),
                        f.nodes()[top.0].parent is None,
                        f.nodes()[top.0].sort == m0[self.0].sort,
                        !m0.contains_key(copy),
                        f.nodes().contains_key(copy),
                        f.nodes()[copy].children is Branch,
                        forall|q: int|
                            0 <= q < work@.len() ==> m0.contains_key((#[trigger] work@[q]).0)
                                && m0[work@[q].0].children is Branch && f.nodes().contains_key(
                                work@[q].1,
                            ) && !m0.contains_key(work@[q].1) && f.nodes()[work@[q].1].children is Branch,
                    decreases n_children - k,
                {
                    proof {
                        assert(kids_ok(m0, orig));
                        assert(m0.contains_key(kids(m0[orig])[k as int]));
                    }
                    let child = Node(Node(orig).children(f)[k]);
                    let c = child.copy_one(f);
                    let parent_copy = Node(copy);
                    let len = parent_copy.children(f).len();
                    let _ = parent_copy.insert_child(f, len, c);
                    if !child.is_leaf(f) {
                        work.push((child.0, c.0));
                    }
                    k = k + 1;
                }
            }
        }
        top
    }

    /// The sort this node satisfies.
    pub fn sort(self, f: &Forest) -> (r: &String)
        requires
            f.nodes().contains_key(self.0),
        ensures
            *r == f.nodes()[self.0].sort,
    {
        match arena_get(&f.arena, self.0) {
            Some(c) => &c.sort,
            None => {
                assert(false);
                unreached()
            },
        }
    }

    /// The sorts this node's slots require.
    pub fn slots(self, f: &Forest) -> (r: &Vec<String>)
        requires
            f.nodes().contains_key(self.0),
        ensures
            r@ == f.nodes()[self.0].slots@,
    {
        match arena_get(&f.arena, self.0) {
            Some(c) => &c.slots,
            None => {
                assert(false);
                unreached()
            },
        }
    }

    /// Give this node its sort and the sorts its slots require. Links and
    /// everything else stay as they are.
    pub fn set_sorts(self, f: &mut Forest, sort: String, slots: Vec<String>)
        requires
            old(f).wf(),
            old(f).nodes().contains_key(self.0),
        ensures
            final(f).wf(),
            final(f).roots == old(f).roots,
            final(f).nodes() == old(f).nodes().insert(self.0, with_sorts(old(f).nodes()[self.0], sort, slots)),
    {
        proof {
            lemma_sorts_change(f.nodes(), f.rank@, f.roots@, self.0, sort, slots);
        }
        match arena_get_mut(&mut f.arena, self.0) {
            Some(c) => {
                c.sort = sort;
                c.slots = slots;
            },
            None => {},
        }
        proof {
            assert(f.nodes().dom() =~= old(f).nodes().dom().insert(self.0));
        }
    }

    /// Whether this is a fixed branch.
    pub fn is_fixed(self, f: &Forest) -> (r: bool)
        requires
            f.nodes().contains_key(self.0),
        ensures
            r == f.nodes()[self.0].fixed,
    {
        match arena_get(&f.arena, self.0) {
            Some(c) => c.fixed,
            None => false,
        }
    }

    /// The text of a leaf.
    pub fn leaf(self, f: &Forest) -> (r: &String)
        requires
            f.nodes().contains_key(self.0),
            f.nodes()[self.0].children is Leaf,
        ensures
            f.nodes()[self.0].children == NodeChildren::Leaf(*r),
    {
        match arena_get(&f.arena, self.0) {
            Some(c) => match &c.children {
                NodeChildren::Leaf(l) => l,
                NodeChildren::Branch(_) => {
                    assert(false);
                    unreached()
                },
            },
            None => {
                assert(false);
                unreached()
            },
        }
    }

    /// The place of this node among its parent's children; `None` for a
    /// root.
    pub fn sibling_index(self, f: &Forest) -> (r: Option<usize>)
        requires
            f.wf(),
            f.nodes().contains_key(self.0),
        ensures
            r is None <==> f.nodes()[self.0].parent is None,
            r matches Some(i) ==> {
                let p = f.nodes()[self.0].parent->0;
                i < kids(f.nodes()[p]).len() && kids(f.nodes()[p])[i as int] == self.0
            },
    {
        match self.parent(f) {
            None => None,
            Some(p) => {
                proof {
                    assert(parent_ok(f.nodes(), f.rank@, self.0));
                }
                let siblings = p.children(f);
                let mut i: usize = 0;
                while i < siblings.len()
                    invariant
                        0 <= i <= siblings.len(),
                        f.nodes().contains_key(self.0),
                        f.nodes().contains_key(p.0),
                        f.nodes()[self.0].parent == Some(p.0),
                        siblings@ == kids(f.nodes()[p.0]),
                        siblings@.contains(self.0),
                        forall|j: int| 0 <= j < i ==> siblings@[j] != self.0,
                    decreases siblings.len() - i,
                {
                    if siblings[i] == self.0 {
                        return Some(i);
                    }
                    i = i + 1;
                }
                assert(false);
                None
            },
        }
    }

    /// Detach this node from its parent, which then has one child fewer.
    /// Afterwards the node is a root. For a root, nothing changes.
    pub fn detach(self, f: &mut Forest)
        requires
            old(f).wf(),
            old(f).nodes().contains_key(self.0),
        ensures
            final(f).wf(),
            final(f).rank@ == old(f).rank@,
            final(f).nodes().dom() == old(f).nodes().dom(),
            final(f).nodes()[self.0].parent is None,
            final(f).nodes()[self.0].data == old(f).nodes()[self.0].data,
            kids(final(f).nodes()[self.0]) == kids(old(f).nodes()[self.0]),
            final(f).nodes()[self.0].children is Branch == old(f).nodes()[self.0].children is Branch,
            old(f).nodes()[self.0].parent matches Some(p) ==> kids(final(f).nodes()[p]) == kids(
                old(f).nodes()[p],
            ).remove(kids(old(f).nodes()[p]).index_of(self.0)),
            forall|n: Index|
                n != self.0 && Some(n) != old(f).nodes()[self.0].parent
                    ==> #[trigger] final(f).nodes()[n] == old(f).nodes()[n],
            forall|n: Index| #[trigger] final(f).nodes()[n].parent == old(f).nodes()[n].parent
                || n == self.0,
            old(f).nodes()[self.0].parent is None ==> *final(f) == *old(f),
            old(f).nodes()[self.0].parent is Some ==> final(f).roots@ == old(f).roots@.push(self.0),
            old(f).nodes()[self.0].parent matches Some(p) ==> final(f).nodes()[p].parent == old(f).nodes()[p].parent
                && final(f).nodes()[p].data == old(f).nodes()[p].data && final(f).nodes()[p].fixed == old(f).nodes()[p].fixed
                && final(f).nodes()[p].children is Branch,
            final(f).nodes()[self.0].fixed == old(f).nodes()[self.0].fixed,
            final(f).nodes()[self.0].children == old(f).nodes()[self.0].children,
    {
        let i = match self.sibling_index(f) {
            None => {
                return;
            },
            Some(i) => i,
        };
        let p = match self.parent(f) {
            Some(p) => p,
            None => {
                return;
            },
        };
        let ghost m = f.nodes();
        let ghost rank = f.rank@;
        proof {
            assert(parent_ok(m, rank, self.0));
            assert(kids_ok(m, p.0));
            lemma_remove_at(kids(m[p.0]), i as int);
            kids(m[p.0]).index_of_first(self.0);
        }
        match arena_get_mut(&mut f.arena, p.0) {
            Some(c) => match &mut c.children {
                NodeChildren::Branch(v) => {
                    v.remove(i);
                },
                NodeChildren::Leaf(_) => {},
            },
            None => {},
        }
        match arena_get_mut(&mut f.arena, self.0) {
            Some(c) => {
                c.parent = None;
            },
            None => {},
        }
        proof {
            let m2 = f.nodes();
            assert(kids(m[p.0]).index_of(self.0) == i);
            assert forall|n: Index| #[trigger] m2.contains_key(n) implies parent_ok(m2, rank, n)
                && kids_ok(m2, n) by {
                assert(parent_ok(m, rank, n));
                assert(kids_ok(m, n));
                if n == p.0 {
                    let ks = kids(m2[n]);
                    assert forall|j: int| 0 <= j < ks.len() implies m2.contains_key(
                        #[trigger] ks[j],
                    ) && m2[ks[j]].parent == Some(n) by {
                        assert(kids(m[n]).contains(ks[j]));
                        let k = choose|k: int| 0 <= k < kids(m[n]).len() && kids(m[n])[k] == ks[j];
                        assert(m.contains_key(kids(m[n])[k]));
                    }
                } else {
                    let ks = kids(m2[n]);
                    assert forall|j: int| 0 <= j < ks.len() implies m2.contains_key(
                        #[trigger] ks[j],
                    ) && m2[ks[j]].parent == Some(n) by {
                        assert(m.contains_key(kids(m[n])[j]));
                    }
                }
                if n != self.0 {
                    match m[n].parent {
                        Some(q) => {
                            if q == p.0 {
                                assert(kids(m[p.0]).contains(n));
                            }
                        },
                        None => {},
                    }
                }
            }
            assert(m2.dom() =~= m.dom());
            lemma_roots_gain(m, f.roots@, m2, self.0);
        }
        f.roots.push(self.0);
    }

    /// Insert `node` as this node's `child_index`th child, after detaching
    /// it from its parent. Nothing changes, and the result is `false`, when
    /// this node is a leaf, `child_index` is past the end of its children,
    /// or both nodes lie in one tree (which could make a cycle).
    pub fn insert_child(self, f: &mut Forest, child_index: usize, node: Node) -> (r: bool)
        requires
            old(f).wf(),
            old(f).nodes().contains_key(self.0),
            old(f).nodes().contains_key(node.0),
        ensures
            final(f).wf(),
            r == (old(f).nodes()[self.0].children is Branch && child_index <= kids(
                old(f).nodes()[self.0],
            ).len() && old(f).spec_root(self.0) != old(f).spec_root(node.0)),
            !r ==> *final(f) == *old(f),
            r ==> final(f).nodes().dom() == old(f).nodes().dom(),
            r ==> kids(final(f).nodes()[self.0]) == kids(old(f).nodes()[self.0]).insert(
                child_index as int,
                node.0,
            ),
            r ==> final(f).nodes()[node.0].parent == Some(self.0),
            r ==> (old(f).nodes()[node.0].parent is None ==> final(f).roots@ == old(f).roots@.remove(
                old(f).roots@.index_of(node.0),
            )),
            r ==> (old(f).nodes()[node.0].parent is Some ==> final(f).roots@ == old(f).roots@),
            r ==> (old(f).nodes()[node.0].parent matches Some(q) ==> kids(final(f).nodes()[q]) == kids(
                old(f).nodes()[q],
            ).remove(kids(old(f).nodes()[q]).index_of(node.0))),
            r ==> final(f).nodes()[self.0].parent == old(f).nodes()[self.0].parent,
            r ==> final(f).nodes()[self.0].data == old(f).nodes()[self.0].data,
            r ==> final(f).nodes()[self.0].fixed == old(f).nodes()[self.0].fixed,
            r ==> final(f).nodes()[self.0].sort == old(f).nodes()[self.0].sort,
            r ==> final(f).nodes()[self.0].children is Branch,
            r ==> kids(final(f).nodes()[node.0]) == kids(old(f).nodes()[node.0]),
            r ==> final(f).nodes()[node.0].children == old(f).nodes()[node.0].children
                && final(f).nodes()[node.0].data == old(f).nodes()[node.0].data,
            r ==> (final(f).nodes()[node.0].children is Branch == old(
                f,
            ).nodes()[node.0].children is Branch),
            r ==> forall|n: Index|
                n != self.0 && n != node.0 && Some(n) != old(f).nodes()[node.0].parent
                    ==> #[trigger] final(f).nodes()[n] == old(f).nodes()[n],
    {
        if self.is_leaf(f) {
            return false;
        }
        if child_index > self.children(f).len() {
            return false;
        }
        if self.root(f).0 == node.root(f).0 {
            return false;
        }
        let ghost m0 = f.nodes();
        let ghost rank = f.rank@;
        proof {
            lemma_root_is_root(m0, rank, self.0);
            lemma_root_is_root(m0, rank, node.0);
            if is_desc(m0, rank, self.0, node.0) {
                lemma_desc_same_root(m0, rank, self.0, node.0);
            }
            if m0[node.0].parent is Some {
                assert(parent_ok(m0, rank, node.0));
                assert(m0[node.0].parent->0 != self.0);
            }
        }
        node.detach(f);
        let ghost m1 = f.nodes();
        proof {
            lemma_cut_roots(m0, m1, rank, node.0, self.0);
            assert(root_of(m1, rank, self.0) != node.0);
        }
        match arena_get_mut(&mut f.arena, self.0) {
            Some(c) => match &mut c.children {
                NodeChildren::Branch(v) => {
                    v.insert(child_index, node.0);
                },
                NodeChildren::Leaf(_) => {},
            },
            None => {},
        }
        match arena_get_mut(&mut f.arena, node.0) {
            Some(c) => {
                c.parent = Some(self.0);
            },
            None => {},
        }
        proof {
            let m2 = f.nodes();
            assert(m1[node.0].parent is None);
            assert(m2.dom() == m1.dom());
            assert(m2[self.0].parent == m1[self.0].parent);
            assert(m2[self.0].children is Branch);
            assert(kids(m2[self.0]) == kids(m1[self.0]).insert(child_index as int, node.0));
            assert(m2[node.0].parent == Some(self.0));
            assert(kids(m2[node.0]) == kids(m1[node.0]));
            assert(forall|n: Index| n != self.0 && n != node.0 ==> #[trigger] m2[n] == m1[n]);
            lemma_attach(m1, m2, rank, self.0, node.0, child_index as int);
            f.rank@ = shifted(m1, rank, node.0, rank[self.0] + 1);
            assert(f.roots@.contains(node.0));
        }
        let ghost roots1 = f.roots@;
        remove_root(&mut f.roots, node.0);
        proof {
            let m2 = f.nodes();
            assert(m2.dom() =~= m1.dom());
            assert(forall|n: Index| n != node.0 ==> #[trigger] m2[n].parent == m1[n].parent);
            lemma_roots_lose(m1, roots1, m2, node.0, f.roots@);
            if m0[node.0].parent is Some {
                let o = old(f).roots@;
                assert(roots1 == o.push(node.0));
                assert(roots1.contains(roots1[o.len() as int]));
                assert(roots1.index_of(node.0) == o.len());
                assert(roots1.remove(o.len() as int) =~= o);
            }
        }
        true
    }

    /// Remove this node from its parent, if any, and delete it and all of
    /// its descendants. Their handles become invalid.
    pub fn delete(self, f: &mut Forest)
        requires
            old(f).wf(),
            old(f).nodes().contains_key(self.0),
        ensures
            final(f).wf(),
            forall|d: Index|
                #[trigger] final(f).nodes().contains_key(d) <==> old(f).nodes().contains_key(d)
                    && !is_desc(old(f).nodes(), old(f).rank@, d, self.0),
            forall|d: Index|
                final(f).nodes().contains_key(d) && Some(d) != old(f).nodes()[self.0].parent
                    ==> #[trigger] final(f).nodes()[d] == old(f).nodes()[d],
            old(f).nodes()[self.0].parent matches Some(p) ==> kids(final(f).nodes()[p]) == kids(
                old(f).nodes()[p],
            ).remove(kids(old(f).nodes()[p]).index_of(self.0)),
            old(f).nodes()[self.0].parent is Some ==> final(f).roots@ == old(f).roots@,
            old(f).nodes()[self.0].parent is None ==> final(f).roots@ == old(f).roots@.remove(
                old(f).roots@.index_of(self.0),
            ),
            old(f).nodes()[self.0].parent matches Some(p) ==> final(f).nodes().contains_key(p)
                && final(f).nodes()[p].parent == old(f).nodes()[p].parent
                && final(f).nodes()[p].data == old(f).nodes()[p].data
                && final(f).nodes()[p].fixed == old(f).nodes()[p].fixed,
    {
        let ghost m0 = f.nodes();
        self.detach(f);
        let ghost m1 = f.nodes();
        let ghost rank = f.rank@;
        proof {
            assert forall|d: Index| #[trigger] m1.contains_key(d) implies (root_of(m1, rank, d)
                == self.0) == is_desc(m0, rank, d, self.0) by {
                lemma_cut_roots(m0, m1, rank, self.0, d);
                if !is_desc(m0, rank, d, self.0) && root_of(m0, rank, d) == self.0 {
                    lemma_root_desc(m0, rank, d);
                }
            }
        }
        proof {
            match m0[self.0].parent {
                Some(p) => {
                    assert(parent_ok(m0, rank, self.0));
                    if is_desc(m0, rank, p, self.0) {
                        lemma_desc_rank(m0, rank, p, self.0);
                    }
                    assert(m1.contains_key(p));
                    assert(root_of(m1, rank, p) != self.0);
                },
                None => {},
            }
        }
        let ghost r1 = f.roots@;
        free_tree(f, self.0);
        proof {
            if m0[self.0].parent is Some {
                let o = old(f).roots@;
                assert(r1 == o.push(self.0));
                assert(r1.contains(r1[o.len() as int]));
                assert(r1.index_of(self.0) == o.len());
                assert(r1.remove(o.len() as int) =~= o);
            }
            match m0[self.0].parent {
                Some(p) => {
                    assert(f.nodes().contains_key(p));
                    assert(f.nodes()[p] == m1[p]);
                },
                None => {},
            }
        }
    }

    /// Swap the places of this node and `other`, each taking the other's
    /// parent and position. Nothing changes, and the result is `false`, when
    /// both lie in one tree.
    pub fn swap(self, f: &mut Forest, other: Node) -> (r: bool)
        requires
            old(f).wf(),
            old(f).nodes().contains_key(self.0),
            old(f).nodes().contains_key(other.0),
        ensures
            final(f).wf(),
            r == (old(f).spec_root(self.0) != old(f).spec_root(other.0)),
            !r ==> *final(f) == *old(f),
            r ==> final(f).nodes().dom() == old(f).nodes().dom(),
            r ==> final(f).nodes()[self.0].parent == old(f).nodes()[other.0].parent,
            r ==> final(f).roots@ == old(f).roots@.map_values(|x: Index| swap_in(x, self.0, other.0)),
            r ==> final(f).nodes()[other.0].parent == old(f).nodes()[self.0].parent,
            r ==> final(f).nodes()[self.0].data == old(f).nodes()[self.0].data
                && final(f).nodes()[other.0].data == old(f).nodes()[other.0].data,
            r ==> final(f).nodes()[other.0].fixed == old(f).nodes()[other.0].fixed && kids(
                final(f).nodes()[other.0],
            ) == kids(old(f).nodes()[other.0]) && (final(f).nodes()[other.0].children is Branch
                == old(f).nodes()[other.0].children is Branch),
            r ==> (old(f).nodes()[self.0].parent matches Some(p) ==> kids(final(f).nodes()[p])
                == kids(old(f).nodes()[p]).update(
                kids(old(f).nodes()[p]).index_of(self.0),
                other.0,
            )),
            r ==> (old(f).nodes()[other.0].parent matches Some(q) ==> kids(final(f).nodes()[q])
                == kids(old(f).nodes()[q]).update(
                kids(old(f).nodes()[q]).index_of(other.0),
                self.0,
            )),
    {
        if self.root(f).0 == other.root(f).0 {
            return false;
        }
        let ghost m = f.nodes();
        let ghost rank = f.rank@;
        let pa = self.parent(f);
        let pb = other.parent(f);
        let i = match self.sibling_index(f) {
            Some(i) => i,
            None => 0,
        };
        let j = match other.sibling_index(f) {
            Some(j) => j,
            None => 0,
        };
        proof {
            match pa {
                Some(p) => {
                    assert(kids_ok(m, p.0));
                    kids(m[p.0]).index_of_first(self.0);
                },
                None => {},
            }
            match pb {
                Some(q) => {
                    assert(kids_ok(m, q.0));
                    kids(m[q.0]).index_of_first(other.0);
                },
                None => {},
            }
            if pa is Some {
                lemma_root_step(m, rank, self.0);
            }
            if pb is Some {
                lemma_root_step(m, rank, other.0);
            }
            assert(self.0 != other.0);
            assert(pa matches Some(p) ==> p.0 != other.0 && p.0 != self.0);
            assert(pb matches Some(q) ==> q.0 != self.0 && q.0 != other.0);
            assert(pa matches Some(p) ==> pb matches Some(q) ==> p.0 != q.0);
        }
        match pa {
            Some(p) => match arena_get_mut(&mut f.arena, p.0) {
                Some(c) => match &mut c.children {
                    NodeChildren::Branch(v) => {
                        v.set(i, other.0);
                    },
                    NodeChildren::Leaf(_) => {},
                },
                None => {},
            },
            None => {},
        }
        match pb {
            Some(q) => match arena_get_mut(&mut f.arena, q.0) {
                Some(c) => match &mut c.children {
                    NodeChildren::Branch(v) => {
                        v.set(j, self.0);
                    },
                    NodeChildren::Leaf(_) => {},
                },
                None => {},
            },
            None => {},
        }
        match arena_get_mut(&mut f.arena, self.0) {
            Some(c) => {
                c.parent = match pb {
                    Some(q) => Some(q.0),
                    None => None,
                };
            },
            None => {},
        }
        match arena_get_mut(&mut f.arena, other.0) {
            Some(c) => {
                c.parent = match pa {
                    Some(p) => Some(p.0),
                    None => None,
                };
            },
            None => {},
        }
        proof {
            let m2 = f.nodes();
            assert(m2.dom() == m.dom());
            assert(m2[self.0].parent == m[other.0].parent);
            assert(m2[other.0].parent == m[self.0].parent);
            assert(kids(m2[self.0]) == kids(m[self.0]));
            assert(kids(m2[other.0]) == kids(m[other.0]));
            assert(forall|n: Index|
                n != self.0 && n != other.0 && Some(n) != m[self.0].parent && Some(n)
                    != m[other.0].parent ==> #[trigger] m2[n] == m[n]);
            assert(swapped(m, m2, self.0, other.0, i as int, j as int));
            lemma_swap(m, m2, rank, self.0, other.0, i as int, j as int);
            f.rank@ = swap_rank(m, rank, self.0, other.0);
        }
        let ghost roots0 = f.roots@;
        let ghost m2 = f.nodes();
        swap_roots(&mut f.roots, self.0, other.0);
        proof {
            assert(m2.dom() =~= m.dom());
            assert(forall|n: Index|
                n != self.0 && n != other.0 ==> #[trigger] m2[n].parent == m[n].parent);
            lemma_roots_swap(m, roots0, m2, self.0, other.0, f.roots@);
        }
        true
    }

    /// The node's data, to change in place.
    pub fn data_mut(self, f: &mut Forest) -> (r: &mut String)
        requires
            old(f).wf(),
            old(f).nodes().contains_key(self.0),
        ensures
            *r == old(f).nodes()[self.0].data,
            final(f).wf(),
            final(f).rank@ == old(f).rank@,
            final(f).nodes() == old(f).nodes().insert(
                self.0,
                with_data(old(f).nodes()[self.0], *final(r)),
            ),
    {
        proof {
            lemma_data_change(f.nodes(), f.rank@, self.0);
        }
        match arena_get_mut(&mut f.arena, self.0) {
            Some(c) => &mut c.data,
            None => {
                assert(false);
                unreached()
            },
        }
    }

    /// The text of a leaf, to change in place.
    pub fn leaf_mut(self, f: &mut Forest) -> (r: &mut String)
        requires
            old(f).wf(),
            old(f).nodes().contains_key(self.0),
            old(f).nodes()[self.0].children is Leaf,
        ensures
            old(f).nodes()[self.0].children == NodeChildren::Leaf(*r),
            final(f).wf(),
            final(f).rank@ == old(f).rank@,
            final(f).nodes() == old(f).nodes().insert(
                self.0,
                with_leaf(old(f).nodes()[self.0], *final(r)),
            ),
    {
        proof {
            lemma_leaf_change(f.nodes(), f.rank@, self.0);
        }
        match arena_get_mut(&mut f.arena, self.0) {
            Some(c) => match &mut c.children {
                NodeChildren::Leaf(t) => t,
                NodeChildren::Branch(_) => {
                    assert(false);
                    unreached()
                },
            },
            None => {
                assert(false);
                unreached()
            },
        }
    }

    /// This node's siblings, in order, itself included; `None` for a root.
    pub fn siblings(self, f: &Forest) -> (r: Option<&Vec<Index>>)
        requires
            f.wf(),
            f.nodes().contains_key(self.0),
        ensures
            r is None <==> f.nodes()[self.0].parent is None,
            r matches Some(v) ==> v@ == kids(f.nodes()[f.nodes()[self.0].parent->0]),
    {
        match self.parent(f) {
            None => None,
            Some(p) => {
                proof {
                    assert(parent_ok(f.nodes(), f.rank@, self.0));
                }
                Some(p.children(f))
            },
        }
    }

    /// The children of a branch, in order.
    pub fn children(self, f: &Forest) -> (r: &Vec<Index>)
        requires
            f.nodes().contains_key(self.0),
            f.nodes()[self.0].children is Branch,
        ensures
            r@ == kids(f.nodes()[self.0]),
    {
        match arena_get(&f.arena, self.0) {
            Some(c) => match &c.children {
                NodeChildren::Branch(v) => v,
                NodeChildren::Leaf(_) => {
                    assert(false);
                    unreached()
                },
            },
            None => {
                assert(false);
                unreached()
            },
        }
    }
}

} // verus!
