//! How the links in an arena spell out a tree, and what a change to a few
//! nodes leaves standing.

use vstd::prelude::*;
use crate::tree::key::Key;
use crate::tree::node::{at, same_links, Node};
use crate::tree::shape::{path_idxs, plug, sorted, Path, Shape, NIL};

verus! {

/// The nodes reachable from slot `i` form the tree `t`: each node holds the
/// key and colour that `t` gives it, its links lead to the roots of its
/// subtrees, and each child links back to it.
pub open spec fn shaped<T: Key>(nodes: Seq<Node<T>>, i: usize, t: Shape<T>) -> bool
    decreases t,
{
    match t {
        Shape::Leaf => i == NIL,
        Shape::Node { left, idx, key, color, right } => {
            let n = at(nodes, idx);
            &&& i == idx
            &&& idx != NIL
            &&& idx < nodes.len()
            &&& n.addr == idx
            &&& n.item == key
            &&& n.color == color
            &&& shaped(nodes, n.left, *left)
            &&& shaped(nodes, n.right, *right)
            &&& n.left != NIL ==> at(nodes, n.left).parent == idx
            &&& n.right != NIL ==> at(nodes, n.right).parent == idx
        },
    }
}

/// `t` is the whole tree under `root`: it is spelled out by the links, no
/// slot is used twice, and the root has no parent.
pub open spec fn tree_at<T: Key>(nodes: Seq<Node<T>>, root: usize, t: Shape<T>) -> bool {
    &&& shaped(nodes, root, t)
    &&& t.distinct()
    &&& root != NIL ==> at(nodes, root).parent == NIL
}

/// The nodes on `path` are linked as the path says, down to `hole`, the slot
/// (or null link) found at its end.
pub open spec fn path_shaped<T: Key>(nodes: Seq<Node<T>>, path: Path<T>, hole: usize) -> bool
    decreases path.len(),
{
    if path.len() == 0 {
        hole != NIL ==> hole < nodes.len() && at(nodes, hole).parent == NIL
    } else {
        let f = path.last();
        let n = at(nodes, f.idx);
        &&& f.idx != NIL
        &&& f.idx < nodes.len()
        &&& n.addr == f.idx
        &&& n.item == f.key
        &&& n.color == f.color
        &&& if f.left_hole {
            &&& n.left == hole
            &&& shaped(nodes, n.right, f.other)
            &&& n.right != NIL ==> at(nodes, n.right).parent == f.idx
        } else {
            &&& n.right == hole
            &&& shaped(nodes, n.left, f.other)
            &&& n.left != NIL ==> at(nodes, n.left).parent == f.idx
        }
        &&& hole != NIL ==> hole < nodes.len() && at(nodes, hole).parent == f.idx
        &&& path_shaped(nodes, path.drop_last(), f.idx)
    }
}

/// The slot of the root, seen from the end of a path.
pub open spec fn path_root<T: Key>(path: Path<T>, hole: usize) -> usize {
    if path.len() == 0 {
        hole
    } else {
        path[0].idx
    }
}

/// The slot of the node just above the end of a path, null at the root.
pub open spec fn path_parent<T: Key>(path: Path<T>) -> usize {
    if path.len() == 0 {
        NIL
    } else {
        path.last().idx
    }
}

/// No slot stands at two places on or beside the path.
pub open spec fn path_distinct<T: Key>(path: Path<T>) -> bool
    decreases path.len(),
{
    if path.len() == 0 {
        true
    } else {
        let f = path.last();
        &&& f.other.distinct()
        &&& !f.other.idxs().contains(f.idx)
        &&& f.idxs().disjoint(path_idxs(path.drop_last()))
        &&& path_distinct(path.drop_last())
    }
}

/// How many steps below the top of `t` the slot `j` stands.
pub open spec fn depth<T: Key>(t: Shape<T>, j: usize) -> nat
    decreases t,
{
    match t {
        Shape::Leaf => 0,
        Shape::Node { left, idx, right, .. } => if j == idx {
            0
        } else if left.idxs().contains(j) {
            1 + depth(*left, j)
        } else {
            1 + depth(*right, j)
        },
    }
}

/// Every node of a tree but its top has its parent in the tree, one step
/// nearer to the top.
pub proof fn lemma_parent_depth<T: Key>(nodes: Seq<Node<T>>, i: usize, t: Shape<T>, j: usize)
    requires
        shaped(nodes, i, t),
        t.distinct(),
        t.idxs().contains(j),
        j != i,
    ensures
        t.idxs().contains(at(nodes, j).parent),
        depth(t, at(nodes, j).parent) + 1 == depth(t, j),
    decreases t,
{
    match t {
        Shape::Leaf => {},
        Shape::Node { left, idx, right, .. } => {
            let n = at(nodes, idx);
            lemma_shaped_in_range(nodes, n.left, *left);
            lemma_shaped_in_range(nodes, n.right, *right);
            let q = at(nodes, j).parent;
            if left.idxs().contains(j) {
                if j != n.left {
                    lemma_parent_depth(nodes, n.left, *left, j);
                    assert(left.idxs().contains(q));
                    assert(depth(t, q) == 1 + depth(*left, q));
                } else {
                    assert(depth(*left, j) == 0);
                    assert(q == idx);
                }
            } else {
                assert(right.idxs().contains(j));
                if j != n.right {
                    lemma_parent_depth(nodes, n.right, *right, j);
                    assert(right.idxs().contains(q));
                    assert(!left.idxs().contains(q));
                    assert(depth(t, q) == 1 + depth(*right, q));
                } else {
                    assert(depth(*right, j) == 0);
                    assert(q == idx);
                }
            }
        },
    }
}

/// The subtree that the links spell out under the slot `i`.
pub open spec fn shape_at<T: Key>(nodes: Seq<Node<T>>, i: usize) -> Shape<T> {
    choose|t: Shape<T>| shaped(nodes, i, t)
}

/// The tree under `root`, where the links spell one out.
pub open spec fn tree_of<T: Key>(nodes: Seq<Node<T>>, root: usize) -> Shape<T> {
    choose|t: Shape<T>| tree_at(nodes, root, t)
}

/// The links under `root` spell out a red-black tree with its keys in order.
pub open spec fn valid<T: Key>(nodes: Seq<Node<T>>, root: usize) -> bool {
    exists|t: Shape<T>| #[trigger] tree_at(nodes, root, t) && t.red_black() && sorted(t.inorder())
}

/// A tree spelled out under `root` is the tree under `root`.
pub proof fn lemma_tree_of<T: Key>(nodes: Seq<Node<T>>, root: usize, t: Shape<T>)
    requires
        tree_at(nodes, root, t),
    ensures
        tree_of(nodes, root) == t,
{
    lemma_shaped_unique(nodes, root, t, tree_of(nodes, root));
}

/// A tree has as many keys as nodes.
pub proof fn lemma_size_is_len<T: Key>(t: Shape<T>)
    ensures
        t.inorder().len() == t.size(),
    decreases t,
{
    match t {
        Shape::Leaf => {},
        Shape::Node { left, right, .. } => {
            lemma_size_is_len(*left);
            lemma_size_is_len(*right);
        },
    }
}

/// The links determine the tree.
pub proof fn lemma_shaped_unique<T: Key>(nodes: Seq<Node<T>>, i: usize, t1: Shape<T>, t2: Shape<T>)
    requires
        shaped(nodes, i, t1),
        shaped(nodes, i, t2),
    ensures
        t1 == t2,
    decreases t1,
{
    match t1 {
        Shape::Leaf => {},
        Shape::Node { left, idx, right, .. } => {
            match t2 {
                Shape::Leaf => {},
                Shape::Node { left: left2, right: right2, .. } => {
                    lemma_shaped_unique(nodes, at(nodes, idx).left, *left, *left2);
                    lemma_shaped_unique(nodes, at(nodes, idx).right, *right, *right2);
                },
            }
        },
    }
}

/// Every slot of a spelled-out tree is a slot of the arena.
pub proof fn lemma_shaped_in_range<T: Key>(nodes: Seq<Node<T>>, i: usize, t: Shape<T>)
    requires
        shaped(nodes, i, t),
    ensures
        forall|j: usize| #[trigger] t.idxs().contains(j) ==> j != NIL && j < nodes.len(),
        t.root() == i,
    decreases t,
{
    match t {
        Shape::Leaf => {},
        Shape::Node { left, idx, right, .. } => {
            lemma_shaped_in_range(nodes, at(nodes, idx).left, *left);
            lemma_shaped_in_range(nodes, at(nodes, idx).right, *right);
            assert forall|j: usize| #[trigger] t.idxs().contains(j) implies j != NIL && j
                < nodes.len() by {
                if j != idx {
                    assert(left.idxs().contains(j) || right.idxs().contains(j));
                }
            }
        },
    }
}

/// A tree stays spelled out when its nodes keep everything but, at most, the
/// parent link of its root.
pub proof fn lemma_shaped_frame<T: Key>(n1: Seq<Node<T>>, n2: Seq<Node<T>>, i: usize, t: Shape<T>)
    requires
        shaped(n1, i, t),
        t.distinct(),
        n1.len() == n2.len(),
        forall|j: usize| #[trigger]
            t.idxs().contains(j) ==> same_links(at(n1, j), at(n2, j)) && (j != i ==> at(n1, j).parent
                == at(n2, j).parent),
    ensures
        shaped(n2, i, t),
    decreases t,
{
    match t {
        Shape::Leaf => {},
        Shape::Node { left, idx, right, .. } => {
            let n = at(n1, idx);
            assert(t.idxs().contains(idx));
            lemma_shaped_in_range(n1, n.left, *left);
            lemma_shaped_in_range(n1, n.right, *right);
            assert forall|j: usize| #[trigger] left.idxs().contains(j) implies same_links(
                at(n1, j),
                at(n2, j),
            ) && at(n1, j).parent == at(n2, j).parent by {
                assert(t.idxs().contains(j));
            }
            assert forall|j: usize| #[trigger] right.idxs().contains(j) implies same_links(
                at(n1, j),
                at(n2, j),
            ) && at(n1, j).parent == at(n2, j).parent by {
                assert(t.idxs().contains(j));
            }
            lemma_shaped_frame(n1, n2, n.left, *left);
            lemma_shaped_frame(n1, n2, n.right, *right);
            if n.left != NIL {
                assert(left.idxs().contains(n.left));
            }
            if n.right != NIL {
                assert(right.idxs().contains(n.right));
            }
        },
    }
}

/// A tree stays spelled out when none of its nodes changes.
pub proof fn lemma_shaped_same<T: Key>(n1: Seq<Node<T>>, n2: Seq<Node<T>>, i: usize, t: Shape<T>)
    requires
        shaped(n1, i, t),
        n1.len() == n2.len(),
        forall|j: usize| #[trigger] t.idxs().contains(j) ==> at(n1, j) == at(n2, j),
    ensures
        shaped(n2, i, t),
    decreases t,
{
    match t {
        Shape::Leaf => {},
        Shape::Node { left, idx, right, .. } => {
            let n = at(n1, idx);
            assert(t.idxs().contains(idx));
            lemma_shaped_in_range(n1, n.left, *left);
            lemma_shaped_in_range(n1, n.right, *right);
            assert forall|j: usize| #[trigger] left.idxs().contains(j) implies at(n1, j) == at(
                n2,
                j,
            ) by {
                assert(t.idxs().contains(j));
            }
            assert forall|j: usize| #[trigger] right.idxs().contains(j) implies at(n1, j) == at(
                n2,
                j,
            ) by {
                assert(t.idxs().contains(j));
            }
            lemma_shaped_same(n1, n2, n.left, *left);
            lemma_shaped_same(n1, n2, n.right, *right);
            if n.left != NIL {
                assert(left.idxs().contains(n.left));
                assert(t.idxs().contains(n.left));
            }
            if n.right != NIL {
                assert(right.idxs().contains(n.right));
                assert(t.idxs().contains(n.right));
            }
        },
    }
}

/// A tree put together from a path and a subtree that keep their slots apart
/// keeps them apart.
pub proof fn lemma_distinct_plug<T: Key>(path: Path<T>, t: Shape<T>)
    requires
        path_distinct(path),
        t.distinct(),
        t.idxs().disjoint(path_idxs(path)),
    ensures
        plug(path, t).distinct(),
    decreases path.len(),
{
    if path.len() > 0 {
        let f = path.last();
        assert(f.fill(t).distinct());
        assert(f.fill(t).idxs() =~= t.idxs().union(f.idxs()));
        lemma_distinct_plug(path.drop_last(), f.fill(t));
    }
}

/// A path and the subtree at its end, both spelled out by the links, spell
/// out the whole tree.
pub proof fn lemma_zip<T: Key>(nodes: Seq<Node<T>>, path: Path<T>, hole: usize, t: Shape<T>)
    requires
        path_shaped(nodes, path, hole),
        shaped(nodes, hole, t),
    ensures
        shaped(nodes, path_root(path, hole), plug(path, t)),
        path_root(path, hole) != NIL ==> at(nodes, path_root(path, hole)).parent == NIL,
    decreases path.len(),
{
    if path.len() > 0 {
        let f = path.last();
        assert(shaped(nodes, f.idx, f.fill(t)));
        lemma_zip(nodes, path.drop_last(), f.idx, f.fill(t));
        if path.len() > 1 {
            assert(path.drop_last()[0] == path[0]);
        }
    }
}

/// What a change at the end of a path must leave alone: every node on or
/// beside the path stays as it is, but that the last node of the path now
/// links to `hole` where the path goes on.
pub open spec fn path_kept<T: Key>(
    n1: Seq<Node<T>>,
    n2: Seq<Node<T>>,
    path: Path<T>,
    hole: usize,
) -> bool {
    &&& n1.len() == n2.len()
    &&& path.len() > 0 ==> {
        let f = path.last();
        &&& forall|j: usize| #[trigger]
            path_idxs(path).contains(j) && j != f.idx ==> at(n1, j) == at(n2, j)
        &&& at(n2, f.idx) == if f.left_hole {
            Node { left: hole, ..at(n1, f.idx) }
        } else {
            Node { right: hole, ..at(n1, f.idx) }
        }
    }
}

/// A path stays spelled out when the nodes on and beside it are kept and
/// the node now at its end links back to it.
pub proof fn lemma_path_frame<T: Key>(
    n1: Seq<Node<T>>,
    n2: Seq<Node<T>>,
    path: Path<T>,
    h1: usize,
    h2: usize,
)
    requires
        path_shaped(n1, path, h1),
        path_distinct(path),
        path_kept(n1, n2, path, h2),
        h2 != NIL ==> h2 < n2.len() && at(n2, h2).parent == path_parent(path),
    ensures
        path_shaped(n2, path, h2),
    decreases path.len(),
{
    if path.len() > 0 {
        let f = path.last();
        let rest = path.drop_last();
        let n = at(n1, f.idx);
        let side = if f.left_hole {
            n.right
        } else {
            n.left
        };
        assert(path_idxs(path).contains(f.idx));
        assert(shaped(n1, side, f.other));
        lemma_shaped_in_range(n1, side, f.other);
        assert forall|j: usize| #[trigger] f.other.idxs().contains(j) implies at(n1, j) == at(
            n2,
            j,
        ) by {
            assert(f.idxs().contains(j));
            assert(path_idxs(path).contains(j));
        }
        lemma_shaped_same(n1, n2, side, f.other);
        if side != NIL {
            assert(f.other.idxs().contains(side));
        }
        assert(path_shaped(n1, rest, f.idx));
        if rest.len() > 0 {
            let g = rest.last();
            assert(at(n1, f.idx).parent == g.idx);
            assert(if g.left_hole {
                at(n1, g.idx).left == f.idx
            } else {
                at(n1, g.idx).right == f.idx
            });
            assert(path_idxs(rest).contains(g.idx));
            assert(f.idxs().contains(f.idx));
            assert(g.idx != f.idx);
            assert(path_idxs(path).contains(g.idx));
            assert forall|j: usize| #[trigger]
                path_idxs(rest).contains(j) && j != g.idx implies at(n1, j) == at(n2, j) by {
                assert(path_idxs(path).contains(j));
            }
            assert(at(n2, g.idx) == at(n1, g.idx));
            assert(path_kept(n1, n2, rest, f.idx));
        } else {
            assert(at(n1, f.idx).parent == NIL);
        }
        lemma_path_frame(n1, n2, rest, f.idx, f.idx);
    }
}

} // verus!
