//! A place in the tree and the steps that the rebalancing walks are made of:
//! moving the place up or down, recolouring the node at it, rotating the
//! subtree under it.

use vstd::prelude::*;
use crate::tree::key::Key;
use crate::tree::link::{
    lemma_distinct_plug, lemma_path_frame, lemma_shaped_frame, lemma_shaped_in_range,
    lemma_shaped_same, lemma_zip, path_distinct, path_kept, path_parent, path_root, path_shaped,
    shaped, tree_at,
};
use crate::tree::node::{
    at, lemma_rotated_left, lemma_rotated_right, lemma_turns_left, lemma_turns_right, link_ok,
    outside, relinked, rotated_left, rotated_right, same_links, slot_ok, spec_parent, spec_sibling,
    spec_sibling_of, turns_left, turns_right, Node,
};
use crate::tree::shape::{
    lemma_path_ok, lemma_plug_idxs, lemma_plug_inorder, lemma_plug_red_black, lemma_rot_left,
    lemma_rot_right, path_after, path_before, path_idxs, plug, rot_left, rot_right, Frame,
    NodeColor, Path, Shape, NIL,
};

verus! {

/// A place in a tree: the path from the root to it, and the subtree under it.
pub struct Zip<T> {
    pub path: Path<T>,
    pub t: Shape<T>,
}

impl<T: Key> Zip<T> {
    /// The whole tree.
    pub open spec fn whole(self) -> Shape<T> {
        plug(self.path, self.t)
    }

    /// The slot at the place, null where the subtree is empty.
    pub open spec fn hole(self) -> usize {
        self.t.root()
    }

    /// The place one step nearer to the root.
    pub open spec fn up(self) -> Zip<T> {
        Zip { path: self.path.drop_last(), t: self.path.last().fill(self.t) }
    }

    /// The place of the left child.
    pub open spec fn down_left(self) -> Zip<T> {
        match self.t {
            Shape::Leaf => self,
            Shape::Node { left, idx, key, color, right } => Zip {
                path: self.path.push(Frame { idx, key, color, left_hole: true, other: *right }),
                t: *left,
            },
        }
    }

    /// The place of the right child.
    pub open spec fn down_right(self) -> Zip<T> {
        match self.t {
            Shape::Leaf => self,
            Shape::Node { left, idx, key, color, right } => Zip {
                path: self.path.push(Frame { idx, key, color, left_hole: false, other: *left }),
                t: *right,
            },
        }
    }

    /// The same place with the node at it in colour `c`.
    pub open spec fn painted(self, c: NodeColor) -> Zip<T> {
        Zip { path: self.path, t: painted(self.t, c) }
    }

    /// The same place with another subtree under it.
    pub open spec fn with(self, t: Shape<T>) -> Zip<T> {
        Zip { path: self.path, t }
    }
}

/// Between two states of the arena, every node outside the slots `s` is the
/// same.
pub open spec fn kept_outside<T: Key>(n0: Seq<Node<T>>, n1: Seq<Node<T>>, s: Set<usize>) -> bool {
    &&& n1.len() == n0.len()
    &&& forall|j: usize| j < n0.len() && !s.contains(j) ==> #[trigger] at(n1, j) == at(n0, j)
}

/// What is kept over two changes in a row is kept over both.
pub proof fn lemma_kept_outside_trans<T: Key>(
    n0: Seq<Node<T>>,
    n1: Seq<Node<T>>,
    n2: Seq<Node<T>>,
    s: Set<usize>,
)
    requires
        kept_outside(n0, n1, s),
        kept_outside(n1, n2, s),
    ensures
        kept_outside(n0, n2, s),
{
    assert forall|j: usize| j < n0.len() && !s.contains(j) implies #[trigger] at(n2, j) == at(
        n0,
        j,
    ) by {
        assert(at(n1, j) == at(n0, j));
    }
}

/// The tree with its top node in colour `c`.
pub open spec fn painted<T: Key>(t: Shape<T>, c: NodeColor) -> Shape<T> {
    match t {
        Shape::Leaf => Shape::Leaf,
        Shape::Node { left, idx, key, right, .. } => Shape::Node { left, idx, key, color: c, right },
    }
}

/// The links spell out the path and the subtree of `z`, and no slot is used
/// twice.
pub open spec fn zipped<T: Key>(nodes: Seq<Node<T>>, z: Zip<T>) -> bool {
    &&& path_shaped(nodes, z.path, z.hole())
    &&& shaped(nodes, z.hole(), z.t)
    &&& path_distinct(z.path)
    &&& z.t.distinct()
    &&& z.t.idxs().disjoint(path_idxs(z.path))
}

/// A spelled-out place gives the whole tree, spelled out from its root.
pub proof fn lemma_zipped_whole<T: Key>(nodes: Seq<Node<T>>, z: Zip<T>)
    requires
        zipped(nodes, z),
    ensures
        tree_at(nodes, path_root(z.path, z.hole()), z.whole()),
        z.whole().root() == path_root(z.path, z.hole()),
{
    lemma_zip(nodes, z.path, z.hole(), z.t);
    lemma_distinct_plug(z.path, z.t);
    lemma_shaped_in_range(nodes, path_root(z.path, z.hole()), z.whole());
}

/// Moving a place up keeps the tree.
pub proof fn lemma_up<T: Key>(nodes: Seq<Node<T>>, z: Zip<T>)
    requires
        zipped(nodes, z),
        z.path.len() > 0,
    ensures
        zipped(nodes, z.up()),
        z.up().whole() == z.whole(),
        z.up().hole() == z.path.last().idx,
        z.up().t is Node,
{
    let f = z.path.last();
    assert(path_idxs(z.path).contains(f.idx));
    assert(f.idxs().contains(f.idx));
    assert forall|j: usize| f.other.idxs().contains(j) implies !z.t.idxs().contains(j) by {
        assert(f.idxs().contains(j));
        assert(path_idxs(z.path).contains(j));
    }
    assert(f.fill(z.t).idxs() =~= z.t.idxs().union(f.idxs()));
}

/// Moving a place down to the left keeps the tree.
pub proof fn lemma_down_left<T: Key>(nodes: Seq<Node<T>>, z: Zip<T>)
    requires
        zipped(nodes, z),
        z.t is Node,
    ensures
        zipped(nodes, z.down_left()),
        z.down_left().whole() == z.whole(),
        z.down_left().up() == z,
        z.down_left().hole() == at(nodes, z.hole()).left,
{
    let d = z.down_left();
    let f = d.path.last();
    let n = at(nodes, z.hole());
    assert(d.path.drop_last() =~= z.path);
    assert(f.fill(d.t) == z.t);
    assert(z.t.idxs().contains(f.idx));
    assert(path_idxs(d.path) =~= path_idxs(z.path).union(f.idxs()));
    assert forall|j: usize| f.idxs().contains(j) implies !path_idxs(z.path).contains(j) by {
        assert(z.t.idxs().contains(j));
    }
    assert(shaped(nodes, n.left, d.t));
    assert(shaped(nodes, n.right, f.other));
    lemma_shaped_in_range(nodes, n.left, d.t);
    assert(d.hole() == n.left);
    assert(path_shaped(nodes, d.path, d.hole()));
    assert(path_distinct(d.path));
    assert forall|j: usize| d.t.idxs().contains(j) implies !path_idxs(d.path).contains(j) by {
        assert(z.t.idxs().contains(j));
    }
}

/// Moving a place down to the right keeps the tree.
pub proof fn lemma_down_right<T: Key>(nodes: Seq<Node<T>>, z: Zip<T>)
    requires
        zipped(nodes, z),
        z.t is Node,
    ensures
        zipped(nodes, z.down_right()),
        z.down_right().whole() == z.whole(),
        z.down_right().up() == z,
        z.down_right().hole() == at(nodes, z.hole()).right,
{
    let d = z.down_right();
    let f = d.path.last();
    let n = at(nodes, z.hole());
    assert(d.path.drop_last() =~= z.path);
    assert(f.fill(d.t) == z.t);
    assert(z.t.idxs().contains(f.idx));
    assert(path_idxs(d.path) =~= path_idxs(z.path).union(f.idxs()));
    assert forall|j: usize| f.idxs().contains(j) implies !path_idxs(z.path).contains(j) by {
        assert(z.t.idxs().contains(j));
    }
    assert(shaped(nodes, n.right, d.t));
    assert(shaped(nodes, n.left, f.other));
    lemma_shaped_in_range(nodes, n.right, d.t);
    assert(d.hole() == n.right);
    assert(path_shaped(nodes, d.path, d.hole()));
    assert(path_distinct(d.path));
    assert forall|j: usize| d.t.idxs().contains(j) implies !path_idxs(d.path).contains(j) by {
        assert(z.t.idxs().contains(j));
    }
}

/// The nodes on and beside the path of a place are kept when only nodes of
/// the subtree under it change and the slot at the place stays.
pub proof fn lemma_path_untouched<T: Key>(n0: Seq<Node<T>>, n1: Seq<Node<T>>, z: Zip<T>)
    requires
        zipped(n0, z),
        n0.len() == n1.len(),
        forall|j: usize| j < n0.len() && !z.t.idxs().contains(j) ==> #[trigger] at(n1, j) == at(n0, j),
    ensures
        path_kept(n0, n1, z.path, z.hole()),
{
    if z.path.len() > 0 {
        let f = z.path.last();
        assert(path_idxs(z.path).contains(f.idx));
        assert(f.idxs().contains(f.idx));
        assert(at(n1, f.idx) == at(n0, f.idx));
        assert forall|j: usize| #[trigger]
            path_idxs(z.path).contains(j) && j != f.idx implies at(n0, j) == at(n1, j) by {
            lemma_path_idxs_in_range(n0, z.path, z.hole());
        }
    }
}

/// At a place below the root that holds a node, the parent is the last node
/// of the path and the sibling is the top of the subtree beside it.
pub proof fn lemma_family<T: Key>(nodes: Seq<Node<T>>, z: Zip<T>)
    requires
        zipped(nodes, z),
        z.t is Node,
        z.path.len() > 0,
    ensures
        slot_ok(nodes, z.hole()),
        slot_ok(nodes, z.path.last().idx),
        spec_parent(nodes, z.hole()) == z.path.last().idx,
        spec_sibling(nodes, z.hole()) == z.path.last().other.root(),
        link_ok(nodes, z.path.last().other.root()),
        z.path.last().left_hole <==> at(nodes, z.path.last().idx).left == z.hole(),
        !z.path.last().left_hole <==> at(nodes, z.path.last().idx).right == z.hole(),
        z.path.last().other.root() != z.hole(),
        z.path.last().idx != z.hole(),
{
    let f = z.path.last();
    let n = at(nodes, f.idx);
    let side = if f.left_hole {
        n.right
    } else {
        n.left
    };
    lemma_shaped_in_range(nodes, z.hole(), z.t);
    lemma_shaped_in_range(nodes, side, f.other);
    assert(z.t.idxs().contains(z.hole()));
    assert(f.idxs().contains(f.idx));
    assert(path_idxs(z.path).contains(f.idx));
    if side != NIL {
        assert(f.other.idxs().contains(side));
        assert(f.idxs().contains(side));
        assert(path_idxs(z.path).contains(side));
    }
}

/// At a place below the root with a node beside it, the parent is the last
/// node of the path and the sibling is the top of the subtree beside the
/// place, also where the place itself is empty.
pub proof fn lemma_kin<T: Key>(nodes: Seq<Node<T>>, z: Zip<T>)
    requires
        zipped(nodes, z),
        z.path.len() > 0,
        z.path.last().other is Node,
    ensures
        link_ok(nodes, z.hole()),
        slot_ok(nodes, z.path.last().idx),
        path_parent(z.path) == z.path.last().idx,
        slot_ok(nodes, z.path.last().other.root()),
        spec_sibling_of(nodes, z.hole(), z.path.last().idx) == z.path.last().other.root(),
        z.path.last().left_hole <==> at(nodes, z.path.last().idx).left == z.hole(),
        z.path.last().left_hole ==> at(nodes, z.path.last().idx).right
            == z.path.last().other.root(),
        !z.path.last().left_hole ==> at(nodes, z.path.last().idx).left
            == z.path.last().other.root(),
        at(nodes, z.path.last().idx).color == z.path.last().color,
        at(nodes, z.path.last().other.root()).color == z.path.last().other->color,
        link_ok(nodes, z.path.last().other.lt().root()),
        link_ok(nodes, z.path.last().other.rt().root()),
        at(nodes, z.path.last().other.root()).left == z.path.last().other.lt().root(),
        at(nodes, z.path.last().other.root()).right == z.path.last().other.rt().root(),
        z.path.last().other.lt() is Node ==> slot_ok(nodes, z.path.last().other.lt().root()) && at(
            nodes,
            z.path.last().other.lt().root(),
        ).color == z.path.last().other.lt()->color,
        z.path.last().other.rt() is Node ==> slot_ok(nodes, z.path.last().other.rt().root()) && at(
            nodes,
            z.path.last().other.rt().root(),
        ).color == z.path.last().other.rt()->color,
        z.path.last().other.root() != z.path.last().idx,
        z.path.last().other.root() != z.hole(),
        link_ok(nodes, at(nodes, z.path.last().idx).parent),
        at(nodes, z.path.last().idx).parent == path_parent(z.path.drop_last()),
{
    let f = z.path.last();
    let n = at(nodes, f.idx);
    let side = if f.left_hole {
        n.right
    } else {
        n.left
    };
    lemma_shaped_in_range(nodes, z.hole(), z.t);
    lemma_shaped_in_range(nodes, side, f.other);
    assert(f.idxs().contains(f.idx));
    assert(path_idxs(z.path).contains(f.idx));
    assert(f.other.idxs().contains(side));
    assert(f.idxs().contains(side));
    assert(path_idxs(z.path).contains(side));
    if z.t is Node {
        assert(z.t.idxs().contains(z.hole()));
    }
    let s = at(nodes, side);
    assert(shaped(nodes, s.left, f.other.lt()));
    assert(shaped(nodes, s.right, f.other.rt()));
    lemma_shaped_in_range(nodes, s.left, f.other.lt());
    lemma_shaped_in_range(nodes, s.right, f.other.rt());
    if f.other.lt() is Node {
        assert(f.other.lt().idxs().contains(s.left));
    }
    if f.other.rt() is Node {
        assert(f.other.rt().idxs().contains(s.right));
    }
    assert(path_shaped(nodes, z.path.drop_last(), f.idx));
}

/// Every slot on or beside a spelled-out path is a slot of the arena.
pub proof fn lemma_path_idxs_in_range<T: Key>(nodes: Seq<Node<T>>, path: Path<T>, hole: usize)
    requires
        path_shaped(nodes, path, hole),
    ensures
        forall|j: usize| #[trigger] path_idxs(path).contains(j) ==> j != NIL && j < nodes.len(),
    decreases path.len(),
{
    if path.len() > 0 {
        let f = path.last();
        let side = if f.left_hole {
            at(nodes, f.idx).right
        } else {
            at(nodes, f.idx).left
        };
        lemma_shaped_in_range(nodes, side, f.other);
        lemma_path_idxs_in_range(nodes, path.drop_last(), f.idx);
        assert forall|j: usize| #[trigger] path_idxs(path).contains(j) implies j != NIL && j
            < nodes.len() by {
            if !path_idxs(path.drop_last()).contains(j) {
                assert(f.idxs().contains(j));
                if j != f.idx {
                    assert(f.other.idxs().contains(j));
                }
            }
        }
    }
}

/// Recolouring the node at a place gives the same place, painted.
pub proof fn lemma_paint<T: Key>(n0: Seq<Node<T>>, n1: Seq<Node<T>>, z: Zip<T>, c: NodeColor)
    requires
        zipped(n0, z),
        z.t is Node,
        n1 == n0.update(z.hole() as int, Node { color: c, ..at(n0, z.hole()) }),
    ensures
        zipped(n1, z.painted(c)),
        z.painted(c).hole() == z.hole(),
        z.painted(c).whole().inorder() == z.whole().inorder(),
        z.painted(c).whole().idxs() == z.whole().idxs(),
        kept_outside(n0, n1, z.whole().idxs()),
{
    let i = z.hole();
    let n = at(n0, i);
    assert(z.t.idxs().contains(i));
    lemma_shaped_in_range(n0, i, z.t);
    lemma_shaped_in_range(n0, n.left, z.t.lt());
    lemma_shaped_in_range(n0, n.right, z.t.rt());
    assert forall|j: usize| #[trigger] z.t.lt().idxs().contains(j) implies at(n0, j) == at(n1, j) by {}
    assert forall|j: usize| #[trigger] z.t.rt().idxs().contains(j) implies at(n0, j) == at(n1, j) by {}
    lemma_shaped_same(n0, n1, n.left, z.t.lt());
    lemma_shaped_same(n0, n1, n.right, z.t.rt());
    if n.left != NIL {
        assert(z.t.lt().idxs().contains(n.left));
    }
    if n.right != NIL {
        assert(z.t.rt().idxs().contains(n.right));
    }
    assert(shaped(n1, i, painted(z.t, c)));
    lemma_path_untouched(n0, n1, z);
    lemma_path_frame(n0, n1, z.path, i, i);
    if z.path.len() > 0 {
        assert(path_idxs(z.path).contains(z.path.last().idx));
        assert(z.path.last().idxs().contains(z.path.last().idx));
    }
    assert(painted(z.t, c).idxs() =~= z.t.idxs());
    lemma_plug_inorder(z.path, z.t);
    lemma_plug_inorder(z.path, painted(z.t, c));
    lemma_plug_idxs(z.path, z.t);
    lemma_plug_idxs(z.path, painted(z.t, c));
    assert(z.painted(c).whole().idxs() =~= z.whole().idxs());
    assert(z.whole().idxs().contains(i));
}

/// The subtree under a place with a right child can be turned to the left,
/// and the turned subtree then stands at the same place.
pub proof fn lemma_zip_rotate_left<T: Key>(n0: Seq<Node<T>>, z: Zip<T>)
    requires
        zipped(n0, z),
        z.t is Node,
        z.t.rt() is Node,
    ensures
        turns_left(n0, z.hole(), z.t),
        zipped(rotated_left(n0, z.hole()), z.with(rot_left(z.t))),
        z.with(rot_left(z.t)).hole() == z.t.rt().root(),
        z.with(rot_left(z.t)).whole().inorder() == z.whole().inorder(),
        z.with(rot_left(z.t)).whole().idxs() == z.whole().idxs(),
        kept_outside(n0, rotated_left(n0, z.hole()), z.whole().idxs()),
{
    let x = z.hole();
    let y = at(n0, x).right;
    let n1 = rotated_left(n0, x);
    lemma_shaped_in_range(n0, x, z.t);
    assert(z.t.idxs().contains(x));
    if z.path.len() > 0 {
        assert(path_idxs(z.path).contains(z.path.last().idx));
        assert(z.path.last().idxs().contains(z.path.last().idx));
    }
    assert(outside(n0, at(n0, x).parent, z.t));
    assert(turns_left(n0, x, z.t));
    lemma_turns_left(n0, x, z.t);
    lemma_rotated_left(n0, x, z.t);
    lemma_rot_left(z.t);
    let b = at(n0, y).left;
    assert(z.t.rt().idxs().contains(y));
    assert(z.t.idxs().contains(y));
    if b != NIL {
        assert(shaped(n0, y, z.t.rt()));
        assert(shaped(n0, b, z.t.rt().lt()));
        assert(z.t.rt().lt().idxs().contains(b));
        assert(z.t.rt().idxs().contains(b));
        assert(z.t.idxs().contains(b));
    }
    lemma_path_idxs_in_range(n0, z.path, x);
    if z.path.len() > 0 {
        let f = z.path.last();
        assert(at(n1, f.idx) == relinked(at(n0, f.idx), x, y));
        if !f.left_hole {
            let l = at(n0, f.idx).left;
            if l != NIL {
                assert(f.other.idxs().contains(l));
                assert(f.idxs().contains(l));
                assert(path_idxs(z.path).contains(l));
            }
        }
    }
    assert(path_kept(n0, n1, z.path, y));
    lemma_path_frame(n0, n1, z.path, x, y);
    lemma_plug_inorder(z.path, z.t);
    lemma_plug_inorder(z.path, rot_left(z.t));
    lemma_plug_idxs(z.path, z.t);
    lemma_plug_idxs(z.path, rot_left(z.t));
    assert(z.with(rot_left(z.t)).whole().idxs() =~= z.whole().idxs());
    assert forall|j: usize| j < n0.len() && !z.whole().idxs().contains(j) implies #[trigger] at(
        n1,
        j,
    ) == at(n0, j) by {
        assert(z.whole().idxs().contains(x));
        assert(z.whole().idxs().contains(y));
        if b != NIL {
            assert(z.whole().idxs().contains(b));
        }
        if z.path.len() > 0 {
            assert(z.whole().idxs().contains(z.path.last().idx));
        }
    }
}

/// The subtree under a place with a left child can be turned to the right,
/// and the turned subtree then stands at the same place.
pub proof fn lemma_zip_rotate_right<T: Key>(n0: Seq<Node<T>>, z: Zip<T>)
    requires
        zipped(n0, z),
        z.t is Node,
        z.t.lt() is Node,
    ensures
        turns_right(n0, z.hole(), z.t),
        zipped(rotated_right(n0, z.hole()), z.with(rot_right(z.t))),
        z.with(rot_right(z.t)).hole() == z.t.lt().root(),
        z.with(rot_right(z.t)).whole().inorder() == z.whole().inorder(),
        z.with(rot_right(z.t)).whole().idxs() == z.whole().idxs(),
        kept_outside(n0, rotated_right(n0, z.hole()), z.whole().idxs()),
{
    let x = z.hole();
    let y = at(n0, x).left;
    let n1 = rotated_right(n0, x);
    lemma_shaped_in_range(n0, x, z.t);
    assert(z.t.idxs().contains(x));
    if z.path.len() > 0 {
        assert(path_idxs(z.path).contains(z.path.last().idx));
        assert(z.path.last().idxs().contains(z.path.last().idx));
    }
    assert(outside(n0, at(n0, x).parent, z.t));
    assert(turns_right(n0, x, z.t));
    lemma_turns_right(n0, x, z.t);
    lemma_rotated_right(n0, x, z.t);
    lemma_rot_right(z.t);
    let b = at(n0, y).right;
    assert(z.t.lt().idxs().contains(y));
    assert(z.t.idxs().contains(y));
    if b != NIL {
        assert(shaped(n0, y, z.t.lt()));
        assert(shaped(n0, b, z.t.lt().rt()));
        assert(z.t.lt().rt().idxs().contains(b));
        assert(z.t.lt().idxs().contains(b));
        assert(z.t.idxs().contains(b));
    }
    lemma_path_idxs_in_range(n0, z.path, x);
    if z.path.len() > 0 {
        let f = z.path.last();
        assert(at(n1, f.idx) == relinked(at(n0, f.idx), x, y));
        if !f.left_hole {
            let l = at(n0, f.idx).left;
            if l != NIL {
                assert(f.other.idxs().contains(l));
                assert(f.idxs().contains(l));
                assert(path_idxs(z.path).contains(l));
            }
        }
    }
    assert(path_kept(n0, n1, z.path, y));
    lemma_path_frame(n0, n1, z.path, x, y);
    lemma_plug_inorder(z.path, z.t);
    lemma_plug_inorder(z.path, rot_right(z.t));
    lemma_plug_idxs(z.path, z.t);
    lemma_plug_idxs(z.path, rot_right(z.t));
    assert(z.with(rot_right(z.t)).whole().idxs() =~= z.whole().idxs());
    assert forall|j: usize| j < n0.len() && !z.whole().idxs().contains(j) implies #[trigger] at(
        n1,
        j,
    ) == at(n0, j) by {
        assert(z.whole().idxs().contains(x));
        assert(z.whole().idxs().contains(y));
        if b != NIL {
            assert(z.whole().idxs().contains(b));
        }
        if z.path.len() > 0 {
            assert(z.whole().idxs().contains(z.path.last().idx));
        }
    }
}

/// The tree with the key `k` in its top node.
pub open spec fn rekeyed<T: Key>(t: Shape<T>, k: T) -> Shape<T> {
    match t {
        Shape::Leaf => Shape::Leaf,
        Shape::Node { left, idx, color, right, .. } => Shape::Node { left, idx, key: k, color, right },
    }
}

/// How many keys stand left of the key at a place.
pub open spec fn lpos<T: Key>(z: Zip<T>) -> int {
    (path_before(z.path).len() + z.t.lt().inorder().len()) as int
}

/// How many keys stand right of the key at a place.
pub open spec fn rpos<T: Key>(z: Zip<T>) -> int {
    (path_after(z.path).len() + z.t.rt().inorder().len()) as int
}

/// The key at a place stands in the sequence of all keys where the keys
/// left and right of it leave room for it.
pub proof fn lemma_pos<T: Key>(z: Zip<T>)
    requires
        z.t is Node,
    ensures
        0 <= lpos(z) < z.whole().inorder().len(),
        lpos(z) + rpos(z) + 1 == z.whole().inorder().len(),
        z.whole().inorder()[lpos(z)] == z.t->key,
{
    lemma_plug_inorder(z.path, z.t);
}

/// Whether a tree is red-black does not depend on the subtree at a place,
/// as long as that subtree stays sound, keeps its black height and the colour
/// of its top.
pub proof fn lemma_swap_subtree<T: Key>(path: Path<T>, t: Shape<T>, t2: Shape<T>)
    requires
        plug(path, t).red_black(),
        t2.balanced(),
        t2.no_red_red(),
        t2.black_height() == t.black_height(),
        t.is_black() ==> t2.is_black(),
    ensures
        plug(path, t2).red_black(),
{
    lemma_path_ok(path, t);
    lemma_plug_red_black(path, t2);
}

/// Writing another key into the node at a place gives the same place with
/// that key; nothing else changes.
pub proof fn lemma_rekey<T: Key>(n0: Seq<Node<T>>, n1: Seq<Node<T>>, z: Zip<T>, k: T)
    requires
        zipped(n0, z),
        z.t is Node,
        n1 == n0.update(z.hole() as int, Node { item: k, ..at(n0, z.hole()) }),
    ensures
        zipped(n1, z.with(rekeyed(z.t, k))),
        z.with(rekeyed(z.t, k)).whole().inorder() == z.whole().inorder().update(lpos(z), k),
        z.with(rekeyed(z.t, k)).whole().idxs() == z.whole().idxs(),
        z.whole().red_black() ==> z.with(rekeyed(z.t, k)).whole().red_black(),
        kept_outside(n0, n1, z.whole().idxs()),
{
    let i = z.hole();
    let n = at(n0, i);
    let t2 = rekeyed(z.t, k);
    assert(z.t.idxs().contains(i));
    lemma_shaped_in_range(n0, i, z.t);
    lemma_shaped_in_range(n0, n.left, z.t.lt());
    lemma_shaped_in_range(n0, n.right, z.t.rt());
    assert forall|j: usize| #[trigger] z.t.lt().idxs().contains(j) implies at(n0, j) == at(n1, j) by {}
    assert forall|j: usize| #[trigger] z.t.rt().idxs().contains(j) implies at(n0, j) == at(n1, j) by {}
    lemma_shaped_same(n0, n1, n.left, z.t.lt());
    lemma_shaped_same(n0, n1, n.right, z.t.rt());
    if n.left != NIL {
        assert(z.t.lt().idxs().contains(n.left));
    }
    if n.right != NIL {
        assert(z.t.rt().idxs().contains(n.right));
    }
    assert(shaped(n1, i, t2));
    lemma_path_untouched(n0, n1, z);
    lemma_path_frame(n0, n1, z.path, i, i);
    if z.path.len() > 0 {
        assert(path_idxs(z.path).contains(z.path.last().idx));
        assert(z.path.last().idxs().contains(z.path.last().idx));
    }
    assert(t2.idxs() =~= z.t.idxs());
    lemma_plug_inorder(z.path, z.t);
    lemma_plug_inorder(z.path, t2);
    lemma_plug_idxs(z.path, z.t);
    lemma_plug_idxs(z.path, t2);
    assert(z.with(t2).whole().idxs() =~= z.whole().idxs());
    assert(z.whole().idxs().contains(i));
    assert(z.with(t2).whole().inorder() =~= z.whole().inorder().update(lpos(z), k));
    if z.whole().red_black() {
        lemma_path_ok(z.path, z.t);
        assert(t2.balanced());
        assert(t2.no_red_red());
        lemma_swap_subtree(z.path, z.t, t2);
    }
}

/// Putting the one subtree of the node at a place into the node's own
/// place, where its other subtree is empty, takes the node out of the tree
/// and its key out of the keys.
pub proof fn lemma_splice<T: Key>(n0: Seq<Node<T>>, n1: Seq<Node<T>>, z: Zip<T>, c: Shape<T>)
    requires
        zipped(n0, z),
        z.t is Node,
        (z.t.lt() is Leaf && c == z.t.rt()) || (z.t.rt() is Leaf && c == z.t.lt()),
        n1.len() == n0.len(),
        n0.len() <= usize::MAX,
        forall|j: usize|
            j < n0.len() && j != path_parent(z.path) && j != c.root() ==> #[trigger] at(n1, j)
                == at(n0, j),
        c is Node ==> at(n1, c.root()) == (Node { parent: path_parent(z.path), ..at(n0, c.root()) }),
        z.path.len() > 0 ==> at(n1, z.path.last().idx) == if z.path.last().left_hole {
            Node { left: c.root(), ..at(n0, z.path.last().idx) }
        } else {
            Node { right: c.root(), ..at(n0, z.path.last().idx) }
        },
    ensures
        zipped(n1, z.with(c)),
        z.with(c).whole().inorder() == z.whole().inorder().remove(lpos(z)),
        z.with(c).whole().idxs() == z.whole().idxs().remove(z.hole()),
        z.whole().idxs().contains(z.hole()),
        kept_outside(n0, n1, z.whole().idxs()),
        at(n1, z.hole()) == at(n0, z.hole()),
{
    let i = z.hole();
    let n = at(n0, i);
    lemma_shaped_in_range(n0, i, z.t);
    assert(z.t.idxs().contains(i));
    assert(shaped(n0, c.root(), c)) by {
        lemma_shaped_in_range(n0, n.left, z.t.lt());
        lemma_shaped_in_range(n0, n.right, z.t.rt());
    }
    lemma_shaped_in_range(n0, c.root(), c);
    if z.path.len() > 0 {
        assert(path_idxs(z.path).contains(z.path.last().idx));
        assert(z.path.last().idxs().contains(z.path.last().idx));
    }
    assert forall|j: usize| #[trigger] c.idxs().contains(j) implies same_links(at(n0, j), at(n1, j))
        && (j != c.root() ==> at(n0, j).parent == at(n1, j).parent) by {
        assert(z.t.idxs().contains(j));
    }
    lemma_shaped_frame(n0, n1, c.root(), c);
    lemma_path_idxs_in_range(n0, z.path, i);
    if c is Node {
        assert(c.idxs().contains(c.root()));
        assert(z.t.idxs().contains(c.root()));
    }
    assert(path_kept(n0, n1, z.path, c.root()));
    lemma_path_frame(n0, n1, z.path, i, c.root());
    assert(c.idxs() =~= z.t.idxs().remove(i));
    lemma_plug_inorder(z.path, z.t);
    lemma_plug_inorder(z.path, c);
    lemma_plug_idxs(z.path, z.t);
    lemma_plug_idxs(z.path, c);
    assert(z.with(c).whole().idxs() =~= z.whole().idxs().remove(i));
    assert(z.whole().idxs().contains(i));
    assert(z.t.lt() is Leaf ==> z.t.lt().inorder() =~= Seq::empty());
    assert(z.t.rt() is Leaf ==> z.t.rt().inorder() =~= Seq::empty());
    assert(z.with(c).whole().inorder() =~= z.whole().inorder().remove(lpos(z)));
    assert forall|j: usize| j < n0.len() && !z.whole().idxs().contains(j) implies #[trigger] at(
        n1,
        j,
    ) == at(n0, j) by {
        if z.path.len() > 0 {
            assert(z.whole().idxs().contains(z.path.last().idx));
        }
        if c is Node {
            assert(z.whole().idxs().contains(c.root()));
        }
    }
}

/// The place reached from a place by going left as long as there is a left
/// child.
pub open spec fn to_leftmost<T: Key>(z: Zip<T>) -> Zip<T>
    decreases z.t.size(),
{
    if z.t is Node && z.t.lt() is Node {
        to_leftmost(z.down_left())
    } else {
        z
    }
}

/// Going left as long as possible keeps the tree and ends at the leftmost
/// node of the subtree, which has nothing to its left.
pub proof fn lemma_to_leftmost<T: Key>(nodes: Seq<Node<T>>, z: Zip<T>)
    requires
        zipped(nodes, z),
        z.t is Node,
    ensures
        zipped(nodes, to_leftmost(z)),
        to_leftmost(z).whole() == z.whole(),
        to_leftmost(z).t is Node,
        to_leftmost(z).t.lt() is Leaf,
        to_leftmost(z).hole() == z.t.leftmost(),
        to_leftmost(z).path.len() >= z.path.len(),
        to_leftmost(z).t.size() <= z.t.size(),
        lpos(to_leftmost(z)) == path_before(z.path).len(),
    decreases z.t.size(),
{
    if z.t.lt() is Node {
        let d = z.down_left();
        lemma_down_left(nodes, z);
        lemma_to_leftmost(nodes, d);
        assert(d.path.drop_last() =~= z.path);
    } else {
        assert(z.t.lt().inorder() =~= Seq::empty());
    }
}

/// One step down to the right passes the key of the node and all keys left
/// of it.
pub proof fn lemma_down_right_pos<T: Key>(z: Zip<T>)
    requires
        z.t is Node,
    ensures
        path_before(z.down_right().path).len() == lpos(z) + 1,
{
    let d = z.down_right();
    assert(d.path.drop_last() =~= z.path);
}

/// The place reached from a place by going right as long as there is a right
/// child.
pub open spec fn to_rightmost<T: Key>(z: Zip<T>) -> Zip<T>
    decreases z.t.size(),
{
    if z.t is Node && z.t.rt() is Node {
        to_rightmost(z.down_right())
    } else {
        z
    }
}

/// Going right as long as possible keeps the tree and ends at the rightmost
/// node of the subtree, which has nothing to its right.
pub proof fn lemma_to_rightmost<T: Key>(nodes: Seq<Node<T>>, z: Zip<T>)
    requires
        zipped(nodes, z),
        z.t is Node,
    ensures
        zipped(nodes, to_rightmost(z)),
        to_rightmost(z).whole() == z.whole(),
        to_rightmost(z).t is Node,
        to_rightmost(z).t.rt() is Leaf,
        to_rightmost(z).hole() == z.t.rightmost(),
        to_rightmost(z).path.len() >= z.path.len(),
        to_rightmost(z).t.size() <= z.t.size(),
        rpos(to_rightmost(z)) == path_after(z.path).len(),
    decreases z.t.size(),
{
    if z.t.rt() is Node {
        let d = z.down_right();
        lemma_down_right(nodes, z);
        lemma_to_rightmost(nodes, d);
        assert(d.path.drop_last() =~= z.path);
    } else {
        assert(z.t.rt().inorder() =~= Seq::empty());
    }
}

/// One step down to the left passes the key of the node and all keys right
/// of it.
pub proof fn lemma_down_left_pos<T: Key>(z: Zip<T>)
    requires
        z.t is Node,
    ensures
        path_after(z.down_left().path).len() == rpos(z) + 1,
{
    let d = z.down_left();
    assert(d.path.drop_last() =~= z.path);
}

} // verus!
