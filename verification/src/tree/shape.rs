//! The mathematical model of the tree: which slot stands where, with which
//! key and colour, and what it means for such a tree to be red-black.

use vstd::prelude::*;
use crate::tree::key::Key;

verus! {

/// The null link: no slot of an arena has this index.
pub const NIL: usize = usize::MAX;

/// The colour of a node.
#[derive(Clone, Copy, Debug, PartialEq, Eq, Structural)]
pub enum NodeColor {
    Red,
    Black,
}

/// A binary tree of arena slots, each with the key and colour it holds.
pub enum Shape<T> {
    Leaf,
    Node { left: Box<Shape<T>>, idx: usize, key: T, color: NodeColor, right: Box<Shape<T>> },
}

impl<T: Key> Shape<T> {
    /// The slot at the top of the tree, `NIL` for the empty tree.
    pub open spec fn root(self) -> usize {
        match self {
            Shape::Leaf => NIL,
            Shape::Node { idx, .. } => idx,
        }
    }

    /// The left subtree, empty for the empty tree.
    pub open spec fn lt(self) -> Shape<T> {
        match self {
            Shape::Leaf => Shape::Leaf,
            Shape::Node { left, .. } => *left,
        }
    }

    /// The right subtree, empty for the empty tree.
    pub open spec fn rt(self) -> Shape<T> {
        match self {
            Shape::Leaf => Shape::Leaf,
            Shape::Node { right, .. } => *right,
        }
    }

    /// The slots that the tree is made of.
    pub open spec fn idxs(self) -> Set<usize>
        decreases self,
    {
        match self {
            Shape::Leaf => Set::empty(),
            Shape::Node { left, idx, right, .. } => left.idxs().union(right.idxs()).insert(idx),
        }
    }

    /// No slot stands at two places of the tree.
    pub open spec fn distinct(self) -> bool
        decreases self,
    {
        match self {
            Shape::Leaf => true,
            Shape::Node { left, idx, right, .. } => {
                &&& left.distinct()
                &&& right.distinct()
                &&& !left.idxs().contains(idx)
                &&& !right.idxs().contains(idx)
                &&& left.idxs().disjoint(right.idxs())
            },
        }
    }

    /// The keys from left to right.
    pub open spec fn inorder(self) -> Seq<T>
        decreases self,
    {
        match self {
            Shape::Leaf => Seq::empty(),
            Shape::Node { left, key, right, .. } => left.inorder().push(key) + right.inorder(),
        }
    }

    /// The number of nodes.
    pub open spec fn size(self) -> nat
        decreases self,
    {
        match self {
            Shape::Leaf => 0,
            Shape::Node { left, right, .. } => left.size() + right.size() + 1,
        }
    }

    /// The number of nodes on the longest path down.
    pub open spec fn height(self) -> nat
        decreases self,
    {
        match self {
            Shape::Leaf => 0,
            Shape::Node { left, right, .. } => 1 + if left.height() >= right.height() {
                left.height()
            } else {
                right.height()
            },
        }
    }

    /// The nodes as a walk from the largest key to the smallest meets them:
    /// each with its key, the indent of its depth, and its colour. The
    /// indent grows by five from one depth to the next.
    pub open spec fn visits(self, indent: nat) -> Seq<(T, usize, NodeColor)>
        decreases self,
    {
        match self {
            Shape::Leaf => Seq::empty(),
            Shape::Node { left, key, color, right, .. } => right.visits(indent + 5).push(
                (key, indent as usize, color),
            ) + left.visits(indent + 5),
        }
    }

    /// An empty tree counts as black, as does a tree with a black node on top.
    pub open spec fn is_black(self) -> bool {
        match self {
            Shape::Leaf => true,
            Shape::Node { color, .. } => color == NodeColor::Black,
        }
    }

    /// A tree with a red node on top.
    pub open spec fn is_red(self) -> bool {
        !self.is_black()
    }

    /// The number of black nodes on the leftmost path.
    pub open spec fn black_height(self) -> nat
        decreases self,
    {
        match self {
            Shape::Leaf => 0,
            Shape::Node { left, color, .. } => left.black_height() + if color == NodeColor::Black {
                1nat
            } else {
                0nat
            },
        }
    }

    /// Every path from a node down to a leaf passes the same number of black
    /// nodes.
    pub open spec fn balanced(self) -> bool
        decreases self,
    {
        match self {
            Shape::Leaf => true,
            Shape::Node { left, right, .. } => {
                &&& left.balanced()
                &&& right.balanced()
                &&& left.black_height() == right.black_height()
            },
        }
    }

    /// No red node has a red child.
    pub open spec fn no_red_red(self) -> bool
        decreases self,
    {
        match self {
            Shape::Leaf => true,
            Shape::Node { left, color, right, .. } => {
                &&& left.no_red_red()
                &&& right.no_red_red()
                &&& color == NodeColor::Red ==> left.is_black() && right.is_black()
            },
        }
    }

    /// The three red-black rules: a black root, no red node with a red child,
    /// equal black heights.
    pub open spec fn red_black(self) -> bool {
        &&& self.is_black()
        &&& self.no_red_red()
        &&& self.balanced()
    }

    /// The slot reached by going left as long as possible.
    pub open spec fn leftmost(self) -> usize
        decreases self,
    {
        match self {
            Shape::Leaf => NIL,
            Shape::Node { left, idx, .. } => if *left is Leaf {
                idx
            } else {
                left.leftmost()
            },
        }
    }

    /// The slot reached by going right as long as possible.
    pub open spec fn rightmost(self) -> usize
        decreases self,
    {
        match self {
            Shape::Leaf => NIL,
            Shape::Node { right, idx, .. } => if *right is Leaf {
                idx
            } else {
                right.rightmost()
            },
        }
    }
}

/// A one-node tree.
pub open spec fn single<T: Key>(idx: usize, key: T, color: NodeColor) -> Shape<T> {
    Shape::Node { left: Box::new(Shape::Leaf), idx, key, color, right: Box::new(Shape::Leaf) }
}

/// A tree from its parts.
pub open spec fn join<T: Key>(
    left: Shape<T>,
    idx: usize,
    key: T,
    color: NodeColor,
    right: Shape<T>,
) -> Shape<T> {
    Shape::Node { left: Box::new(left), idx, key, color, right: Box::new(right) }
}

/// The tree after its top node has gone down to the left and its right child
/// has come up: `(a x (b y c))` becomes `((a x b) y c)`. A tree without a
/// right child stays as it is.
pub open spec fn rot_left<T: Key>(t: Shape<T>) -> Shape<T> {
    match t {
        Shape::Leaf => t,
        Shape::Node { left: a, idx: x, key: kx, color: cx, right: r } => match *r {
            Shape::Leaf => t,
            Shape::Node { left: b, idx: y, key: ky, color: cy, right: c } => join(
                join(*a, x, kx, cx, *b),
                y,
                ky,
                cy,
                *c,
            ),
        },
    }
}

/// The tree after its top node has gone down to the right and its left child
/// has come up: `((a x b) y c)` becomes `(a x (b y c))`. A tree without a
/// left child stays as it is.
pub open spec fn rot_right<T: Key>(t: Shape<T>) -> Shape<T> {
    match t {
        Shape::Leaf => t,
        Shape::Node { left: l, idx: y, key: ky, color: cy, right: c } => match *l {
            Shape::Leaf => t,
            Shape::Node { left: a, idx: x, key: kx, color: cx, right: b } => join(
                *a,
                x,
                kx,
                cx,
                join(*b, y, ky, cy, *c),
            ),
        },
    }
}

/// A rotation keeps the keys in their order, the slots, and their being
/// apart.
pub proof fn lemma_rot_left<T: Key>(t: Shape<T>)
    ensures
        rot_left(t).inorder() =~= t.inorder(),
        rot_left(t).idxs() =~= t.idxs(),
        rot_left(t).size() == t.size(),
        t.distinct() ==> rot_left(t).distinct(),
{
    reveal_with_fuel(Shape::inorder, 3);
    reveal_with_fuel(Shape::idxs, 3);
    reveal_with_fuel(Shape::size, 3);
    reveal_with_fuel(Shape::distinct, 3);
}

/// A rotation keeps the keys in their order, the slots, and their being
/// apart.
pub proof fn lemma_rot_right<T: Key>(t: Shape<T>)
    ensures
        rot_right(t).inorder() =~= t.inorder(),
        rot_right(t).idxs() =~= t.idxs(),
        rot_right(t).size() == t.size(),
        t.distinct() ==> rot_right(t).distinct(),
{
    reveal_with_fuel(Shape::inorder, 3);
    reveal_with_fuel(Shape::idxs, 3);
    reveal_with_fuel(Shape::size, 3);
    reveal_with_fuel(Shape::distinct, 3);
}

/// A sequence in which no key stands before a smaller one.
pub open spec fn sorted<T: Key>(keys: Seq<T>) -> bool {
    forall|i: int, j: int| 0 <= i < j < keys.len() ==> keys[i].rank() <= keys[j].rank()
}

/// One step of a path from the root: the node passed, the side on which the
/// path goes on, and the subtree on the other side.
pub struct Frame<T> {
    pub idx: usize,
    pub key: T,
    pub color: NodeColor,
    pub left_hole: bool,
    pub other: Shape<T>,
}

impl<T: Key> Frame<T> {
    /// The tree with `t` put where the path goes on.
    pub open spec fn fill(self, t: Shape<T>) -> Shape<T> {
        if self.left_hole {
            join(t, self.idx, self.key, self.color, self.other)
        } else {
            join(self.other, self.idx, self.key, self.color, t)
        }
    }

    /// The slots of the node and of the subtree beside the path.
    pub open spec fn idxs(self) -> Set<usize> {
        self.other.idxs().insert(self.idx)
    }

    /// The number of black nodes that the node itself adds to a path.
    pub open spec fn weight(self) -> nat {
        if self.color == NodeColor::Black {
            1
        } else {
            0
        }
    }
}

/// A path from the root down to a place in the tree; the root comes first.
pub type Path<T> = Seq<Frame<T>>;

/// The whole tree, with `t` at the end of the path.
pub open spec fn plug<T: Key>(path: Path<T>, t: Shape<T>) -> Shape<T>
    decreases path.len(),
{
    if path.len() == 0 {
        t
    } else {
        plug(path.drop_last(), path.last().fill(t))
    }
}

/// The slots on and beside the path.
pub open spec fn path_idxs<T: Key>(path: Path<T>) -> Set<usize>
    decreases path.len(),
{
    if path.len() == 0 {
        Set::empty()
    } else {
        path_idxs(path.drop_last()).union(path.last().idxs())
    }
}

/// The keys left of the place at the end of the path.
pub open spec fn path_before<T: Key>(path: Path<T>) -> Seq<T>
    decreases path.len(),
{
    if path.len() == 0 {
        Seq::empty()
    } else if path.last().left_hole {
        path_before(path.drop_last())
    } else {
        path_before(path.drop_last()) + path.last().other.inorder().push(path.last().key)
    }
}

/// The keys right of the place at the end of the path.
pub open spec fn path_after<T: Key>(path: Path<T>) -> Seq<T>
    decreases path.len(),
{
    if path.len() == 0 {
        Seq::empty()
    } else if path.last().left_hole {
        seq![path.last().key] + path.last().other.inorder() + path_after(path.drop_last())
    } else {
        path_after(path.drop_last())
    }
}

/// What a path needs so that a black-rooted, balanced subtree of black height
/// `h` without red-red pairs completes it to a red-black tree.
pub open spec fn path_ok<T: Key>(path: Path<T>, h: nat) -> bool
    decreases path.len(),
{
    if path.len() == 0 {
        true
    } else {
        let f = path.last();
        let rest = path.drop_last();
        &&& f.other.balanced()
        &&& f.other.no_red_red()
        &&& f.other.black_height() == h
        &&& f.color == NodeColor::Red ==> f.other.is_black() && rest.len() > 0
            && rest.last().color == NodeColor::Black
        &&& rest.len() == 0 ==> f.color == NodeColor::Black
        &&& path_ok(rest, h + f.weight())
    }
}

/// The slots of a tree are those on and beside the path and those of the
/// subtree at its end.
pub proof fn lemma_plug_idxs<T: Key>(path: Path<T>, t: Shape<T>)
    ensures
        plug(path, t).idxs() =~= path_idxs(path).union(t.idxs()),
    decreases path.len(),
{
    if path.len() > 0 {
        lemma_plug_idxs(path.drop_last(), path.last().fill(t));
    }
}

/// The keys of a tree are the keys left of a place, those of the subtree at
/// the place, and the keys right of it.
pub proof fn lemma_plug_inorder<T: Key>(path: Path<T>, t: Shape<T>)
    ensures
        plug(path, t).inorder() =~= path_before(path) + t.inorder() + path_after(path),
    decreases path.len(),
{
    if path.len() > 0 {
        lemma_plug_inorder(path.drop_last(), path.last().fill(t));
    }
}

/// A path that is ready for black height `h`, completed by such a subtree,
/// is a red-black tree.
pub proof fn lemma_plug_red_black<T: Key>(path: Path<T>, t: Shape<T>)
    requires
        path_ok(path, t.black_height()),
        t.balanced(),
        t.no_red_red(),
        path.len() == 0 ==> t.is_black(),
        path.len() > 0 && path.last().color == NodeColor::Red ==> t.is_black(),
    ensures
        plug(path, t).red_black(),
    decreases path.len(),
{
    if path.len() > 0 {
        lemma_plug_red_black(path.drop_last(), path.last().fill(t));
    }
}

/// In a red-black tree, the path to any place is ready for the black height
/// of the subtree that stands there.
pub proof fn lemma_path_ok<T: Key>(path: Path<T>, t: Shape<T>)
    requires
        plug(path, t).no_red_red(),
        plug(path, t).balanced(),
        plug(path, t).is_black(),
    ensures
        path_ok(path, t.black_height()),
        t.balanced(),
        t.no_red_red(),
        path.len() == 0 ==> t.is_black(),
        path.len() > 0 && path.last().color == NodeColor::Red ==> t.is_black(),
    decreases path.len(),
{
    if path.len() > 0 {
        lemma_path_ok(path.drop_last(), path.last().fill(t));
    }
}

} // verus!
