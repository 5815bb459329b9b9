//! The nodes of the tree and the links between them.

use vstd::prelude::*;
use crate::tree::key::Key;
use crate::tree::link::{
    lemma_shaped_frame, lemma_shaped_in_range, lemma_shaped_same, lemma_shaped_unique, shape_at,
    shaped,
};
use crate::tree::shape::{rot_left, rot_right, NodeColor, Shape, NIL};

verus! {

/// A node of the tree. It lives in one slot of an arena and names its
/// neighbours by their slots; `NIL` stands for a missing neighbour.
#[derive(Debug)]
pub struct Node<T> {
    /// The slot that the node itself lives in.
    pub addr: usize,
    /// The key.
    pub item: T,
    pub color: NodeColor,
    pub parent: usize,
    pub left: usize,
    pub right: usize,
}

impl<T: Copy> Clone for Node<T> {
    fn clone(&self) -> (r: Self)
        ensures
            r == *self,
    {
        *self
    }
}

impl<T: Copy> Copy for Node<T> {

}

/// The node in slot `i`.
pub open spec fn at<T: Key>(nodes: Seq<Node<T>>, i: usize) -> Node<T> {
    nodes[i as int]
}

/// `i` is a link that can be followed in `nodes`: null, or a slot of it.
pub open spec fn link_ok<T: Key>(nodes: Seq<Node<T>>, i: usize) -> bool {
    i == NIL || i < nodes.len()
}

/// `i` is a slot of `nodes`.
pub open spec fn slot_ok<T: Key>(nodes: Seq<Node<T>>, i: usize) -> bool {
    i != NIL && i < nodes.len()
}

pub open spec fn spec_left<T: Key>(nodes: Seq<Node<T>>, i: usize) -> usize {
    if i == NIL {
        NIL
    } else {
        at(nodes, i).left
    }
}

pub open spec fn spec_right<T: Key>(nodes: Seq<Node<T>>, i: usize) -> usize {
    if i == NIL {
        NIL
    } else {
        at(nodes, i).right
    }
}

pub open spec fn spec_parent<T: Key>(nodes: Seq<Node<T>>, i: usize) -> usize {
    if i == NIL {
        NIL
    } else {
        at(nodes, i).parent
    }
}

/// The node is the top of a spelled-out subtree with a right child, and its
/// parent, if it has one, is a slot outside that subtree.
pub open spec fn can_rotate_left<T: Key>(nodes: Seq<Node<T>>, node: usize) -> bool {
    exists|t: Shape<T>| #[trigger] turns_left(nodes, node, t)
}

/// `t` is the subtree under `node`, it has a right child, and the parent of
/// `node`, if it has one, is a slot outside `t`.
pub open spec fn turns_left<T: Key>(nodes: Seq<Node<T>>, node: usize, t: Shape<T>) -> bool {
    &&& shaped(nodes, node, t)
    &&& t.distinct()
    &&& t is Node
    &&& t.rt() is Node
    &&& outside(nodes, at(nodes, node).parent, t)
}

/// `t` is the subtree under `node`, it has a left child, and the parent of
/// `node`, if it has one, is a slot outside `t`.
pub open spec fn turns_right<T: Key>(nodes: Seq<Node<T>>, node: usize, t: Shape<T>) -> bool {
    &&& shaped(nodes, node, t)
    &&& t.distinct()
    &&& t is Node
    &&& t.lt() is Node
    &&& outside(nodes, at(nodes, node).parent, t)
}

/// The node is the top of a spelled-out subtree with a left child, and its
/// parent, if it has one, is a slot outside that subtree.
pub open spec fn can_rotate_right<T: Key>(nodes: Seq<Node<T>>, node: usize) -> bool {
    exists|t: Shape<T>| #[trigger] turns_right(nodes, node, t)
}

/// `p` is null, or a slot that is no part of `t`.
pub open spec fn outside<T: Key>(nodes: Seq<Node<T>>, p: usize, t: Shape<T>) -> bool {
    p == NIL || (p < nodes.len() && !t.idxs().contains(p))
}

/// What a rotation that puts `up` in the place of `down` does to a node
/// `p` above them: the link that led to `down` now leads to `up`.
pub open spec fn relinked<T: Key>(p: Node<T>, down: usize, up: usize) -> Node<T> {
    if p.left == down {
        Node { left: up, ..p }
    } else if p.right == down {
        Node { right: up, ..p }
    } else {
        p
    }
}

impl<T: Key> Node<T> {
    /// A red node without neighbours, to live in slot `addr`.
    pub fn new(item: T, addr: usize) -> (node: Node<T>)
        ensures
            node == (Node {
                addr,
                item,
                color: NodeColor::Red,
                parent: NIL,
                left: NIL,
                right: NIL,
            }),
    {
        Node { addr, item, color: NodeColor::Red, parent: NIL, left: NIL, right: NIL }
    }

    /// Walks the subtree under `node` from its largest key to its smallest
    /// and appends to `out`, for each node, its key, its indent and its
    /// colour. The node itself has the indent `align`, and each step down
    /// adds five.
    pub fn traverse_tree(
        nodes: &Vec<Node<T>>,
        node: usize,
        out: &mut Vec<(T, usize, NodeColor)>,
        align: usize,
    )
        requires
            shaped(nodes@, node, shape_at(nodes@, node)),
            align + 5 * shape_at(nodes@, node).height() <= usize::MAX,
        ensures
            final(out)@ == old(out)@ + shape_at(nodes@, node).visits(align as nat),
        decreases shape_at(nodes@, node).size(),
    {
        let ghost t = shape_at(nodes@, node);
        if node == NIL {
            proof {
                assert(old(out)@ + t.visits(align as nat) =~= old(out)@);
            }
            return ;
        }
        proof {
            lemma_shaped_in_range(nodes@, node, t);
            assert(shaped(nodes@, at(nodes@, node).right, t.rt()));
            assert(shaped(nodes@, at(nodes@, node).left, t.lt()));
            lemma_shaped_unique(
                nodes@,
                at(nodes@, node).right,
                t.rt(),
                shape_at(nodes@, at(nodes@, node).right),
            );
            lemma_shaped_unique(
                nodes@,
                at(nodes@, node).left,
                t.lt(),
                shape_at(nodes@, at(nodes@, node).left),
            );
        }
        Node::traverse_tree(nodes, Node::right(nodes, node), out, align + 5);
        out.push((nodes[node].item, align, nodes[node].color));
        Node::traverse_tree(nodes, Node::left(nodes, node), out, align + 5);
        proof {
            assert(out@ =~= old(out)@ + t.visits(align as nat));
        }
    }

    /// The left child; of the null link, the null link.
    pub fn left(nodes: &Vec<Node<T>>, node: usize) -> (r: usize)
        requires
            link_ok(nodes@, node),
        ensures
            r == spec_left(nodes@, node),
    {
        if node == NIL {
            NIL
        } else {
            nodes[node].left
        }
    }

    /// The right child; of the null link, the null link.
    pub fn right(nodes: &Vec<Node<T>>, node: usize) -> (r: usize)
        requires
            link_ok(nodes@, node),
        ensures
            r == spec_right(nodes@, node),
    {
        if node == NIL {
            NIL
        } else {
            nodes[node].right
        }
    }

    /// The parent; of the null link, the null link.
    pub fn parent(nodes: &Vec<Node<T>>, node: usize) -> (r: usize)
        requires
            link_ok(nodes@, node),
        ensures
            r == spec_parent(nodes@, node),
    {
        if node == NIL {
            NIL
        } else {
            nodes[node].parent
        }
    }

    /// The parent's parent, null where either is missing.
    pub fn grandparent(nodes: &Vec<Node<T>>, node: usize) -> (r: usize)
        requires
            link_ok(nodes@, node),
            link_ok(nodes@, spec_parent(nodes@, node)),
        ensures
            r == spec_grandparent(nodes@, node),
    {
        let p = Node::parent(nodes, node);
        if p == NIL {
            NIL
        } else {
            Node::parent(nodes, p)
        }
    }

    /// The parent's other child: the right one if the node is the left one,
    /// else the left one. Null where there is no parent.
    pub fn sibling(nodes: &Vec<Node<T>>, node: usize) -> (r: usize)
        requires
            link_ok(nodes@, node),
            link_ok(nodes@, spec_parent(nodes@, node)),
        ensures
            r == spec_sibling(nodes@, node),
    {
        let p = Node::parent(nodes, node);
        if p == NIL {
            return p;
        }
        if node == Node::left(nodes, p) {
            Node::right(nodes, p)
        } else {
            Node::left(nodes, p)
        }
    }

    /// The parent's sibling, null where there is no parent.
    pub fn uncle(nodes: &Vec<Node<T>>, node: usize) -> (r: usize)
        requires
            link_ok(nodes@, node),
            link_ok(nodes@, spec_parent(nodes@, node)),
            link_ok(nodes@, spec_grandparent(nodes@, node)),
        ensures
            r == spec_uncle(nodes@, node),
    {
        let p = Node::parent(nodes, node);
        if p == NIL {
            NIL
        } else {
            Node::sibling(nodes, p)
        }
    }

    /// Whether the node has the colour `color`. The null link has no colour:
    /// for it the answer is no, whatever is asked.
    pub fn cmp_color(nodes: &Vec<Node<T>>, node: usize, color: NodeColor) -> (r: bool)
        requires
            link_ok(nodes@, node),
        ensures
            r == spec_has_color(nodes@, node, color),
    {
        if node == NIL {
            false
        } else {
            nodes[node].color == color
        }
    }

    /// Whether the node counts as black: it is black, or it is the null link.
    pub fn is_black(nodes: &Vec<Node<T>>, node: usize) -> (r: bool)
        requires
            link_ok(nodes@, node),
        ensures
            r == !spec_has_color(nodes@, node, NodeColor::Red),
    {
        !Node::cmp_color(nodes, node, NodeColor::Red)
    }

    /// The other child of `parent`, seen from its child `node`, which may be
    /// the null link: the right one if `node` is the left one, else the left
    /// one. Null where there is no parent.
    pub fn sibling_of(nodes: &Vec<Node<T>>, node: usize, parent: usize) -> (r: usize)
        requires
            link_ok(nodes@, parent),
        ensures
            r == spec_sibling_of(nodes@, node, parent),
    {
        if parent == NIL {
            NIL
        } else if node == Node::left(nodes, parent) {
            Node::right(nodes, parent)
        } else {
            Node::left(nodes, parent)
        }
    }

    /// The smallest node of the subtree under `node`: the one reached by
    /// going left as long as there is a left child.
    pub fn most_left(nodes: &Vec<Node<T>>, node: usize) -> (r: usize)
        requires
            exists|t: Shape<T>| shaped(nodes@, node, t),
        ensures
            forall|t: Shape<T>| shaped(nodes@, node, t) ==> r == t.leftmost(),
            link_ok(nodes@, r),
            node != NIL ==> r != NIL && at(nodes@, r).left == NIL,
    {
        let ghost whole = choose|t: Shape<T>| shaped(nodes@, node, t);
        let ghost mut cur = whole;
        let mut left = node;
        while Node::left(nodes, left) != NIL
            invariant
                shaped(nodes@, left, cur),
                cur.leftmost() == whole.leftmost(),
                node != NIL ==> left != NIL,
            decreases cur.size(),
        {
            proof {
                assert(shaped(nodes@, spec_left(nodes@, left), cur.lt()));
                assert(cur.lt() is Node);
                assert(cur.leftmost() == cur.lt().leftmost());
                cur = cur.lt();
            }
            left = Node::left(nodes, left);
        }
        proof {
            assert(shaped(nodes@, spec_left(nodes@, left), cur.lt()));
            assert forall|t: Shape<T>| shaped(nodes@, node, t) implies left == t.leftmost() by {
                lemma_shaped_unique(nodes@, node, t, whole);
            }
        }
        left
    }

    /// The largest node of the subtree under `node`: the one reached by
    /// going right as long as there is a right child.
    pub fn most_right(nodes: &Vec<Node<T>>, node: usize) -> (r: usize)
        requires
            exists|t: Shape<T>| shaped(nodes@, node, t),
        ensures
            forall|t: Shape<T>| shaped(nodes@, node, t) ==> r == t.rightmost(),
            link_ok(nodes@, r),
            node != NIL ==> r != NIL && at(nodes@, r).right == NIL,
    {
        let ghost whole = choose|t: Shape<T>| shaped(nodes@, node, t);
        let ghost mut cur = whole;
        let mut right = node;
        while Node::right(nodes, right) != NIL
            invariant
                shaped(nodes@, right, cur),
                cur.rightmost() == whole.rightmost(),
                node != NIL ==> right != NIL,
            decreases cur.size(),
        {
            proof {
                assert(shaped(nodes@, spec_right(nodes@, right), cur.rt()));
                assert(cur.rt() is Node);
                assert(cur.rightmost() == cur.rt().rightmost());
                cur = cur.rt();
            }
            right = Node::right(nodes, right);
        }
        proof {
            assert(shaped(nodes@, spec_right(nodes@, right), cur.rt()));
            assert forall|t: Shape<T>| shaped(nodes@, node, t) implies right == t.rightmost() by {
                lemma_shaped_unique(nodes@, node, t, whole);
            }
        }
        right
    }

    /// Turns the subtree under `node` to the left: the right child comes up
    /// into the node's place, the node becomes its left child, and what was
    /// the right child's left subtree becomes the node's right subtree. The
    /// node above, if there is one, is linked to the new top; at the root of
    /// the tree there is none, and the new top has no parent.
    pub fn rotate_left(nodes: &mut Vec<Node<T>>, node: usize)
        requires
            can_rotate_left(old(nodes)@, node),
        ensures
            final(nodes)@ == rotated_left(old(nodes)@, node),
            forall|t: Shape<T>| #[trigger]
                shaped(old(nodes)@, node, t) ==> shaped(final(nodes)@, rot_left(t).root(), rot_left(t)),
    {
        let ghost t = choose|t: Shape<T>| #[trigger] turns_left(nodes@, node, t);
        let ghost n0 = nodes@;
        proof {
            lemma_turns_left(n0, node, t);
        }
        let new_node = Node::right(nodes, node);
        let p = Node::parent(nodes, node);
        let inner = nodes[new_node].left;
        nodes[node].right = inner;
        nodes[new_node].left = node;
        nodes[node].parent = new_node;
        if nodes[node].right != NIL {
            nodes[inner].parent = node;
        }
        if p != NIL {
            if node == Node::left(nodes, p) {
                nodes[p].left = new_node;
            } else if node == Node::right(nodes, p) {
                nodes[p].right = new_node;
            }
        }
        nodes[new_node].parent = p;
        proof {
            let n1 = nodes@;
            let want = rotated_left(n0, node);
            assert(n1.len() == want.len());
            assert(n1[node as int] == want[node as int]);
            assert(n1[new_node as int] == want[new_node as int]);
            if inner != NIL {
                assert(n1[inner as int] == want[inner as int]);
            }
            if p != NIL {
                assert(n1[p as int] == want[p as int]);
            }
            assert forall|j: int| 0 <= j < n1.len() implies n1[j] == want[j] by {
                if j != node && j != new_node && j != inner && j != p {
                    assert(n1[j] == n0[j]);
                }
            }
            assert(n1 =~= want);
            lemma_rotated_left(n0, node, t);
            assert forall|t2: Shape<T>| #[trigger] shaped(n0, node, t2) implies shaped(
                nodes@,
                rot_left(t2).root(),
                rot_left(t2),
            ) by {
                lemma_shaped_unique(n0, node, t2, t);
            }
        }
    }

    /// Turns the subtree under `node` to the right: the left child comes up
    /// into the node's place, the node becomes its right child, and what was
    /// the left child's right subtree becomes the node's left subtree. The
    /// node above, if there is one, is linked to the new top; at the root of
    /// the tree there is none, and the new top has no parent.
    pub fn rotate_right(nodes: &mut Vec<Node<T>>, node: usize)
        requires
            can_rotate_right(old(nodes)@, node),
        ensures
            final(nodes)@ == rotated_right(old(nodes)@, node),
            forall|t: Shape<T>| #[trigger]
                shaped(old(nodes)@, node, t) ==> shaped(final(nodes)@, rot_right(t).root(), rot_right(t)),
    {
        let ghost t = choose|t: Shape<T>| #[trigger] turns_right(nodes@, node, t);
        let ghost n0 = nodes@;
        proof {
            lemma_turns_right(n0, node, t);
        }
        let new_node = Node::left(nodes, node);
        let p = Node::parent(nodes, node);
        let inner = nodes[new_node].right;
        nodes[node].left = inner;
        nodes[new_node].right = node;
        nodes[node].parent = new_node;
        if nodes[node].left != NIL {
            nodes[inner].parent = node;
        }
        if p != NIL {
            if node == Node::left(nodes, p) {
                nodes[p].left = new_node;
            } else if node == Node::right(nodes, p) {
                nodes[p].right = new_node;
            }
        }
        nodes[new_node].parent = p;
        proof {
            let n1 = nodes@;
            let want = rotated_right(n0, node);
            assert(n1.len() == want.len());
            assert(n1[node as int] == want[node as int]);
            assert(n1[new_node as int] == want[new_node as int]);
            if inner != NIL {
                assert(n1[inner as int] == want[inner as int]);
            }
            if p != NIL {
                assert(n1[p as int] == want[p as int]);
            }
            assert forall|j: int| 0 <= j < n1.len() implies n1[j] == want[j] by {
                if j != node && j != new_node && j != inner && j != p {
                    assert(n1[j] == n0[j]);
                }
            }
            assert(n1 =~= want);
            lemma_rotated_right(n0, node, t);
            assert forall|t2: Shape<T>| #[trigger] shaped(n0, node, t2) implies shaped(
                nodes@,
                rot_right(t2).root(),
                rot_right(t2),
            ) by {
                lemma_shaped_unique(n0, node, t2, t);
            }
        }
    }
}

/// The arena after the subtree under `x` has been turned to the left.
pub open spec fn rotated_left<T: Key>(nodes: Seq<Node<T>>, x: usize) -> Seq<Node<T>> {
    let y = at(nodes, x).right;
    let b = at(nodes, y).left;
    let p = at(nodes, x).parent;
    Seq::new(
        nodes.len(),
        |j: int|
            if j == x {
                Node { right: b, parent: y, ..nodes[j] }
            } else if j == y {
                Node { left: x, parent: p, ..nodes[j] }
            } else if b != NIL && j == b {
                Node { parent: x, ..nodes[j] }
            } else if p != NIL && j == p {
                relinked(nodes[j], x, y)
            } else {
                nodes[j]
            },
    )
}

/// The slots that a rotation to the left touches are slots of the arena and
/// differ from each other.
pub proof fn lemma_turns_left<T: Key>(nodes: Seq<Node<T>>, x: usize, t: Shape<T>)
    requires
        turns_left(nodes, x, t),
    ensures
        ({
            let y = at(nodes, x).right;
            let b = at(nodes, y).left;
            let p = at(nodes, x).parent;
            &&& slot_ok(nodes, x)
            &&& slot_ok(nodes, y)
            &&& link_ok(nodes, b)
            &&& link_ok(nodes, p)
            &&& x != y && x != b && x != p && y != b && y != p
            &&& b != NIL ==> b != p
        }),
{
    let y = at(nodes, x).right;
    let b = at(nodes, y).left;
    let u = t.rt();
    lemma_shaped_in_range(nodes, x, t);
    assert(shaped(nodes, y, u));
    assert(shaped(nodes, b, u.lt()));
    assert(u.distinct());
    assert(u.idxs().contains(y));
    assert(t.idxs().contains(y));
    assert(t.idxs().contains(x));
    if b != NIL {
        assert(u.lt().idxs().contains(b));
        assert(u.idxs().contains(b));
        assert(t.idxs().contains(b));
    }
}

/// After a rotation to the left the links spell out the rotated tree.
pub proof fn lemma_rotated_left<T: Key>(n0: Seq<Node<T>>, x: usize, t: Shape<T>)
    requires
        turns_left(n0, x, t),
    ensures
        shaped(rotated_left(n0, x), rot_left(t).root(), rot_left(t)),
        rot_left(t).root() == at(n0, x).right,
{
    let n1 = rotated_left(n0, x);
    let y = at(n0, x).right;
    let inner = at(n0, y).left;
    let p = at(n0, x).parent;
    let a = t.lt();
    let u = t.rt();
    let b = u.lt();
    let c = u.rt();
    lemma_turns_left(n0, x, t);
    assert(shaped(n0, y, u));
    assert(shaped(n0, at(n0, x).left, a));
    assert(shaped(n0, inner, b));
    assert(shaped(n0, at(n0, y).right, c));
    assert(u.distinct());
    assert(a.distinct() && b.distinct() && c.distinct());
    assert(u.idxs().contains(y));
    lemma_shaped_in_range(n0, x, t);
    lemma_shaped_in_range(n0, inner, b);
    lemma_shaped_in_range(n0, at(n0, y).right, c);
    lemma_shaped_in_range(n0, at(n0, x).left, a);
    if inner != NIL {
        assert(b.idxs().contains(inner));
    }
    assert forall|j: usize| #[trigger] a.idxs().contains(j) implies at(n0, j) == at(n1, j) by {
        assert(t.idxs().contains(j));
    }
    assert forall|j: usize| #[trigger] c.idxs().contains(j) implies at(n0, j) == at(n1, j) by {
        assert(u.idxs().contains(j));
        assert(t.idxs().contains(j));
    }
    assert forall|j: usize| #[trigger] b.idxs().contains(j) implies same_links(
        at(n0, j),
        at(n1, j),
    ) && (j != inner ==> at(n0, j).parent == at(n1, j).parent) by {
        assert(u.idxs().contains(j));
        assert(t.idxs().contains(j));
    }
    lemma_shaped_same(n0, n1, at(n0, x).left, a);
    lemma_shaped_frame(n0, n1, inner, b);
    lemma_shaped_same(n0, n1, at(n0, y).right, c);
    if at(n0, x).left != NIL {
        assert(a.idxs().contains(at(n0, x).left));
    }
    if at(n0, y).right != NIL {
        assert(c.idxs().contains(at(n0, y).right));
    }
    assert(shaped(n1, x, rot_left(t).lt()));
    assert(shaped(n1, y, rot_left(t)));
}

/// The arena after the subtree under `x` has been turned to the right.
pub open spec fn rotated_right<T: Key>(nodes: Seq<Node<T>>, x: usize) -> Seq<Node<T>> {
    let y = at(nodes, x).left;
    let b = at(nodes, y).right;
    let p = at(nodes, x).parent;
    Seq::new(
        nodes.len(),
        |j: int|
            if j == x {
                Node { left: b, parent: y, ..nodes[j] }
            } else if j == y {
                Node { right: x, parent: p, ..nodes[j] }
            } else if b != NIL && j == b {
                Node { parent: x, ..nodes[j] }
            } else if p != NIL && j == p {
                relinked(nodes[j], x, y)
            } else {
                nodes[j]
            },
    )
}

/// The slots that a rotation to the right touches are slots of the arena and
/// differ from each other.
pub proof fn lemma_turns_right<T: Key>(nodes: Seq<Node<T>>, x: usize, t: Shape<T>)
    requires
        turns_right(nodes, x, t),
    ensures
        ({
            let y = at(nodes, x).left;
            let b = at(nodes, y).right;
            let p = at(nodes, x).parent;
            &&& slot_ok(nodes, x)
            &&& slot_ok(nodes, y)
            &&& link_ok(nodes, b)
            &&& link_ok(nodes, p)
            &&& x != y && x != b && x != p && y != b && y != p
            &&& b != NIL ==> b != p
        }),
{
    let y = at(nodes, x).left;
    let b = at(nodes, y).right;
    let u = t.lt();
    lemma_shaped_in_range(nodes, x, t);
    assert(shaped(nodes, y, u));
    assert(shaped(nodes, b, u.rt()));
    assert(u.distinct());
    assert(u.idxs().contains(y));
    assert(t.idxs().contains(y));
    assert(t.idxs().contains(x));
    if b != NIL {
        assert(u.rt().idxs().contains(b));
        assert(u.idxs().contains(b));
        assert(t.idxs().contains(b));
    }
}

/// After a rotation to the right the links spell out the rotated tree.
pub proof fn lemma_rotated_right<T: Key>(n0: Seq<Node<T>>, x: usize, t: Shape<T>)
    requires
        turns_right(n0, x, t),
    ensures
        shaped(rotated_right(n0, x), rot_right(t).root(), rot_right(t)),
        rot_right(t).root() == at(n0, x).left,
{
    let n1 = rotated_right(n0, x);
    let y = at(n0, x).left;
    let inner = at(n0, y).right;
    let p = at(n0, x).parent;
    let a = t.rt();
    let u = t.lt();
    let b = u.rt();
    let c = u.lt();
    lemma_turns_right(n0, x, t);
    assert(shaped(n0, y, u));
    assert(shaped(n0, at(n0, x).right, a));
    assert(shaped(n0, inner, b));
    assert(shaped(n0, at(n0, y).left, c));
    assert(u.distinct());
    assert(a.distinct() && b.distinct() && c.distinct());
    assert(u.idxs().contains(y));
    lemma_shaped_in_range(n0, x, t);
    lemma_shaped_in_range(n0, inner, b);
    lemma_shaped_in_range(n0, at(n0, y).left, c);
    lemma_shaped_in_range(n0, at(n0, x).right, a);
    if inner != NIL {
        assert(b.idxs().contains(inner));
    }
    assert forall|j: usize| #[trigger] a.idxs().contains(j) implies at(n0, j) == at(n1, j) by {
        assert(t.idxs().contains(j));
    }
    assert forall|j: usize| #[trigger] c.idxs().contains(j) implies at(n0, j) == at(n1, j) by {
        assert(u.idxs().contains(j));
        assert(t.idxs().contains(j));
    }
    assert forall|j: usize| #[trigger] b.idxs().contains(j) implies same_links(
        at(n0, j),
        at(n1, j),
    ) && (j != inner ==> at(n0, j).parent == at(n1, j).parent) by {
        assert(u.idxs().contains(j));
        assert(t.idxs().contains(j));
    }
    lemma_shaped_same(n0, n1, at(n0, x).right, a);
    lemma_shaped_frame(n0, n1, inner, b);
    lemma_shaped_same(n0, n1, at(n0, y).left, c);
    if at(n0, x).right != NIL {
        assert(a.idxs().contains(at(n0, x).right));
    }
    if at(n0, y).left != NIL {
        assert(c.idxs().contains(at(n0, y).left));
    }
    assert(shaped(n1, x, rot_right(t).rt()));
    assert(shaped(n1, y, rot_right(t)));
}

pub open spec fn spec_grandparent<T: Key>(nodes: Seq<Node<T>>, i: usize) -> usize {
    spec_parent(nodes, spec_parent(nodes, i))
}

pub open spec fn spec_sibling<T: Key>(nodes: Seq<Node<T>>, i: usize) -> usize {
    let p = spec_parent(nodes, i);
    if p == NIL {
        NIL
    } else if i == at(nodes, p).left {
        at(nodes, p).right
    } else {
        at(nodes, p).left
    }
}

pub open spec fn spec_has_color<T: Key>(nodes: Seq<Node<T>>, i: usize, color: NodeColor) -> bool {
    i != NIL && at(nodes, i).color == color
}

pub open spec fn spec_sibling_of<T: Key>(nodes: Seq<Node<T>>, i: usize, p: usize) -> usize {
    if p == NIL {
        NIL
    } else if i == at(nodes, p).left {
        at(nodes, p).right
    } else {
        at(nodes, p).left
    }
}

pub open spec fn spec_uncle<T: Key>(nodes: Seq<Node<T>>, i: usize) -> usize {
    spec_sibling(nodes, spec_parent(nodes, i))
}

/// Two nodes that differ at most in their parent link.
pub open spec fn same_links<T: Key>(a: Node<T>, b: Node<T>) -> bool {
    &&& a.addr == b.addr
    &&& a.item == b.item
    &&& a.color == b.color
    &&& a.left == b.left
    &&& a.right == b.right
}

} // verus!
