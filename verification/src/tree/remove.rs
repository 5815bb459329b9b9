//! Removal of a key: the search for it, the choice of the node that leaves
//! the tree in its place, and the unlinking of that node.

use vstd::prelude::*;
use crate::tree::key::Key;

use crate::tree::insert::lemma_sorted_split;
use crate::tree::link::{
    depth, lemma_parent_depth, lemma_shaped_in_range, lemma_shaped_unique, lemma_tree_of, shaped,
    tree_at, tree_of, valid,
};
use crate::tree::delete::healed;
use crate::tree::mix::{spec_mix, spec_next_seed, start_right};
use crate::tree::node::{at, slot_ok, Node};
use crate::tree::shape::{
    lemma_path_ok, lemma_plug_idxs, lemma_plug_inorder, lemma_plug_red_black, path_after,
    path_before, path_idxs, plug, sorted, Frame, NodeColor, Path, Shape, NIL,
};
use crate::tree::zip::{
    kept_outside, lemma_down_left, lemma_down_left_pos, lemma_down_right, lemma_down_right_pos,
    lemma_family, lemma_kept_outside_trans, lemma_paint, lemma_pos, lemma_rekey, lemma_splice,
    lemma_to_leftmost, lemma_to_rightmost, lemma_zipped_whole, lpos, painted, rekeyed, to_leftmost,
    to_rightmost, zipped, Zip,
};

verus! {

/// What the removal of the node at the place `z` leaves: `res` is the whole
/// tree and red-black; its keys are those of before without the key at the
/// place, in the same order; the slot that has left the tree now holds that
/// key; no node outside the old tree has changed; and `hint` is a slot of
/// the new tree, or null where the new tree is empty.
pub open spec fn removed_at<T: Key>(
    n0: Seq<Node<T>>,
    n1: Seq<Node<T>>,
    z: Zip<T>,
    res: Shape<T>,
    slot: usize,
    hint: usize,
) -> bool {
    &&& n1.len() == n0.len()
    &&& tree_at(n1, res.root(), res)
    &&& res.red_black()
    &&& res.inorder() == z.whole().inorder().remove(lpos(z))
    &&& z.whole().idxs().contains(slot)
    &&& res.idxs() == z.whole().idxs().remove(slot)
    &&& at(n1, slot).item == z.t->key
    &&& kept_outside(n0, n1, z.whole().idxs())
    &&& res is Leaf ==> hint == NIL
    &&& res is Node ==> res.idxs().contains(hint)
}

/// The one subtree of a node that has at most one: the left one where there
/// is no right one.
pub open spec fn only_child<T: Key>(t: Shape<T>) -> Shape<T> {
    if t.rt() is Leaf {
        t.lt()
    } else {
        t.rt()
    }
}

/// Two keys that stand side by side change places; taking out the second
/// then leaves what taking out the first would have left before.
pub proof fn lemma_swap_remove<T: Key>(s: Seq<T>, p: int, q: int)
    requires
        0 <= p < s.len(),
        0 <= q < s.len(),
        q == p + 1 || q == p - 1,
    ensures
        s.update(p, s[q]).update(q, s[p]).remove(q) =~= s.remove(p),
{
}

/// A sorted sequence without one of its keys is sorted.
pub proof fn lemma_sorted_remove<T: Key>(s: Seq<T>, p: int)
    requires
        sorted(s),
        0 <= p < s.len(),
    ensures
        sorted(s.remove(p)),
{
    let r = s.remove(p);
    assert forall|i: int, j: int| 0 <= i < j < r.len() implies r[i].rank() <= r[j].rank() by {
        let i2 = if i < p {
            i
        } else {
            i + 1
        };
        let j2 = if j < p {
            j
        } else {
            j + 1
        };
        assert(r[i] == s[i2] && r[j] == s[j2]);
    }
}

/// Keys that bound a place in the tree strictly: those left of it come
/// before `key`, those right of it after.
pub open spec fn path_apart<T: Key>(path: Path<T>, key: T) -> bool {
    &&& forall|i: int|
        0 <= i < path_before(path).len() ==> (#[trigger] path_before(path)[i]).rank() < key.rank()
    &&& forall|i: int|
        0 <= i < path_after(path).len() ==> key.rank() < (#[trigger] path_after(path)[i]).rank()
}

/// Going down by one node keeps the strict bounds, if the key is strictly
/// on one side of that node's key and the subtree left behind on the other.
pub proof fn lemma_path_apart_step<T: Key>(path: Path<T>, f: Frame<T>, key: T)
    requires
        path_apart(path, key),
        f.left_hole ==> key.rank() < f.key.rank() && forall|i: int|
            0 <= i < f.other.inorder().len() ==> f.key.rank() <= (
            #[trigger] f.other.inorder()[i]).rank(),
        !f.left_hole ==> f.key.rank() < key.rank() && forall|i: int|
            0 <= i < f.other.inorder().len() ==> (#[trigger] f.other.inorder()[i]).rank()
                <= f.key.rank(),
    ensures
        path_apart(path.push(f), key),
{
    let p2 = path.push(f);
    assert(p2.drop_last() =~= path);
    assert(p2.last() == f);
    if f.left_hole {
        assert(path_before(p2) =~= path_before(path));
        let s = seq![f.key] + f.other.inorder() + path_after(path);
        assert(path_after(p2) =~= s);
        assert forall|i: int| 0 <= i < s.len() implies key.rank() < (#[trigger] s[i]).rank() by {
            if i == 0 {
            } else if i < 1 + f.other.inorder().len() {
                assert(s[i] == f.other.inorder()[i - 1]);
            } else {
                assert(s[i] == path_after(path)[i - 1 - f.other.inorder().len()]);
            }
        }
    } else {
        assert(path_after(p2) =~= path_after(path));
        let s = path_before(path) + f.other.inorder().push(f.key);
        assert(path_before(p2) =~= s);
        assert forall|i: int| 0 <= i < s.len() implies (#[trigger] s[i]).rank() < key.rank() by {
            if i < path_before(path).len() {
                assert(s[i] == path_before(path)[i]);
            } else if i < path_before(path).len() + f.other.inorder().len() {
                assert(s[i] == f.other.inorder()[i - path_before(path).len()]);
            } else {
            }
        }
    }
}

/// No key of the sequence has the rank of `key`.
pub open spec fn absent<T: Key>(keys: Seq<T>, key: T) -> bool {
    forall|i: int| 0 <= i < keys.len() ==> (#[trigger] keys[i]).rank() != key.rank()
}

/// A key that is apart from all keys left and right of an empty place is
/// no key of the tree.
pub proof fn lemma_apart_absent<T: Key>(path: Path<T>, key: T)
    requires
        path_apart(path, key),
    ensures
        absent(path_before(path) + path_after(path), key),
{
    let s = path_before(path) + path_after(path);
    assert forall|i: int| 0 <= i < s.len() implies (#[trigger] s[i]).rank() != key.rank() by {
        if i < path_before(path).len() {
            assert(s[i] == path_before(path)[i]);
        } else {
            assert(s[i] == path_after(path)[i - path_before(path).len()]);
        }
    }
}

/// The place at which a search for `key` ends: down from the place `z`,
/// to the right where a node's key comes before the key and to the left
/// where the key comes before it, until a node has the rank of the key or
/// the place is empty.
pub open spec fn search_place<T: Key>(z: Zip<T>, key: T) -> Zip<T>
    decreases z.t.size(),
{
    match z.t {
        Shape::Leaf => z,
        Shape::Node { key: k, .. } => if k.rank() < key.rank() {
            search_place(z.down_right(), key)
        } else if key.rank() < k.rank() {
            search_place(z.down_left(), key)
        } else {
            z
        },
    }
}

/// Whether the key that takes the place of a removed key with two children
/// comes from the left subtree, as the seed decides.
pub open spec fn takes_left(seed: u64) -> bool {
    (spec_mix(spec_next_seed(seed)) as usize) % 2 == 0
}

/// The tree after the node at the place `z`, which has at most one child,
/// has left it: the child takes its place; where the node was black, a red
/// child becomes black, and without one the tree is healed from the place.
pub open spec fn unlinked<T: Key>(z: Zip<T>) -> Shape<T> {
    let c = only_child(z.t);
    if z.t is Node && z.t->color == NodeColor::Black {
        if c.is_red() {
            plug(z.path, painted(c, NodeColor::Black))
        } else {
            healed(z.with(c))
        }
    } else {
        z.with(c).whole()
    }
}

/// The place of the node that leaves the tree for the key at the place
/// `z`, whose node has two children: the node with the largest key of the
/// left subtree or with the smallest of the right one, as the seed decides,
/// after the two keys have changed places.
pub open spec fn stand_in<T: Key>(z: Zip<T>, seed: u64) -> Zip<T> {
    let e = if takes_left(seed) {
        to_rightmost(z.down_left())
    } else {
        to_leftmost(z.down_right())
    };
    let z1 = z.with(rekeyed(z.t, e.t->key));
    let d = if takes_left(seed) {
        to_rightmost(z1.down_left())
    } else {
        to_leftmost(z1.down_right())
    };
    d.with(rekeyed(d.t, z.t->key))
}

/// The tree after the key at the place `z` has been removed.
pub open spec fn removed_shape<T: Key>(z: Zip<T>, seed: u64) -> Shape<T> {
    if z.t.lt() is Node && z.t.rt() is Node {
        unlinked(stand_in(z, seed))
    } else {
        unlinked(z)
    }
}

/// The tree `t` after the removal of `key`: the tree itself where no key
/// has that rank.
pub open spec fn deleted<T: Key>(t: Shape<T>, key: T, seed: u64) -> Shape<T> {
    let z = search_place(Zip { path: Seq::empty(), t }, key);
    if z.t is Leaf {
        t
    } else {
        removed_shape(z, seed)
    }
}

/// The seed after the removal of `key` from `t`: one step on where the key
/// was found in a node with two children, else as it was.
pub open spec fn seed_after<T: Key>(t: Shape<T>, key: T, seed: u64) -> u64 {
    let z = search_place(Zip { path: Seq::empty(), t }, key);
    if z.t.lt() is Node && z.t.rt() is Node {
        spec_next_seed(seed)
    } else {
        seed
    }
}

impl<T: Key> Node<T> {
    /// The root of the tree that `start` is a node of: the node reached by
    /// going up as long as there is a parent.
    pub(crate) fn root_of(
        nodes: &Vec<Node<T>>,
        start: usize,
        Ghost(t): Ghost<Shape<T>>,
    ) -> (r: usize)
        requires
            tree_at(nodes@, t.root(), t),
            t.idxs().contains(start),
        ensures
            r == t.root(),
            r != NIL,
    {
        let mut top = start;
        proof {
            lemma_shaped_in_range(nodes@, t.root(), t);
        }
        while Node::parent(nodes, top) != NIL
            invariant
                tree_at(nodes@, t.root(), t),
                t.idxs().contains(top),
                slot_ok(nodes@, top),
            decreases depth(t, top),
        {
            proof {
                lemma_shaped_in_range(nodes@, t.root(), t);
                lemma_parent_depth(nodes@, t.root(), t, top);
            }
            top = Node::parent(nodes, top);
        }
        proof {
            lemma_shaped_in_range(nodes@, t.root(), t);
            if top != t.root() {
                lemma_parent_depth(nodes@, t.root(), t, top);
            }
        }
        top
    }

    /// Takes `node` out of the tree and puts `child`, its one subtree or the
    /// null link, into its place: the child gets the node's parent, and the
    /// parent, where there is one, the child in place of the node.
    pub(crate) fn replace_node(
        nodes: &mut Vec<Node<T>>,
        node: usize,
        child: usize,
        Ghost(z): Ghost<Zip<T>>,
    )
        requires
            zipped(old(nodes)@, z),
            z.hole() == node,
            z.t is Node,
            z.t.lt() is Leaf || z.t.rt() is Leaf,
            child == only_child(z.t).root(),
        ensures
            final(nodes)@.len() == old(nodes)@.len(),
            zipped(final(nodes)@, z.with(only_child(z.t))),
            z.with(only_child(z.t)).whole().inorder() == z.whole().inorder().remove(lpos(z)),
            z.with(only_child(z.t)).whole().idxs() == z.whole().idxs().remove(node),
            z.whole().idxs().contains(node),
            kept_outside(old(nodes)@, final(nodes)@, z.whole().idxs()),
            at(final(nodes)@, node) == at(old(nodes)@, node),
    {
        let ghost n0 = nodes@;
        let ghost c = only_child(z.t);
        proof {
            lemma_shaped_in_range(n0, node, z.t);
            assert(shaped(n0, at(n0, node).left, z.t.lt()));
            assert(shaped(n0, at(n0, node).right, z.t.rt()));
            lemma_shaped_in_range(n0, c.root(), c);
            assert(z.t.idxs().contains(node));
            if c is Node {
                assert(c.idxs().contains(child));
                assert(z.t.idxs().contains(child));
            }
            if z.path.len() > 0 {
                lemma_family(n0, z);
                assert(z.path.last().idxs().contains(z.path.last().idx));
                assert(path_idxs(z.path).contains(z.path.last().idx));
            } else {
                assert(at(n0, node).parent == NIL);
            }
        }
        let slots = nodes.len();
        let parent = Node::parent(nodes, node);
        if child != NIL {
            nodes[child].parent = parent;
        }
        if parent != NIL {
            if node == Node::left(nodes, parent) {
                nodes[parent].left = child;
            } else {
                nodes[parent].right = child;
            }
        }
        proof {
            assert(n0.len() == slots);
            lemma_splice(n0, nodes@, z, c);
        }
    }

    /// Takes the key of `node` out of the tree. A node with two children
    /// hands the task on to a neighbour of its key; any other node leaves
    /// the tree itself, its one child takes its place, and where a black
    /// node has left, the tree is rebalanced. Returns the slot that has left
    /// the tree and a slot that is still in it.
    pub(crate) fn delete_node(
        nodes: &mut Vec<Node<T>>,
        node: usize,
        seed: &mut u64,
        Ghost(z): Ghost<Zip<T>>,
    ) -> (r: (Ghost<Shape<T>>, usize, usize))
        requires
            zipped(old(nodes)@, z),
            z.hole() == node,
            z.t is Node,
            z.whole().red_black(),
        ensures
            removed_at(old(nodes)@, final(nodes)@, z, r.0@, r.1, r.2),
            r.0@ == removed_shape(z, *old(seed)),
            *final(seed) == if z.t.lt() is Node && z.t.rt() is Node {
                spec_next_seed(*old(seed))
            } else {
                *old(seed)
            },
        decreases z.t.size(), 1nat,
    {
        let ghost n0 = nodes@;
        proof {
            lemma_shaped_in_range(n0, node, z.t);
            assert(shaped(n0, at(n0, node).left, z.t.lt()));
            assert(shaped(n0, at(n0, node).right, z.t.rt()));
            lemma_shaped_in_range(n0, at(n0, node).left, z.t.lt());
            lemma_shaped_in_range(n0, at(n0, node).right, z.t.rt());
            lemma_path_ok(z.path, z.t);
            lemma_plug_idxs(z.path, z.t);
        }
        if Node::right(nodes, node) != NIL && Node::left(nodes, node) != NIL {
            return Node::bst_delete(nodes, node, seed, Ghost(z));
        }
        let child = if Node::right(nodes, node) == NIL {
            Node::left(nodes, node)
        } else {
            Node::right(nodes, node)
        };
        let parent = Node::parent(nodes, node);
        let hint = if parent != NIL {
            parent
        } else {
            child
        };
        let ghost c = only_child(z.t);
        let ghost z1 = z.with(c);
        proof {
            if z.path.len() > 0 {
                lemma_family(n0, z);
                assert(z.whole().idxs().contains(parent));
            }
            reveal_with_fuel(Shape::balanced, 2);
            reveal_with_fuel(Shape::no_red_red, 2);
            reveal_with_fuel(Shape::black_height, 2);
        }
        Node::replace_node(nodes, node, child, Ghost(z));
        let ghost n1 = nodes@;
        proof {
            lemma_shaped_in_range(n1, c.root(), c);
            if c is Node {
                assert(c.idxs().contains(child));
            }
            lemma_plug_idxs(z1.path, z1.t);
        }
        if Node::cmp_color(nodes, node, NodeColor::Black) {
            if Node::cmp_color(nodes, child, NodeColor::Red) {
                nodes[child].color = NodeColor::Black;
                proof {
                    lemma_paint(n1, nodes@, z1, NodeColor::Black);
                    lemma_kept_outside_trans(n0, n1, nodes@, z.whole().idxs());
                    lemma_zipped_whole(nodes@, z1.painted(NodeColor::Black));
                    lemma_plug_red_black(z1.path, z1.painted(NodeColor::Black).t);
                }
                (Ghost(z1.painted(NodeColor::Black).whole()), node, hint)
            } else {
                let res = Node::delete_case1(nodes, child, parent, Ghost(z1));
                proof {
                    lemma_kept_outside_trans(n0, n1, nodes@, z.whole().idxs());
                    if res@ is Node {
                        assert(res@.idxs().contains(res@.root()));
                    }
                }
                (res, node, hint)
            }
        } else {
            proof {
                lemma_zipped_whole(n1, z1);
                lemma_plug_red_black(z1.path, z1.t);
                if z1.whole() is Node {
                    assert(z1.whole().idxs().contains(z1.whole().root()));
                }
            }
            (Ghost(z1.whole()), node, hint)
        }
    }

    /// Takes the key of a node with two children out of the tree: the key
    /// changes places with the largest key of the left subtree or the
    /// smallest of the right one, as the seed decides, and the node that now
    /// holds it, which has at most one child, leaves the tree.
    pub(crate) fn bst_delete(
        nodes: &mut Vec<Node<T>>,
        node: usize,
        seed: &mut u64,
        Ghost(z): Ghost<Zip<T>>,
    ) -> (r: (Ghost<Shape<T>>, usize, usize))
        requires
            zipped(old(nodes)@, z),
            z.hole() == node,
            z.t is Node,
            z.t.lt() is Node,
            z.t.rt() is Node,
            z.whole().red_black(),
        ensures
            removed_at(old(nodes)@, final(nodes)@, z, r.0@, r.1, r.2),
            r.0@ == removed_shape(z, *old(seed)),
            *final(seed) == spec_next_seed(*old(seed)),
        decreases z.t.size(), 0nat,
    {
        let ghost n0 = nodes@;
        proof {
            lemma_shaped_in_range(n0, node, z.t);
            assert(shaped(n0, at(n0, node).left, z.t.lt()));
            assert(shaped(n0, at(n0, node).right, z.t.rt()));
            lemma_shaped_in_range(n0, at(n0, node).left, z.t.lt());
            lemma_shaped_in_range(n0, at(n0, node).right, z.t.rt());
            lemma_pos(z);
        }
        let above = Node::most_left(nodes, Node::right(nodes, node));
        let below = Node::most_right(nodes, Node::left(nodes, node));
        let from_left = start_right(seed);
        let most = if from_left {
            below
        } else {
            above
        };
        proof {
            assert(above == z.t.rt().leftmost());
            assert(below == z.t.lt().rightmost());
            lemma_down_right(n0, z);
            lemma_down_left(n0, z);
            lemma_to_leftmost(n0, z.down_right());
            lemma_to_rightmost(n0, z.down_left());
            if from_left {
                let e = to_rightmost(z.down_left());
                lemma_shaped_in_range(n0, e.hole(), e.t);
                assert(e.t.idxs().contains(most));
            } else {
                let e = to_leftmost(z.down_right());
                lemma_shaped_in_range(n0, e.hole(), e.t);
                assert(e.t.idxs().contains(most));
            }
            assert(most != node);
        }
        let a = nodes[node].item;
        let b = nodes[most].item;
        nodes[node].item = b;
        let ghost n1 = nodes@;
        let ghost z1 = z.with(rekeyed(z.t, b));
        let ghost mut zd1 = z1;
        proof {
            lemma_rekey(n0, n1, z, b);
            lemma_pos(z1);
            if from_left {
                let d = z1.down_left();
                lemma_down_left(n1, z1);
                lemma_to_rightmost(n1, d);
                lemma_to_rightmost(n0, z.down_left());
                lemma_down_left(n0, z);
                lemma_down_left_pos(z1);
                lemma_shaped_unique(n0, at(n0, node).left, z.t.lt(), z.t.lt());
                zd1 = to_rightmost(d);
                assert(zd1.t.size() < z.t.size());
            } else {
                let d = z1.down_right();
                lemma_down_right(n1, z1);
                lemma_to_leftmost(n1, d);
                lemma_to_leftmost(n0, z.down_right());
                lemma_down_right(n0, z);
                lemma_down_right_pos(z1);
                lemma_shaped_unique(n0, at(n0, node).right, z.t.rt(), z.t.rt());
                zd1 = to_leftmost(d);
                assert(zd1.t.size() < z.t.size());
            }
            lemma_shaped_in_range(n1, zd1.hole(), zd1.t);
            lemma_pos(zd1);
        }
        nodes[most].item = a;
        let ghost n2 = nodes@;
        let ghost zd2 = zd1.with(rekeyed(zd1.t, a));
        proof {
            lemma_rekey(n1, n2, zd1, a);
            lemma_kept_outside_trans(n0, n1, n2, z.whole().idxs());
            lemma_pos(zd2);
            lemma_swap_remove(z.whole().inorder(), lpos(z), lpos(zd1));
        }
        proof {
            assert(from_left == takes_left(*old(seed)));
            assert(zd2 == stand_in(z, *old(seed)));
            assert(!(zd2.t.lt() is Node && zd2.t.rt() is Node));
        }
        let r = Node::delete_node(nodes, most, seed, Ghost(zd2));
        proof {
            lemma_kept_outside_trans(n0, n2, nodes@, z.whole().idxs());
        }
        r
    }

    /// Takes one node with the key `key` out of the tree under `root`, and
    /// rebalances the tree. Returns the slot of the root afterwards, null for
    /// an empty tree, and the slot that has left the tree, which still holds
    /// the key; or, where the tree has no such key, the root as it was and
    /// nothing, and then nothing has changed.
    pub fn delete(nodes: &mut Vec<Node<T>>, root: usize, key: T, seed: &mut u64) -> (r: (
        usize,
        Option<usize>,
    ))
        requires
            valid(old(nodes)@, root),
        ensures
            final(nodes)@.len() == old(nodes)@.len(),
            r.1 is None <==> absent(tree_of(old(nodes)@, root).inorder(), key),
            r.1 is None ==> r.0 == root && final(nodes)@ == old(nodes)@ && *final(seed) == *old(seed),
            r.1 matches Some(slot) ==> {
                &&& valid(final(nodes)@, r.0)
                &&& tree_of(old(nodes)@, root).idxs().contains(slot)
                &&& tree_of(final(nodes)@, r.0).idxs() == tree_of(old(nodes)@, root).idxs().remove(
                    slot,
                )
                &&& at(final(nodes)@, slot).item.rank() == key.rank()
                &&& exists|i: int|
                    0 <= i < tree_of(old(nodes)@, root).inorder().len() && tree_of(
                        old(nodes)@,
                        root,
                    ).inorder()[i] == at(final(nodes)@, slot).item && #[trigger] tree_of(
                        old(nodes)@,
                        root,
                    ).inorder().remove(
                        i,
                    ) == tree_of(final(nodes)@, r.0).inorder()
                &&& kept_outside(old(nodes)@, final(nodes)@, tree_of(old(nodes)@, root).idxs())
            },
            tree_of(final(nodes)@, r.0) == deleted(tree_of(old(nodes)@, root), key, *old(seed)),
            *final(seed) == seed_after(tree_of(old(nodes)@, root), key, *old(seed)),
    {
        let ghost n0 = nodes@;
        let ghost whole = choose|t: Shape<T>| #[trigger]
            tree_at(nodes@, root, t) && t.red_black() && sorted(t.inorder());
        let ghost mut z = Zip { path: Seq::empty(), t: whole };
        let mut current = root;
        let mut found = false;
        proof {
            lemma_tree_of(n0, root, whole);
            lemma_shaped_in_range(n0, root, whole);
        }
        while current != NIL && !found
            invariant
                nodes@ == n0,
                zipped(n0, z),
                z.hole() == current,
                z.whole() == whole,
                sorted(z.t.inorder()),
                path_apart(z.path, key),
                found ==> z.t is Node && z.t->key.rank() == key.rank(),
                search_place(z, key) == search_place(Zip { path: Seq::empty(), t: whole }, key),
            decreases z.t.size() + if found { 0nat } else { 1nat },
        {
            proof {
                lemma_sorted_split(
                    z.t.lt().inorder(),
                    z.t->key,
                    z.t.rt().inorder(),
                );
                lemma_shaped_in_range(n0, current, z.t);
            }
            let item = nodes[current].item;
            if item.less(&key) {
                proof {
                    lemma_down_right(n0, z);
                    lemma_path_apart_step(z.path, z.down_right().path.last(), key);
                    z = z.down_right();
                }
                current = nodes[current].right;
            } else if key.less(&item) {
                proof {
                    lemma_down_left(n0, z);
                    lemma_path_apart_step(z.path, z.down_left().path.last(), key);
                    z = z.down_left();
                }
                current = nodes[current].left;
            } else {
                found = true;
            }
        }
        if !found {
            proof {
                lemma_plug_inorder(z.path, z.t);
                assert(z.t.inorder() =~= Seq::empty());
                assert(whole.inorder() =~= path_before(z.path) + path_after(z.path));
                lemma_apart_absent(z.path, key);
            }
            return (root, None);
        }
        proof {
            lemma_pos(z);
        }
        let (res, slot, hint) = Node::delete_node(nodes, current, seed, Ghost(z));
        proof {
            lemma_sorted_remove(whole.inorder(), lpos(z));
        }
        let top = if hint == NIL {
            NIL
        } else {
            Node::root_of(nodes, hint, res)
        };
        proof {
            lemma_tree_of(nodes@, top, res@);
            assert(whole.inorder().remove(lpos(z)) == res@.inorder());
        }
        (top, Some(slot))
    }
}

} // verus!
