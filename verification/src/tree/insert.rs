//! Insertion: the descent to a leaf, and the walk back up that restores the
//! red-black rules.

use vstd::prelude::*;
use crate::tree::key::Key;
use crate::tree::link::{
    depth, lemma_parent_depth, lemma_path_frame, lemma_shaped_in_range, lemma_tree_of, path_kept,
    path_parent, shaped, tree_at, tree_of, valid,
};
use crate::tree::node::{at, slot_ok, Node};
use crate::tree::shape::{
    join, lemma_path_ok, lemma_plug_idxs, lemma_plug_inorder, lemma_plug_red_black, path_after,
    path_before, path_idxs, path_ok, plug, rot_left, rot_right, single, sorted, Frame, NodeColor,
    Path, Shape, NIL,
};
use crate::tree::zip::{
    kept_outside, lemma_down_left, lemma_down_right, lemma_family, lemma_kept_outside_trans,
    lemma_paint, lemma_path_idxs_in_range, lemma_up, lemma_zip_rotate_left, lemma_zip_rotate_right,
    lemma_zipped_whole, painted, zipped, Zip,
};

verus! {

/// The parts of a sorted sequence around one of its keys are sorted, and
/// the key lies between them.
pub proof fn lemma_sorted_split<T: Key>(l: Seq<T>, m: T, r: Seq<T>)
    requires
        sorted(l.push(m) + r),
    ensures
        sorted(l),
        sorted(r),
        forall|i: int| 0 <= i < l.len() ==> (#[trigger] l[i]).rank() <= m.rank(),
        forall|i: int| 0 <= i < r.len() ==> m.rank() <= (#[trigger] r[i]).rank(),
{
    let s = l.push(m) + r;
    assert forall|i: int, j: int| 0 <= i < j < l.len() implies l[i].rank() <= l[j].rank() by {
        assert(s[i] == l[i] && s[j] == l[j]);
    }
    assert forall|i: int, j: int| 0 <= i < j < r.len() implies r[i].rank() <= r[j].rank() by {
        assert(s[l.len() + 1 + i] == r[i] && s[l.len() + 1 + j] == r[j]);
    }
    assert forall|i: int| 0 <= i < l.len() implies (#[trigger] l[i]).rank() <= m.rank() by {
        assert(s[i] == l[i] && s[l.len() as int] == m);
    }
    assert forall|i: int| 0 <= i < r.len() implies m.rank() <= (#[trigger] r[i]).rank() by {
        assert(s[l.len() + 1 + i] == r[i] && s[l.len() as int] == m);
    }
}

/// A key put between the keys that are at most it and the keys that are at
/// least it leaves a sorted sequence sorted.
pub proof fn lemma_sorted_insert<T: Key>(a: Seq<T>, k: T, b: Seq<T>)
    requires
        sorted(a + b),
        forall|i: int| 0 <= i < a.len() ==> (#[trigger] a[i]).rank() <= k.rank(),
        forall|i: int| 0 <= i < b.len() ==> k.rank() <= (#[trigger] b[i]).rank(),
    ensures
        sorted(a.push(k) + b),
        a.push(k) + b =~= (a + b).insert(a.len() as int, k),
{
    let s = a + b;
    let s2 = a.push(k) + b;
    assert forall|i: int, j: int| 0 <= i < j < s2.len() implies s2[i].rank() <= s2[j].rank() by {
        if j < a.len() {
            assert(s[i] == s2[i] && s[j] == s2[j]);
        } else if i > a.len() {
            assert(s[i - 1] == s2[i] && s[j - 1] == s2[j]);
        } else if i < a.len() && j > a.len() {
            assert(s[i] == s2[i] && s[j - 1] == s2[j]);
        } else if i == a.len() {
            assert(s2[j] == b[j - a.len() - 1]);
        } else {
            assert(s2[i] == a[i]);
        }
    }
}

/// Keys that bound a place in the tree: those left of it are at most `key`,
/// those right of it at least `key`.
pub open spec fn path_bounds<T: Key>(path: Path<T>, key: T) -> bool {
    &&& forall|i: int|
        0 <= i < path_before(path).len() ==> (#[trigger] path_before(path)[i]).rank() <= key.rank()
    &&& forall|i: int|
        0 <= i < path_after(path).len() ==> key.rank() <= (#[trigger] path_after(path)[i]).rank()
}

/// Going down by one node keeps the bounds, if the key is on the right side
/// of that node's key and the subtree left behind is on the other.
pub proof fn lemma_path_bounds_step<T: Key>(path: Path<T>, f: Frame<T>, key: T)
    requires
        path_bounds(path, key),
        f.left_hole ==> key.rank() <= f.key.rank() && forall|i: int|
            0 <= i < f.other.inorder().len() ==> f.key.rank() <= (
            #[trigger] f.other.inorder()[i]).rank(),
        !f.left_hole ==> f.key.rank() <= key.rank() && forall|i: int|
            0 <= i < f.other.inorder().len() ==> (#[trigger] f.other.inorder()[i]).rank()
                <= f.key.rank(),
    ensures
        path_bounds(path.push(f), key),
{
    let p2 = path.push(f);
    assert(p2.drop_last() =~= path);
    assert(p2.last() == f);
    if f.left_hole {
        assert(path_before(p2) =~= path_before(path));
        let s = seq![f.key] + f.other.inorder() + path_after(path);
        assert(path_after(p2) =~= s);
        assert forall|i: int| 0 <= i < s.len() implies key.rank() <= (#[trigger] s[i]).rank() by {
            if i == 0 {
            } else if i < 1 + f.other.inorder().len() {
                assert(s[i] == f.other.inorder()[i - 1]);
            } else {
                assert(s[i] == path_after(path)[i - 1 - f.other.inorder().len()]);
            }
        }
    } else {
        assert(path_after(p2) =~= path_after(path));
        let s = path_before(path) + f.other.inorder().push(f.key);
        assert(path_before(p2) =~= s);
        assert forall|i: int| 0 <= i < s.len() implies (#[trigger] s[i]).rank() <= key.rank() by {
            if i < path_before(path).len() {
                assert(s[i] == path_before(path)[i]);
            } else if i < path_before(path).len() + f.other.inorder().len() {
                assert(s[i] == f.other.inorder()[i - path_before(path).len()]);
            } else {
            }
        }
    }
}

/// What the walk up after an insertion starts from: a red node at a
/// spelled-out place, with a sound subtree under it, on a path that is ready
/// for a black node with that subtree.
pub open spec fn insert_walk<T: Key>(nodes: Seq<Node<T>>, z: Zip<T>) -> bool {
    &&& zipped(nodes, z)
    &&& z.t is Node
    &&& z.t.is_red()
    &&& z.t.balanced()
    &&& z.t.no_red_red()
    &&& path_ok(z.path, z.t.black_height())
}

/// What a rebalancing walk leaves: `after` is the whole tree and red-black,
/// it has the keys of `before` in the same order and lives in the same
/// slots, and no node outside the tree has changed.
pub open spec fn rebalanced<T: Key>(
    n0: Seq<Node<T>>,
    n1: Seq<Node<T>>,
    before: Shape<T>,
    after: Shape<T>,
) -> bool {
    &&& n1.len() == n0.len()
    &&& tree_at(n1, after.root(), after)
    &&& after.red_black()
    &&& after.inorder() == before.inorder()
    &&& after.idxs() == before.idxs()
    &&& forall|j: usize|
        j < n0.len() && !before.idxs().contains(j) ==> #[trigger] at(n1, j) == at(n0, j)
}

/// The subtree under the grandparent after parent and uncle have become
/// black and the grandparent red.
pub open spec fn recolored<T: Key>(pf: Frame<T>, gf: Frame<T>, t: Shape<T>) -> Shape<T> {
    let parent = painted(pf.fill(t), NodeColor::Black);
    let uncle = painted(gf.other, NodeColor::Black);
    painted(Frame { other: uncle, ..gf }.fill(parent), NodeColor::Red)
}

/// With a red parent and a red uncle, recolouring leaves a sound subtree
/// with a red top, one black node higher than the subtree of the new node.
pub proof fn lemma_recolored<T: Key>(pf: Frame<T>, gf: Frame<T>, t: Shape<T>)
    requires
        t is Node,
        t.is_red(),
        t.balanced(),
        t.no_red_red(),
        pf.color == NodeColor::Red,
        gf.color == NodeColor::Black,
        pf.other.balanced(),
        pf.other.no_red_red(),
        pf.other.is_black(),
        pf.other.black_height() == t.black_height(),
        gf.other.balanced(),
        gf.other.no_red_red(),
        gf.other.is_red(),
        gf.other.black_height() == t.black_height(),
    ensures
        recolored(pf, gf, t) is Node,
        recolored(pf, gf, t).is_red(),
        recolored(pf, gf, t).balanced(),
        recolored(pf, gf, t).no_red_red(),
        recolored(pf, gf, t).black_height() == t.black_height() + 1,
{
    reveal_with_fuel(Shape::balanced, 3);
    reveal_with_fuel(Shape::no_red_red, 3);
    reveal_with_fuel(Shape::black_height, 3);
}

/// The subtree under the parent after the rotation that brings an inner
/// grandchild up: the parent now hangs below the new node, on the outer
/// side, and both are red.
pub open spec fn straightened<T: Key>(pf: Frame<T>, t: Shape<T>) -> Shape<T> {
    if pf.left_hole {
        rot_right(pf.fill(t))
    } else {
        rot_left(pf.fill(t))
    }
}

/// After the rotation at the parent, what was the parent is a red node with
/// a sound subtree of the same black height, and the subtree that stays
/// beside it is sound, black and of that height too.
pub proof fn lemma_straightened<T: Key>(pf: Frame<T>, t: Shape<T>)
    requires
        t is Node,
        t.is_red(),
        t.balanced(),
        t.no_red_red(),
        pf.color == NodeColor::Red,
        pf.other.balanced(),
        pf.other.no_red_red(),
        pf.other.is_black(),
        pf.other.black_height() == t.black_height(),
    ensures
        ({
            let r = straightened(pf, t);
            let down = if pf.left_hole {
                r.rt()
            } else {
                r.lt()
            };
            let keep = if pf.left_hole {
                r.lt()
            } else {
                r.rt()
            };
            &&& r is Node
            &&& r.is_red()
            &&& r.root() == t.root()
            &&& down is Node
            &&& down.is_red()
            &&& down.root() == pf.idx
            &&& down.balanced()
            &&& down.no_red_red()
            &&& down.black_height() == t.black_height()
            &&& keep.is_black()
            &&& keep.balanced()
            &&& keep.no_red_red()
            &&& keep.black_height() == t.black_height()
        }),
{
    reveal_with_fuel(Shape::balanced, 3);
    reveal_with_fuel(Shape::no_red_red, 3);
    reveal_with_fuel(Shape::black_height, 3);
}

/// The subtree under the grandparent after the rotation that brings the
/// parent to the top and the recolouring of the two: a black top over the
/// new node on one side and the red grandparent on the other.
pub open spec fn lifted<T: Key>(mf: Frame<T>, gf: Frame<T>, t: Shape<T>) -> Shape<T> {
    if gf.left_hole {
        join(t, mf.idx, mf.key, NodeColor::Black, join(mf.other, gf.idx, gf.key, NodeColor::Red, gf.other))
    } else {
        join(join(gf.other, gf.idx, gf.key, NodeColor::Red, mf.other), mf.idx, mf.key, NodeColor::Black, t)
    }
}

/// With a red parent on the outer side and a black uncle, lifting leaves a
/// sound subtree with a black top, one black node higher than the subtree
/// of the new node.
pub proof fn lemma_lifted<T: Key>(mf: Frame<T>, gf: Frame<T>, t: Shape<T>)
    requires
        t is Node,
        t.is_red(),
        t.balanced(),
        t.no_red_red(),
        mf.color == NodeColor::Red,
        gf.color == NodeColor::Black,
        mf.left_hole == gf.left_hole,
        mf.other.balanced(),
        mf.other.no_red_red(),
        mf.other.is_black(),
        mf.other.black_height() == t.black_height(),
        gf.other.balanced(),
        gf.other.no_red_red(),
        gf.other.is_black(),
        gf.other.black_height() == t.black_height(),
    ensures
        lifted(mf, gf, t) is Node,
        lifted(mf, gf, t).is_black(),
        lifted(mf, gf, t).balanced(),
        lifted(mf, gf, t).no_red_red(),
        lifted(mf, gf, t).black_height() == t.black_height() + 1,
{
    reveal_with_fuel(Shape::balanced, 3);
    reveal_with_fuel(Shape::no_red_red, 3);
    reveal_with_fuel(Shape::black_height, 3);
}

/// The place at which a new key goes into the tree: down from the place
/// `z`, to the left where the key comes before a node's key and to the
/// right where it does not, until the place is empty.
pub open spec fn leaf_place<T: Key>(z: Zip<T>, key: T) -> Zip<T>
    decreases z.t.size(),
{
    match z.t {
        Shape::Leaf => z,
        Shape::Node { key: k, .. } => if key.rank() < k.rank() {
            leaf_place(z.down_left(), key)
        } else {
            leaf_place(z.down_right(), key)
        },
    }
}

/// The place of the outer grandchild after the rotation at the parent that
/// the fourth case begins with, where the node at `z` is an inner
/// grandchild; the place `z` itself where it is an outer one.
pub open spec fn outer_place<T: Key>(z: Zip<T>) -> Zip<T> {
    let pf = z.path.last();
    let gf = z.path[z.path.len() - 2];
    if !pf.left_hole && gf.left_hole {
        z.up().with(rot_left(z.up().t)).down_left()
    } else if pf.left_hole && !gf.left_hole {
        z.up().with(rot_right(z.up().t)).down_right()
    } else {
        z
    }
}

/// The tree after the walk up from the red node at the place `z`:
/// at the root the node becomes black; under a black parent nothing changes;
/// with a red parent and a red uncle the three are recoloured and the walk
/// goes on from the grandparent; with a red parent and a black uncle the
/// node is made an outer grandchild and the parent is lifted over the
/// grandparent.
pub open spec fn walked_up<T: Key>(z: Zip<T>) -> Shape<T>
    decreases z.path.len(),
{
    if z.path.len() == 0 {
        painted(z.t, NodeColor::Black)
    } else if z.path.last().color == NodeColor::Black || z.path.len() < 2 {
        z.whole()
    } else {
        let pf = z.path.last();
        let gf = z.path[z.path.len() - 2];
        let rest = z.path.drop_last().drop_last();
        if gf.other.is_red() {
            walked_up(Zip { path: rest, t: recolored(pf, gf, z.t) })
        } else {
            let zc = outer_place(z);
            plug(rest, lifted(zc.path.last(), gf, zc.t))
        }
    }
}

/// The tree `t` with the key `item` in it, in the slot `slot`: the key goes
/// in as a red leaf, and the walk up from it restores the red-black rules.
pub open spec fn inserted<T: Key>(t: Shape<T>, slot: usize, item: T) -> Shape<T> {
    walked_up(
        leaf_place(Zip { path: Seq::empty(), t }, item).with(single(slot, item, NodeColor::Red)),
    )
}

impl<T: Key> Node<T> {
    /// Restores the red-black rules after the red node `new` has been put
    /// into the tree, by the case that its neighbours are in.
    pub(crate) fn balance_insert(
        nodes: &mut Vec<Node<T>>,
        new: usize,
        Ghost(z): Ghost<Zip<T>>,
    ) -> (res: Ghost<Shape<T>>)
        requires
            insert_walk(old(nodes)@, z),
            z.hole() == new,
        ensures
            rebalanced(old(nodes)@, final(nodes)@, z.whole(), res@),
            res@ == walked_up(z),
        decreases z.path.len(), 1nat,
    {
        proof {
            lemma_shaped_in_range(nodes@, new, z.t);
            if z.path.len() > 0 {
                lemma_family(nodes@, z);
                if z.path.last().color == NodeColor::Red {
                    lemma_up(nodes@, z);
                    lemma_family(nodes@, z.up());
                }
            }
        }
        let p = Node::parent(nodes, new);
        if p == NIL {
            Self::balance_1(nodes, new, Ghost(z))
        } else if nodes[p].color == NodeColor::Black {
            Self::balance_2(nodes, new, Ghost(z))
        } else {
            let u = Node::uncle(nodes, new);
            if u != NIL && nodes[u].color == NodeColor::Red {
                Self::balance_3(nodes, new, Ghost(z))
            } else {
                Self::balance_4(nodes, new, Ghost(z))
            }
        }
    }

    /// The node is the root: it becomes black.
    pub(crate) fn balance_1(
        nodes: &mut Vec<Node<T>>,
        new: usize,
        Ghost(z): Ghost<Zip<T>>,
    ) -> (res: Ghost<Shape<T>>)
        requires
            insert_walk(old(nodes)@, z),
            z.hole() == new,
            z.path.len() == 0,
        ensures
            rebalanced(old(nodes)@, final(nodes)@, z.whole(), res@),
            res@ == walked_up(z),
    {
        let ghost n0 = nodes@;
        proof {
            lemma_shaped_in_range(n0, new, z.t);
        }
        nodes[new].color = NodeColor::Black;
        proof {
            lemma_paint(n0, nodes@, z, NodeColor::Black);
            lemma_zipped_whole(nodes@, z.painted(NodeColor::Black));
            assert(z.t.idxs().contains(new));
        }
        Ghost(z.painted(NodeColor::Black).whole())
    }

    /// The parent is black: a red child breaks no rule.
    pub(crate) fn balance_2(
        nodes: &mut Vec<Node<T>>,
        new: usize,
        Ghost(z): Ghost<Zip<T>>,
    ) -> (res: Ghost<Shape<T>>)
        requires
            insert_walk(old(nodes)@, z),
            z.hole() == new,
            z.path.len() > 0,
            z.path.last().color == NodeColor::Black,
        ensures
            rebalanced(old(nodes)@, final(nodes)@, z.whole(), res@),
            res@ == walked_up(z),
    {
        proof {
            lemma_zipped_whole(nodes@, z);
            lemma_plug_red_black(z.path, z.t);
        }
        Ghost(z.whole())
    }

    /// Parent and uncle are red: both become black, the grandparent red, and
    /// the walk goes on from the grandparent.
    pub(crate) fn balance_3(
        nodes: &mut Vec<Node<T>>,
        new: usize,
        Ghost(z): Ghost<Zip<T>>,
    ) -> (res: Ghost<Shape<T>>)
        requires
            insert_walk(old(nodes)@, z),
            z.hole() == new,
            z.path.len() > 0,
            z.path.last().color == NodeColor::Red,
            z.path[z.path.len() - 2].other.is_red(),
        ensures
            rebalanced(old(nodes)@, final(nodes)@, z.whole(), res@),
            res@ == walked_up(z),
        decreases z.path.len(), 0nat,
    {
        let ghost n0 = nodes@;
        let ghost z1 = z.up();
        let ghost z3 = z1.painted(NodeColor::Black).up();
        let ghost z4 = if z1.path.last().left_hole {
            z3.down_right()
        } else {
            z3.down_left()
        };
        let ghost z6 = z4.painted(NodeColor::Black).up();
        let ghost z7 = z6.painted(NodeColor::Red);
        proof {
            lemma_family(n0, z);
            lemma_up(n0, z);
            lemma_family(n0, z1);
            lemma_up(n0, z1);
        }
        let p = Node::parent(nodes, new);
        let u = Node::uncle(nodes, new);
        let g = Node::grandparent(nodes, new);
        nodes[p].color = NodeColor::Black;
        let ghost n1 = nodes@;
        proof {
            lemma_paint(n0, n1, z1, NodeColor::Black);
            lemma_up(n1, z1.painted(NodeColor::Black));
            if z1.path.last().left_hole {
                lemma_down_right(n1, z3);
            } else {
                lemma_down_left(n1, z3);
            }
            lemma_shaped_in_range(n1, z4.hole(), z4.t);
        }
        nodes[u].color = NodeColor::Black;
        let ghost n2 = nodes@;
        proof {
            lemma_paint(n1, n2, z4, NodeColor::Black);
            lemma_up(n2, z4.painted(NodeColor::Black));
        }
        nodes[g].color = NodeColor::Red;
        let ghost n3 = nodes@;
        proof {
            lemma_paint(n2, n3, z6, NodeColor::Red);
            let pf = z.path.last();
            let gf = z1.path.last();
            assert(path_ok(z.path.drop_last(), z.t.black_height()));
            assert(z7.path =~= z.path.drop_last().drop_last());
            assert(z7.t == recolored(pf, gf, z.t));
            assert(z7 == Zip { path: z.path.drop_last().drop_last(), t: recolored(pf, gf, z.t) });
            assert(gf == z.path[z.path.len() - 2]);
            lemma_recolored(pf, gf, z.t);
            assert(path_ok(z7.path, z7.t.black_height()));
            assert(insert_walk(n3, z7));
        }
        let res = Self::balance_insert(nodes, g, Ghost(z7));
        proof {
            lemma_plug_idxs(z.path, z.t);
            assert(z.whole().idxs().contains(p));
            assert(z.whole().idxs().contains(u));
            assert(z.whole().idxs().contains(g));
        }
        res
    }

    /// The parent is red and the uncle black: one rotation at the parent,
    /// where the node is an inner grandchild, makes it an outer one; then a
    /// rotation at the grandparent brings the parent to the top, which becomes
    /// black, with the grandparent red below it.
    pub(crate) fn balance_4(
        nodes: &mut Vec<Node<T>>,
        new: usize,
        Ghost(z): Ghost<Zip<T>>,
    ) -> (res: Ghost<Shape<T>>)
        requires
            insert_walk(old(nodes)@, z),
            z.hole() == new,
            z.path.len() > 0,
            z.path.last().color == NodeColor::Red,
            z.path[z.path.len() - 2].other.is_black(),
        ensures
            rebalanced(old(nodes)@, final(nodes)@, z.whole(), res@),
            res@ == walked_up(z),
    {
        let ghost n0 = nodes@;
        let ghost z1 = z.up();
        let ghost mut zc = z;
        let mut new = new;
        proof {
            lemma_family(n0, z);
            lemma_up(n0, z);
            lemma_family(n0, z1);
            assert(path_ok(z.path.drop_last(), z.t.black_height()));
        }
        let p = Node::parent(nodes, new);
        let g = Node::grandparent(nodes, new);
        if new == Node::right(nodes, p) && p == Node::left(nodes, g) {
            proof {
                lemma_zip_rotate_left(n0, z1);
            }
            Node::rotate_left(nodes, p);
            proof {
                let z2 = z1.with(rot_left(z1.t));
                lemma_down_left(nodes@, z2);
                lemma_straightened(z.path.last(), z.t);
                zc = z2.down_left();
                assert(zc.path.drop_last() =~= z1.path);
                assert(kept_outside(n0, nodes@, z.whole().idxs()));
            }
            new = nodes[new].left;
        } else if new == Node::left(nodes, p) && p == Node::right(nodes, g) {
            proof {
                lemma_zip_rotate_right(n0, z1);
            }
            Node::rotate_right(nodes, p);
            proof {
                let z2 = z1.with(rot_right(z1.t));
                lemma_down_right(nodes@, z2);
                lemma_straightened(z.path.last(), z.t);
                zc = z2.down_right();
                assert(zc.path.drop_last() =~= z1.path);
                assert(kept_outside(n0, nodes@, z.whole().idxs()));
            }
            new = nodes[new].right;
        }
        let ghost n1 = nodes@;
        let ghost z3 = zc.up();
        let ghost z4 = z3.up();
        let ghost mf = zc.path.last();
        let ghost gf = z3.path.last();
        let ghost mut last = z4;
        proof {
            assert(kept_outside(n0, n1, z.whole().idxs()));
            assert(zc.whole().idxs() == z.whole().idxs());
            assert(zc.whole().inorder() == z.whole().inorder());
            assert(insert_walk(n1, zc));
            lemma_family(n1, zc);
            lemma_up(n1, zc);
            lemma_family(n1, z3);
            lemma_up(n1, z3);
            assert(path_ok(zc.path.drop_last(), zc.t.black_height()));
            assert(mf.left_hole == gf.left_hole);
            lemma_lifted(mf, gf, zc.t);
        }
        let p = Node::parent(nodes, new);
        let g = Node::grandparent(nodes, new);
        if new == Node::left(nodes, p) {
            proof {
                lemma_zip_rotate_right(n1, z4);
            }
            Node::rotate_right(nodes, g);
            let ghost n2 = nodes@;
            let ghost z5 = z4.with(rot_right(z4.t));
            let ghost z6 = z5.painted(NodeColor::Black);
            let ghost z7 = z6.down_right();
            let ghost z8 = z7.painted(NodeColor::Red);
            proof {
                lemma_shaped_in_range(n2, z5.hole(), z5.t);
            }
            nodes[p].color = NodeColor::Black;
            let ghost n3 = nodes@;
            proof {
                lemma_kept_outside_trans(n0, n1, n2, z.whole().idxs());
                lemma_paint(n2, n3, z5, NodeColor::Black);
                lemma_kept_outside_trans(n0, n2, n3, z.whole().idxs());
                lemma_down_right(n3, z6);
                lemma_shaped_in_range(n3, z7.hole(), z7.t);
            }
            nodes[g].color = NodeColor::Red;
            proof {
                lemma_paint(n3, nodes@, z7, NodeColor::Red);
                lemma_kept_outside_trans(n0, n3, nodes@, z.whole().idxs());
                lemma_up(nodes@, z8);
                assert(z8.up().path =~= z4.path);
                assert(z8.up().t == lifted(mf, gf, zc.t));
                last = z8.up();
            }
        } else {
            proof {
                lemma_zip_rotate_left(n1, z4);
            }
            Node::rotate_left(nodes, g);
            let ghost n2 = nodes@;
            let ghost z5 = z4.with(rot_left(z4.t));
            let ghost z6 = z5.painted(NodeColor::Black);
            let ghost z7 = z6.down_left();
            let ghost z8 = z7.painted(NodeColor::Red);
            proof {
                lemma_shaped_in_range(n2, z5.hole(), z5.t);
            }
            nodes[p].color = NodeColor::Black;
            let ghost n3 = nodes@;
            proof {
                lemma_kept_outside_trans(n0, n1, n2, z.whole().idxs());
                lemma_paint(n2, n3, z5, NodeColor::Black);
                lemma_kept_outside_trans(n0, n2, n3, z.whole().idxs());
                lemma_down_left(n3, z6);
                lemma_shaped_in_range(n3, z7.hole(), z7.t);
            }
            nodes[g].color = NodeColor::Red;
            proof {
                lemma_paint(n3, nodes@, z7, NodeColor::Red);
                lemma_kept_outside_trans(n0, n3, nodes@, z.whole().idxs());
                lemma_up(nodes@, z8);
                assert(z8.up().path =~= z4.path);
                assert(z8.up().t == lifted(mf, gf, zc.t));
                last = z8.up();
            }
        }
        proof {
            assert(kept_outside(n0, nodes@, z.whole().idxs()));
            lemma_zipped_whole(nodes@, last);
            assert(last.path =~= z.path.drop_last().drop_last());
            assert(zc == outer_place(z));
            assert(gf == z.path[z.path.len() - 2]);
            lemma_plug_red_black(last.path, last.t);
            lemma_plug_idxs(z.path, z.t);
        }
        Ghost(last.whole())
    }

    /// Puts the node in slot `new` into the tree under `root`: as a leaf, to
    /// the left of every larger key and to the right of every other, and red;
    /// then the tree is rebalanced. Returns the slot of the root, which may be
    /// another than before. For an empty tree `root` is the null link, and the
    /// node becomes the root.
    pub fn insert(nodes: &mut Vec<Node<T>>, root: usize, new: usize) -> (r: usize)
        requires
            valid(old(nodes)@, root),
            slot_ok(old(nodes)@, new),
            !tree_of(old(nodes)@, root).idxs().contains(new),
            at(old(nodes)@, new).addr == new,
        ensures
            valid(final(nodes)@, r),
            r != NIL,
            final(nodes)@.len() == old(nodes)@.len(),
            exists|pos: int|
                0 <= pos <= tree_of(old(nodes)@, root).inorder().len() && #[trigger] tree_of(
                    old(nodes)@,
                    root,
                ).inorder().insert(pos, at(old(nodes)@, new).item) == tree_of(
                    final(nodes)@,
                    r,
                ).inorder(),
            tree_of(final(nodes)@, r).idxs() == tree_of(old(nodes)@, root).idxs().insert(new),
            tree_of(final(nodes)@, r) == inserted(
                tree_of(old(nodes)@, root),
                new,
                at(old(nodes)@, new).item,
            ),
            forall|j: usize|
                j < old(nodes)@.len() && j != new && !tree_of(old(nodes)@, root).idxs().contains(j)
                    ==> #[trigger] at(final(nodes)@, j) == at(old(nodes)@, j),
    {
        let ghost n0 = nodes@;
        let ghost whole = choose|t: Shape<T>| #[trigger]
            tree_at(nodes@, root, t) && t.red_black() && sorted(t.inorder());
        proof {
            lemma_tree_of(n0, root, whole);
        }
        let z = Node::insert_iter(nodes, root, new, Ghost(whole));
        let ghost n1 = nodes@;
        proof {
            lemma_path_ok(z@.path, Shape::Leaf);
            reveal_with_fuel(Shape::balanced, 2);
            reveal_with_fuel(Shape::no_red_red, 2);
            reveal_with_fuel(Shape::black_height, 2);
        }
        let res = Node::balance_insert(nodes, new, z);
        let mut top = new;
        proof {
            assert(res@.idxs().contains(new));
            lemma_shaped_in_range(nodes@, res@.root(), res@);
        }
        while Node::parent(nodes, top) != NIL
            invariant
                tree_at(nodes@, res@.root(), res@),
                res@.idxs().contains(top),
                slot_ok(nodes@, top),
            decreases depth(res@, top),
        {
            proof {
                lemma_shaped_in_range(nodes@, res@.root(), res@);
                lemma_parent_depth(nodes@, res@.root(), res@, top);
            }
            top = Node::parent(nodes, top);
            proof {
                assert(res@.idxs().contains(top));
            }
        }
        proof {
            lemma_shaped_in_range(nodes@, res@.root(), res@);
            if top != res@.root() {
                lemma_parent_depth(nodes@, res@.root(), res@, top);
            }
            lemma_tree_of(nodes@, top, res@);
            let pos = path_before(z@.path).len() as int;
            assert(whole.inorder().insert(pos, at(n0, new).item) == res@.inorder());
            assert forall|j: usize|
                j < n0.len() && j != new && !whole.idxs().contains(j) implies #[trigger] at(
                nodes@,
                j,
            ) == at(n0, j) by {
                assert(at(n1, j) == at(n0, j));
            }
        }
        top
    }

    /// Finds the leaf position for the key in slot `new`, going left where
    /// the key is smaller than a node's and right where it is not, and links
    /// the slot there as a red node without children.
    pub(crate) fn insert_iter(
        nodes: &mut Vec<Node<T>>,
        root: usize,
        new: usize,
        Ghost(whole): Ghost<Shape<T>>,
    ) -> (z: Ghost<Zip<T>>)
        requires
            tree_at(old(nodes)@, root, whole),
            sorted(whole.inorder()),
            slot_ok(old(nodes)@, new),
            !whole.idxs().contains(new),
            at(old(nodes)@, new).addr == new,
        ensures
            final(nodes)@.len() == old(nodes)@.len(),
            zipped(final(nodes)@, z@),
            z@.t == single(new, at(old(nodes)@, new).item, NodeColor::Red),
            z@ == leaf_place(Zip { path: Seq::empty(), t: whole }, at(old(nodes)@, new).item).with(
                z@.t,
            ),
            plug(z@.path, Shape::Leaf) == whole,
            sorted(z@.whole().inorder()),
            0 <= path_before(z@.path).len() <= whole.inorder().len(),
            z@.whole().inorder() == whole.inorder().insert(
                path_before(z@.path).len() as int,
                at(old(nodes)@, new).item,
            ),
            z@.whole().idxs() == whole.idxs().insert(new),
            forall|j: usize|
                j < old(nodes)@.len() && j != new && !whole.idxs().contains(j) ==> #[trigger] at(
                    final(nodes)@,
                    j,
                ) == at(old(nodes)@, j),
    {
        let ghost n0 = nodes@;
        let key = nodes[new].item;
        let mut current = root;
        let mut parent = NIL;
        let mut go_left = false;
        let ghost mut z = Zip { path: Seq::empty(), t: whole };
        proof {
            lemma_shaped_in_range(n0, root, whole);
        }
        while current != NIL
            invariant
                nodes@ == n0,
                zipped(n0, z),
                z.hole() == current,
                z.whole() == whole,
                sorted(z.t.inorder()),
                path_bounds(z.path, key),
                key == at(n0, new).item,
                leaf_place(z, key) == leaf_place(Zip { path: Seq::empty(), t: whole }, key),
                parent == path_parent(z.path),
                z.path.len() > 0 ==> z.path.last().left_hole == go_left,
            decreases z.t.size(),
        {
            let ghost l = z.t.lt();
            let ghost r = z.t.rt();
            proof {
                lemma_sorted_split(l.inorder(), nodes[current as int].item, r.inorder());
                lemma_shaped_in_range(n0, current, z.t);
            }
            parent = current;
            if key.less(&nodes[current].item) {
                proof {
                    lemma_down_left(n0, z);
                    let d = z.down_left();
                    lemma_path_bounds_step(z.path, d.path.last(), key);
                    z = d;
                }
                go_left = true;
                current = nodes[current].left;
            } else {
                proof {
                    lemma_down_right(n0, z);
                    let d = z.down_right();
                    lemma_path_bounds_step(z.path, d.path.last(), key);
                    z = d;
                }
                go_left = false;
                current = nodes[current].right;
            }
        }
        if parent != NIL {
            if go_left {
                nodes[parent].left = new;
            } else {
                nodes[parent].right = new;
            }
        }
        nodes[new].parent = parent;
        nodes[new].left = NIL;
        nodes[new].right = NIL;
        nodes[new].color = NodeColor::Red;
        let ghost leaf = single(new, key, NodeColor::Red);
        proof {
            let n1 = nodes@;
            let z1 = z.with(leaf);
            lemma_plug_idxs(z.path, z.t);
            lemma_plug_idxs(z.path, leaf);
            lemma_plug_inorder(z.path, z.t);
            lemma_plug_inorder(z.path, leaf);
            lemma_path_idxs_in_range(n0, z.path, NIL);
            assert(leaf.idxs() =~= Set::empty().insert(new));
            assert(z.t.inorder() =~= Seq::empty());
            assert(leaf.inorder() =~= seq![key]);
            assert(shaped(n1, NIL, Shape::Leaf));
            assert(shaped(n1, new, leaf));
            if z.path.len() > 0 {
                let f = z.path.last();
                assert(path_idxs(z.path).contains(f.idx));
                assert(f.idxs().contains(f.idx));
            }
            assert(path_kept(n0, n1, z.path, new));
            lemma_path_frame(n0, n1, z.path, NIL, new);
            assert(zipped(n1, z1));
            lemma_sorted_insert(path_before(z.path), key, path_after(z.path));
            assert(path_before(z.path) + seq![key] =~= path_before(z.path).push(key));
            assert(whole.inorder() =~= path_before(z.path) + path_after(z.path));
            assert(z1.whole().inorder() =~= path_before(z.path).push(key) + path_after(z.path));
            assert(z1.whole().idxs() =~= whole.idxs().insert(new));
            z = z1;
        }
        Ghost(z)
    }
}

} // verus!
