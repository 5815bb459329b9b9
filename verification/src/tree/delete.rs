//! Removal: the search for a key, the unlinking of its node, and the walk
//! back up that restores the red-black rules.

use vstd::prelude::*;
use crate::tree::key::Key;
use crate::tree::insert::rebalanced;
use crate::tree::link::{lemma_shaped_in_range, path_parent};
use crate::tree::node::{at, Node};
use crate::tree::shape::{
    join, lemma_plug_red_black, path_ok, plug, rot_left, rot_right, Frame, NodeColor, Path, Shape,
    NIL,
};
use crate::tree::zip::{
    kept_outside, lemma_down_left, lemma_down_right, lemma_kept_outside_trans, lemma_kin,
    lemma_paint, lemma_up, lemma_zip_rotate_left, lemma_zip_rotate_right, lemma_zipped_whole,
    painted, zipped, Zip,
};

verus! {

/// What the walk up after a removal starts from: a spelled-out place with a
/// sound, black-topped subtree that is one black node short of what the path
/// is ready for.
pub open spec fn delete_walk<T: Key>(nodes: Seq<Node<T>>, z: Zip<T>) -> bool {
    &&& zipped(nodes, z)
    &&& z.t.is_black()
    &&& z.t.balanced()
    &&& z.t.no_red_red()
    &&& path_ok(z.path, z.t.black_height() + 1)
}

/// A bound on the steps that the walk can still take from a place.
pub open spec fn walk_weight<T: Key>(z: Zip<T>) -> nat {
    z.path.len() + if z.path.len() > 0 && z.path.last().color == NodeColor::Black {
        2nat
    } else {
        0nat
    }
}

/// The child of the sibling on the side of the place.
pub open spec fn near<T: Key>(f: Frame<T>) -> Shape<T> {
    if f.left_hole {
        f.other.lt()
    } else {
        f.other.rt()
    }
}

/// The child of the sibling on the side away from the place.
pub open spec fn far<T: Key>(f: Frame<T>) -> Shape<T> {
    if f.left_hole {
        f.other.rt()
    } else {
        f.other.lt()
    }
}

/// Where a subtree is one black node short, the subtree beside it is not
/// empty.
pub proof fn lemma_short_side<T: Key>(path: Path<T>, h: nat)
    requires
        path.len() > 0,
        path_ok(path, h + 1),
    ensures
        path.last().other is Node,
        path.last().other.balanced(),
        path.last().other.no_red_red(),
        path.last().other.black_height() == h + 1,
        path.last().other.is_red() ==> path.last().color == NodeColor::Black,
        near(path.last()).balanced(),
        near(path.last()).no_red_red(),
        far(path.last()).balanced(),
        far(path.last()).no_red_red(),
        path_ok(path.drop_last(), h + 1 + path.last().weight()),
        path.len() > 1 && path[path.len() - 2].color == NodeColor::Red ==> path.last().color
            == NodeColor::Black,
        path.len() == 1 ==> path.last().color == NodeColor::Black,
{
    if path.len() > 1 {
        assert(path.drop_last().last() == path[path.len() - 2]);
    }
}

/// The path to a place after its red sibling has become black, its parent
/// red, and the parent has been turned towards the place: the sibling now
/// stands above the parent.
pub open spec fn turned_path<T: Key>(path: Path<T>) -> Path<T> {
    let f = path.last();
    path.drop_last().push(
        Frame {
            idx: f.other.root(),
            key: f.other->key,
            color: NodeColor::Black,
            left_hole: f.left_hole,
            other: far(f),
        },
    ).push(
        Frame { idx: f.idx, key: f.key, color: NodeColor::Red, left_hole: f.left_hole, other: near(f) },
    )
}

/// After the turn the place is as short as before, and its new sibling is
/// black.
pub proof fn lemma_turned_path<T: Key>(path: Path<T>, h: nat)
    requires
        path.len() > 0,
        path_ok(path, h + 1),
        path.last().other.is_red(),
    ensures
        path_ok(turned_path(path), h + 1),
        turned_path(path).len() == path.len() + 1,
        turned_path(path).last().color == NodeColor::Red,
        turned_path(path).last().other.is_black(),
        turned_path(path).last().idx == path.last().idx,
        turned_path(path).last().left_hole == path.last().left_hole,
{
    let f = path.last();
    let rest = path.drop_last();
    let sf = Frame {
        idx: f.other.root(),
        key: f.other->key,
        color: NodeColor::Black,
        left_hole: f.left_hole,
        other: far(f),
    };
    let pf = Frame {
        idx: f.idx,
        key: f.key,
        color: NodeColor::Red,
        left_hole: f.left_hole,
        other: near(f),
    };
    let mid = rest.push(sf);
    let t = turned_path(path);
    lemma_short_side(path, h);
    assert(mid.drop_last() =~= rest);
    assert(mid.last() == sf);
    assert(t.drop_last() =~= mid);
    assert(t.last() == pf);
    assert(path_ok(rest, h + 2));
    assert(path_ok(mid, h + 1));
}

/// The subtree under the parent after the sibling has become red.
pub open spec fn dimmed<T: Key>(f: Frame<T>, t: Shape<T>) -> Shape<T> {
    Frame { other: painted(f.other, NodeColor::Red), ..f }.fill(t)
}

/// With a black sibling that has black children, making the sibling red
/// leaves the subtree under the parent sound and as high as the short side
/// with the parent on top.
pub proof fn lemma_dimmed<T: Key>(f: Frame<T>, t: Shape<T>)
    requires
        t.is_black(),
        t.balanced(),
        t.no_red_red(),
        f.other is Node,
        f.other.is_black(),
        f.other.balanced(),
        f.other.no_red_red(),
        f.other.black_height() == t.black_height() + 1,
        near(f).is_black(),
        far(f).is_black(),
    ensures
        dimmed(f, t) is Node,
        dimmed(f, t).root() == f.idx,
        dimmed(f, t).balanced(),
        f.color == NodeColor::Black ==> dimmed(f, t).no_red_red(),
        dimmed(f, t).black_height() == t.black_height() + f.weight(),
        dimmed(f, t).is_black() <==> f.color == NodeColor::Black,
        painted(dimmed(f, t), NodeColor::Black).balanced(),
        painted(dimmed(f, t), NodeColor::Black).no_red_red(),
        painted(dimmed(f, t), NodeColor::Black).black_height() == t.black_height() + 1,
{
    reveal_with_fuel(Shape::balanced, 3);
    reveal_with_fuel(Shape::no_red_red, 3);
    reveal_with_fuel(Shape::black_height, 3);
}

/// The sibling after its red near child has become black, it has become
/// red itself, and it has been turned away from the place.
pub open spec fn bent<T: Key>(f: Frame<T>) -> Shape<T> {
    let s = f.other;
    if f.left_hole {
        rot_right(join(painted(s.lt(), NodeColor::Black), s.root(), s->key, NodeColor::Red, s.rt()))
    } else {
        rot_left(join(s.lt(), s.root(), s->key, NodeColor::Red, painted(s.rt(), NodeColor::Black)))
    }
}

/// With a black sibling whose near child is red and whose far child is
/// black, bending gives a sound black sibling of the same height whose far
/// child is red.
pub proof fn lemma_bent<T: Key>(f: Frame<T>)
    requires
        f.other is Node,
        f.other.is_black(),
        f.other.balanced(),
        f.other.no_red_red(),
        near(f).is_red(),
        far(f).is_black(),
    ensures
        bent(f) is Node,
        bent(f).is_black(),
        bent(f).balanced(),
        bent(f).no_red_red(),
        bent(f).black_height() == f.other.black_height(),
        bent(f).root() == near(f).root(),
        far(Frame { other: bent(f), ..f }).is_red(),
{
    reveal_with_fuel(Shape::balanced, 3);
    reveal_with_fuel(Shape::no_red_red, 3);
    reveal_with_fuel(Shape::black_height, 3);
}

/// The subtree under the parent after the last step of the walk: the
/// sibling takes the parent's colour, parent and far child become black, and
/// the parent is turned towards the place.
pub open spec fn mended<T: Key>(f: Frame<T>, t: Shape<T>) -> Shape<T> {
    let s = f.other;
    if f.left_hole {
        rot_left(
            join(
                t,
                f.idx,
                f.key,
                NodeColor::Black,
                join(s.lt(), s.root(), s->key, f.color, painted(s.rt(), NodeColor::Black)),
            ),
        )
    } else {
        rot_right(
            join(
                join(painted(s.lt(), NodeColor::Black), s.root(), s->key, f.color, s.rt()),
                f.idx,
                f.key,
                NodeColor::Black,
                t,
            ),
        )
    }
}

/// With a black sibling whose far child is red, mending leaves a sound
/// subtree that has the parent's old colour on top and is as high as the
/// path expects.
pub proof fn lemma_mended<T: Key>(f: Frame<T>, t: Shape<T>)
    requires
        t.is_black(),
        t.balanced(),
        t.no_red_red(),
        f.other is Node,
        f.other.is_black(),
        f.other.balanced(),
        f.other.no_red_red(),
        f.other.black_height() == t.black_height() + 1,
        far(f).is_red(),
    ensures
        mended(f, t) is Node,
        mended(f, t).is_black() <==> f.color == NodeColor::Black,
        mended(f, t).balanced(),
        mended(f, t).no_red_red(),
        mended(f, t).black_height() == t.black_height() + 1 + f.weight(),
{
    reveal_with_fuel(Shape::balanced, 3);
    reveal_with_fuel(Shape::no_red_red, 3);
    reveal_with_fuel(Shape::black_height, 3);
}

/// A walk that goes on from a later state of the arena and another place
/// in the same tree ends as a walk from the first state.
pub proof fn lemma_rebalanced_after<T: Key>(
    n0: Seq<Node<T>>,
    n1: Seq<Node<T>>,
    n2: Seq<Node<T>>,
    w0: Shape<T>,
    w1: Shape<T>,
    res: Shape<T>,
)
    requires
        kept_outside(n0, n1, w0.idxs()),
        w1.inorder() == w0.inorder(),
        w1.idxs() == w0.idxs(),
        rebalanced(n1, n2, w1, res),
    ensures
        rebalanced(n0, n2, w0, res),
{
    assert forall|j: usize| j < n0.len() && !w0.idxs().contains(j) implies #[trigger] at(n2, j)
        == at(n0, j) by {
        assert(at(n1, j) == at(n0, j));
    }
}

/// The sibling and both of its children are black.
pub open spec fn dark<T: Key>(f: Frame<T>) -> bool {
    f.other.is_black() && near(f).is_black() && far(f).is_black()
}

/// The frame of the parent after the fifth case: with the sibling bent
/// where its near child is red and its far child black, else as it is.
pub open spec fn bent_frame<T: Key>(f: Frame<T>) -> Frame<T> {
    if f.other.is_black() && near(f).is_red() && far(f).is_black() {
        Frame { other: bent(f), ..f }
    } else {
        f
    }
}

/// The tree after the fifth and sixth case at the place `z`.
pub open spec fn turned_in<T: Key>(z: Zip<T>) -> Shape<T> {
    plug(z.path.drop_last(), mended(bent_frame(z.path.last()), z.t))
}

/// The tree after the fourth case and those behind it at the place `z`,
/// whose sibling is black: under a red parent with a dark sibling the two
/// change colours; else the fifth and sixth case go on.
pub open spec fn settled<T: Key>(z: Zip<T>) -> Shape<T> {
    let f = z.path.last();
    if f.color == NodeColor::Red && dark(f) {
        plug(z.path.drop_last(), painted(dimmed(f, z.t), NodeColor::Black))
    } else {
        turned_in(z)
    }
}

/// The tree after the third case and those behind it at the place `z`,
/// whose sibling is black: under a black parent with a dark sibling the
/// sibling becomes red and the walk goes on from the parent; else the
/// fourth case goes on.
pub open spec fn passed_up<T: Key>(z: Zip<T>) -> Shape<T>
    decreases z.path.len(), 0nat,
{
    let f = z.path.last();
    if z.path.len() > 0 && f.color == NodeColor::Black && dark(f) {
        healed(Zip { path: z.path.drop_last(), t: dimmed(f, z.t) })
    } else {
        settled(z)
    }
}

/// The tree after the walk up from the place `z`, where a black node has
/// been taken out: at the root nothing is left to do; a red sibling is
/// turned over the parent first; then the third case and those behind it
/// go on.
pub open spec fn healed<T: Key>(z: Zip<T>) -> Shape<T>
    decreases z.path.len(), 1nat,
{
    if z.path.len() == 0 {
        z.t
    } else if z.path.last().other.is_red() {
        settled(Zip { path: turned_path(z.path), t: z.t })
    } else {
        passed_up(z)
    }
}

impl<T: Key> Node<T> {
    /// The walk after a black node has been taken out at the place of
    /// `node`, which may be the null link, below `parent`. At the root
    /// nothing is left to mend.
    pub(crate) fn delete_case1(
        nodes: &mut Vec<Node<T>>,
        node: usize,
        parent: usize,
        Ghost(z): Ghost<Zip<T>>,
    ) -> (res: Ghost<Shape<T>>)
        requires
            delete_walk(old(nodes)@, z),
            z.hole() == node,
            path_parent(z.path) == parent,
        ensures
            rebalanced(old(nodes)@, final(nodes)@, z.whole(), res@),
            res@ == healed(z),
        decreases walk_weight(z), 6nat,
    {
        if parent != NIL {
            Self::delete_case2(nodes, node, parent, Ghost(z))
        } else {
            proof {
                lemma_zipped_whole(nodes@, z);
            }
            Ghost(z.whole())
        }
    }

    /// The sibling is red: it becomes black, the parent red, and the parent
    /// is turned towards the place, which gives the place a black sibling.
    pub(crate) fn delete_case2(
        nodes: &mut Vec<Node<T>>,
        node: usize,
        parent: usize,
        Ghost(z): Ghost<Zip<T>>,
    ) -> (res: Ghost<Shape<T>>)
        requires
            delete_walk(old(nodes)@, z),
            z.hole() == node,
            path_parent(z.path) == parent,
            z.path.len() > 0,
        ensures
            rebalanced(old(nodes)@, final(nodes)@, z.whole(), res@),
            res@ == healed(z),
        decreases walk_weight(z), 5nat,
    {
        let ghost n0 = nodes@;
        let ghost f = z.path.last();
        let ghost h = z.t.black_height();
        let ghost mut zc = z;
        proof {
            lemma_short_side(z.path, h);
            lemma_kin(n0, z);
        }
        let sib = Node::sibling_of(nodes, node, parent);
        if Node::cmp_color(nodes, sib, NodeColor::Red) {
            let ghost zp = z.up();
            let ghost zp1 = zp.painted(NodeColor::Red);
            let ghost zs = if f.left_hole {
                zp1.down_right()
            } else {
                zp1.down_left()
            };
            let ghost zp2 = zs.painted(NodeColor::Black).up();
            proof {
                lemma_up(n0, z);
            }
            nodes[parent].color = NodeColor::Red;
            let ghost n1 = nodes@;
            proof {
                lemma_paint(n0, n1, zp, NodeColor::Red);
                if f.left_hole {
                    lemma_down_right(n1, zp1);
                } else {
                    lemma_down_left(n1, zp1);
                }
                lemma_shaped_in_range(n1, zs.hole(), zs.t);
            }
            nodes[sib].color = NodeColor::Black;
            let ghost n2 = nodes@;
            proof {
                lemma_paint(n1, n2, zs, NodeColor::Black);
                lemma_up(n2, zs.painted(NodeColor::Black));
                lemma_kept_outside_trans(n0, n1, n2, z.whole().idxs());
            }
            if node == Node::left(nodes, parent) {
                proof {
                    lemma_zip_rotate_left(n2, zp2);
                }
                Node::rotate_left(nodes, parent);
                proof {
                    let zt = zp2.with(rot_left(zp2.t));
                    lemma_down_left(nodes@, zt);
                    lemma_down_left(nodes@, zt.down_left());
                    zc = zt.down_left().down_left();
                }
            } else {
                proof {
                    lemma_zip_rotate_right(n2, zp2);
                }
                Node::rotate_right(nodes, parent);
                proof {
                    let zt = zp2.with(rot_right(zp2.t));
                    lemma_down_right(nodes@, zt);
                    lemma_down_right(nodes@, zt.down_right());
                    zc = zt.down_right().down_right();
                }
            }
            proof {
                lemma_kept_outside_trans(n0, n2, nodes@, z.whole().idxs());
                lemma_turned_path(z.path, h);
                assert(zc.path =~= turned_path(z.path));
                assert(zc.t == z.t);
                assert(zc == Zip { path: turned_path(z.path), t: z.t });
            }
        }
        let ghost nk = nodes@;
        let res = Self::delete_case3(nodes, node, parent, Ghost(zc));
        proof {
            lemma_rebalanced_after(n0, nk, nodes@, z.whole(), zc.whole(), res@);
        }
        res
    }

    /// Parent, sibling and the sibling's children are black: the sibling
    /// becomes red, which makes the whole subtree under the parent one black
    /// node short, and the walk goes on from the parent.
    pub(crate) fn delete_case3(
        nodes: &mut Vec<Node<T>>,
        node: usize,
        parent: usize,
        Ghost(z): Ghost<Zip<T>>,
    ) -> (res: Ghost<Shape<T>>)
        requires
            delete_walk(old(nodes)@, z),
            z.hole() == node,
            path_parent(z.path) == parent,
            z.path.len() > 0,
            z.path.last().other.is_black(),
        ensures
            rebalanced(old(nodes)@, final(nodes)@, z.whole(), res@),
            res@ == passed_up(z),
        decreases walk_weight(z), 4nat,
    {
        let ghost n0 = nodes@;
        let ghost f = z.path.last();
        let ghost h = z.t.black_height();
        proof {
            lemma_short_side(z.path, h);
            lemma_kin(n0, z);
        }
        let sib = Node::sibling_of(nodes, node, parent);
        if Node::cmp_color(nodes, parent, NodeColor::Black) && Node::cmp_color(
            nodes,
            sib,
            NodeColor::Black,
        ) && Node::is_black(nodes, Node::left(nodes, sib)) && Node::is_black(
            nodes,
            Node::right(nodes, sib),
        ) {
            let ghost zp = z.up();
            let ghost zs = if f.left_hole {
                zp.down_right()
            } else {
                zp.down_left()
            };
            let ghost zp1 = zs.painted(NodeColor::Red).up();
            proof {
                lemma_up(n0, z);
                if f.left_hole {
                    lemma_down_right(n0, zp);
                } else {
                    lemma_down_left(n0, zp);
                }
            }
            nodes[sib].color = NodeColor::Red;
            let ghost n1 = nodes@;
            proof {
                lemma_paint(n0, n1, zs, NodeColor::Red);
                lemma_up(n1, zs.painted(NodeColor::Red));
                lemma_dimmed(f, z.t);
                assert(zp1.t == dimmed(f, z.t));
                assert(zp1.path =~= z.path.drop_last());
                assert(zp1 == Zip { path: z.path.drop_last(), t: dimmed(f, z.t) });
                assert(delete_walk(n1, zp1));
            }
            let gp = Node::parent(nodes, parent);
            let res = Self::delete_case1(nodes, parent, gp, Ghost(zp1));
            proof {
                lemma_rebalanced_after(n0, n1, nodes@, z.whole(), zp1.whole(), res@);
            }
            res
        } else {
            Self::delete_case4(nodes, node, parent, Ghost(z))
        }
    }

    /// The parent is red, the sibling and its children black: parent and
    /// sibling change colours, which gives the short side its black node
    /// back.
    pub(crate) fn delete_case4(
        nodes: &mut Vec<Node<T>>,
        node: usize,
        parent: usize,
        Ghost(z): Ghost<Zip<T>>,
    ) -> (res: Ghost<Shape<T>>)
        requires
            delete_walk(old(nodes)@, z),
            z.hole() == node,
            path_parent(z.path) == parent,
            z.path.len() > 0,
            z.path.last().other.is_black(),
            !(z.path.last().color == NodeColor::Black && near(z.path.last()).is_black() && far(
                z.path.last(),
            ).is_black()),
        ensures
            rebalanced(old(nodes)@, final(nodes)@, z.whole(), res@),
            res@ == settled(z),
        decreases walk_weight(z), 3nat,
    {
        let ghost n0 = nodes@;
        let ghost f = z.path.last();
        let ghost h = z.t.black_height();
        proof {
            lemma_short_side(z.path, h);
            lemma_kin(n0, z);
        }
        let sib = Node::sibling_of(nodes, node, parent);
        if Node::cmp_color(nodes, parent, NodeColor::Red) && Node::cmp_color(
            nodes,
            sib,
            NodeColor::Black,
        ) && Node::is_black(nodes, Node::left(nodes, sib)) && Node::is_black(
            nodes,
            Node::right(nodes, sib),
        ) {
            let ghost zp = z.up();
            let ghost zs = if f.left_hole {
                zp.down_right()
            } else {
                zp.down_left()
            };
            let ghost zp1 = zs.painted(NodeColor::Red).up();
            let ghost zp2 = zp1.painted(NodeColor::Black);
            proof {
                lemma_up(n0, z);
                if f.left_hole {
                    lemma_down_right(n0, zp);
                } else {
                    lemma_down_left(n0, zp);
                }
            }
            nodes[sib].color = NodeColor::Red;
            let ghost n1 = nodes@;
            proof {
                lemma_paint(n0, n1, zs, NodeColor::Red);
                lemma_up(n1, zs.painted(NodeColor::Red));
            }
            nodes[parent].color = NodeColor::Black;
            proof {
                lemma_paint(n1, nodes@, zp1, NodeColor::Black);
                lemma_kept_outside_trans(n0, n1, nodes@, z.whole().idxs());
                lemma_dimmed(f, z.t);
                assert(zp2.t == painted(dimmed(f, z.t), NodeColor::Black));
                assert(zp2.path =~= z.path.drop_last());
                lemma_zipped_whole(nodes@, zp2);
                lemma_plug_red_black(zp2.path, zp2.t);
            }
            Ghost(zp2.whole())
        } else {
            Self::delete_case5(nodes, node, parent, Ghost(z))
        }
    }

    /// The sibling is black, its near child red and its far child black:
    /// sibling and near child change colours and the sibling is turned away
    /// from the place, which gives the place a black sibling with a red far
    /// child.
    pub(crate) fn delete_case5(
        nodes: &mut Vec<Node<T>>,
        node: usize,
        parent: usize,
        Ghost(z): Ghost<Zip<T>>,
    ) -> (res: Ghost<Shape<T>>)
        requires
            delete_walk(old(nodes)@, z),
            z.hole() == node,
            path_parent(z.path) == parent,
            z.path.len() > 0,
            z.path.last().other.is_black(),
            !(near(z.path.last()).is_black() && far(z.path.last()).is_black()),
        ensures
            rebalanced(old(nodes)@, final(nodes)@, z.whole(), res@),
            res@ == turned_in(z),
        decreases walk_weight(z), 2nat,
    {
        let ghost n0 = nodes@;
        let ghost f = z.path.last();
        let ghost h = z.t.black_height();
        let ghost mut zc = z;
        let ghost zp = z.up();
        proof {
            lemma_short_side(z.path, h);
            lemma_kin(n0, z);
            lemma_up(n0, z);
        }
        let sib = Node::sibling_of(nodes, node, parent);
        if Node::cmp_color(nodes, sib, NodeColor::Black) {
            if node == Node::left(nodes, parent) && Node::is_black(nodes, Node::right(nodes, sib))
                && Node::cmp_color(nodes, Node::left(nodes, sib), NodeColor::Red) {
                let ghost zs = zp.down_right();
                let ghost zs1 = zs.painted(NodeColor::Red);
                let ghost zsl = zs1.down_left();
                let ghost zs2 = zsl.painted(NodeColor::Black).up();
                let ghost zs3 = zs2.with(rot_right(zs2.t));
                proof {
                    lemma_down_right(n0, zp);
                }
                let sl = Node::left(nodes, sib);
                nodes[sib].color = NodeColor::Red;
                let ghost n1 = nodes@;
                proof {
                    lemma_paint(n0, n1, zs, NodeColor::Red);
                    lemma_down_left(n1, zs1);
                    lemma_shaped_in_range(n1, zsl.hole(), zsl.t);
                }
                nodes[sl].color = NodeColor::Black;
                let ghost n2 = nodes@;
                proof {
                    lemma_paint(n1, n2, zsl, NodeColor::Black);
                    lemma_up(n2, zsl.painted(NodeColor::Black));
                    lemma_kept_outside_trans(n0, n1, n2, z.whole().idxs());
                    lemma_zip_rotate_right(n2, zs2);
                }
                Node::rotate_right(nodes, sib);
                proof {
                    lemma_kept_outside_trans(n0, n2, nodes@, z.whole().idxs());
                    lemma_up(nodes@, zs3);
                    lemma_down_left(nodes@, zs3.up());
                    zc = zs3.up().down_left();
                }
                proof {
                    lemma_bent(f);
                    assert(zc.t == z.t);
                    assert(zc.path.drop_last() =~= z.path.drop_last());
                    assert(zc.path.last() == Frame { other: bent(f), ..f });
                    assert(zc.path.last() == bent_frame(f));
                    assert(path_ok(zc.path, h + 1));
                }
            } else if node == Node::right(nodes, parent) && Node::is_black(
                nodes,
                Node::left(nodes, sib),
            ) && Node::cmp_color(nodes, Node::right(nodes, sib), NodeColor::Red) {
                let ghost zs = zp.down_left();
                let ghost zs1 = zs.painted(NodeColor::Red);
                let ghost zsl = zs1.down_right();
                let ghost zs2 = zsl.painted(NodeColor::Black).up();
                let ghost zs3 = zs2.with(rot_left(zs2.t));
                proof {
                    lemma_down_left(n0, zp);
                }
                let sl = Node::right(nodes, sib);
                nodes[sib].color = NodeColor::Red;
                let ghost n1 = nodes@;
                proof {
                    lemma_paint(n0, n1, zs, NodeColor::Red);
                    lemma_down_right(n1, zs1);
                    lemma_shaped_in_range(n1, zsl.hole(), zsl.t);
                }
                nodes[sl].color = NodeColor::Black;
                let ghost n2 = nodes@;
                proof {
                    lemma_paint(n1, n2, zsl, NodeColor::Black);
                    lemma_up(n2, zsl.painted(NodeColor::Black));
                    lemma_kept_outside_trans(n0, n1, n2, z.whole().idxs());
                    lemma_zip_rotate_left(n2, zs2);
                }
                Node::rotate_left(nodes, sib);
                proof {
                    lemma_kept_outside_trans(n0, n2, nodes@, z.whole().idxs());
                    lemma_up(nodes@, zs3);
                    lemma_down_right(nodes@, zs3.up());
                    zc = zs3.up().down_right();
                }
                proof {
                    lemma_bent(f);
                    assert(zc.t == z.t);
                    assert(zc.path.drop_last() =~= z.path.drop_last());
                    assert(zc.path.last() == Frame { other: bent(f), ..f });
                    assert(zc.path.last() == bent_frame(f));
                    assert(path_ok(zc.path, h + 1));
                }
            }
        }
        let ghost nk = nodes@;
        let res = Self::delete_case6(nodes, node, parent, Ghost(zc));
        proof {
            lemma_rebalanced_after(n0, nk, nodes@, z.whole(), zc.whole(), res@);
        }
        res
    }

    /// The sibling is black and its far child red: the sibling takes the
    /// parent's colour, parent and far child become black, and the parent is
    /// turned towards the place, which gives the short side its black node
    /// back.
    pub(crate) fn delete_case6(
        nodes: &mut Vec<Node<T>>,
        node: usize,
        parent: usize,
        Ghost(z): Ghost<Zip<T>>,
    ) -> (res: Ghost<Shape<T>>)
        requires
            delete_walk(old(nodes)@, z),
            z.hole() == node,
            path_parent(z.path) == parent,
            z.path.len() > 0,
            z.path.last().other.is_black(),
            far(z.path.last()).is_red(),
        ensures
            rebalanced(old(nodes)@, final(nodes)@, z.whole(), res@),
            res@ == plug(z.path.drop_last(), mended(z.path.last(), z.t)),
        decreases walk_weight(z), 1nat,
    {
        let ghost n0 = nodes@;
        let ghost f = z.path.last();
        let ghost h = z.t.black_height();
        let ghost zp = z.up();
        let ghost zs = if f.left_hole {
            zp.down_right()
        } else {
            zp.down_left()
        };
        let ghost zp1 = zs.painted(f.color).up();
        let ghost zp2 = zp1.painted(NodeColor::Black);
        let ghost mut last = zp2;
        proof {
            lemma_short_side(z.path, h);
            lemma_kin(n0, z);
            lemma_up(n0, z);
            if f.left_hole {
                lemma_down_right(n0, zp);
            } else {
                lemma_down_left(n0, zp);
            }
        }
        let sib = Node::sibling_of(nodes, node, parent);
        let c = nodes[parent].color;
        nodes[sib].color = c;
        let ghost n1 = nodes@;
        proof {
            lemma_paint(n0, n1, zs, c);
            lemma_up(n1, zs.painted(c));
        }
        nodes[parent].color = NodeColor::Black;
        let ghost n2 = nodes@;
        proof {
            lemma_paint(n1, n2, zp1, NodeColor::Black);
            lemma_kept_outside_trans(n0, n1, n2, z.whole().idxs());
        }
        if node == Node::left(nodes, parent) {
            let ghost zs2 = zp2.down_right();
            let ghost zsr = zs2.down_right();
            let ghost zp3 = zsr.painted(NodeColor::Black).up().up();
            proof {
                lemma_down_right(n2, zp2);
                lemma_down_right(n2, zs2);
                lemma_shaped_in_range(n2, zsr.hole(), zsr.t);
            }
            let sr = Node::right(nodes, sib);
            nodes[sr].color = NodeColor::Black;
            let ghost n3 = nodes@;
            proof {
                lemma_paint(n2, n3, zsr, NodeColor::Black);
                lemma_up(n3, zsr.painted(NodeColor::Black));
                lemma_up(n3, zsr.painted(NodeColor::Black).up());
                lemma_kept_outside_trans(n0, n2, n3, z.whole().idxs());
                lemma_zip_rotate_left(n3, zp3);
            }
            Node::rotate_left(nodes, parent);
            proof {
                lemma_kept_outside_trans(n0, n3, nodes@, z.whole().idxs());
                last = zp3.with(rot_left(zp3.t));
            }
        } else {
            let ghost zs2 = zp2.down_left();
            let ghost zsr = zs2.down_left();
            let ghost zp3 = zsr.painted(NodeColor::Black).up().up();
            proof {
                lemma_down_left(n2, zp2);
                lemma_down_left(n2, zs2);
                lemma_shaped_in_range(n2, zsr.hole(), zsr.t);
            }
            let sr = Node::left(nodes, sib);
            nodes[sr].color = NodeColor::Black;
            let ghost n3 = nodes@;
            proof {
                lemma_paint(n2, n3, zsr, NodeColor::Black);
                lemma_up(n3, zsr.painted(NodeColor::Black));
                lemma_up(n3, zsr.painted(NodeColor::Black).up());
                lemma_kept_outside_trans(n0, n2, n3, z.whole().idxs());
                lemma_zip_rotate_right(n3, zp3);
            }
            Node::rotate_right(nodes, parent);
            proof {
                lemma_kept_outside_trans(n0, n3, nodes@, z.whole().idxs());
                last = zp3.with(rot_right(zp3.t));
            }
        }
        proof {
            lemma_mended(f, z.t);
            assert(last.t == mended(f, z.t));
            assert(last.path =~= z.path.drop_last());
            lemma_zipped_whole(nodes@, last);
            lemma_plug_red_black(last.path, last.t);
        }
        Ghost(last.whole())
    }
}

} // verus!
