//! An ordered index of keys: a red-black tree whose nodes live in the slots
//! of an arena and link to each other by slot index.

pub mod delete;
pub mod insert;
pub mod key;
pub mod link;
pub mod mix;
pub mod node;
pub mod remove;
pub mod shape;
pub mod zip;

pub use key::Key;
pub use mix::{is_even, split_mix_64, start_right};
pub use node::Node;
pub use shape::{NodeColor, NIL};

use vstd::prelude::*;
use crate::tree::insert::inserted;
use crate::tree::link::{
    lemma_shaped_in_range, lemma_shaped_same, lemma_size_is_len, lemma_tree_of, tree_at, tree_of,
};
use crate::tree::mix::GOLDEN_GAMMA;
use crate::tree::node::at;
use crate::tree::remove::{absent, deleted, seed_after};
use crate::tree::shape::{sorted, Shape};

verus! {

/// A red-black tree of keys. Its nodes live in a backing arena that is
/// handed over when the tree is made; the tree takes the slots one after
/// the other and never asks for more memory. A slot whose key has been
/// removed is not used again.
pub struct Tree<T> {
    /// The slot of the root, null for an empty tree.
    head: usize,
    /// The arena that holds the nodes.
    backing: Vec<Node<T>>,
    /// The next slot to take.
    idx: usize,
    /// How many slots may be taken.
    cap: usize,
    /// How many keys the tree holds.
    len: usize,
    /// The seed of the choices made when keys are removed.
    seed: u64,
}

impl<T: Key> View for Tree<T> {
    type V = Seq<T>;

    /// The keys in ascending order.
    open spec fn view(&self) -> Seq<T> {
        self.shape().inorder()
    }
}

impl<T: Key> Tree<T> {
    /// The tree that the links spell out.
    pub closed spec fn shape(&self) -> Shape<T> {
        tree_of(self.backing@, self.head)
    }

    /// The arena: every slot with the node that it holds.
    pub closed spec fn arena(&self) -> Seq<Node<T>> {
        self.backing@
    }

    /// How many slots may be taken in all.
    pub closed spec fn spec_capacity(&self) -> nat {
        self.cap as nat
    }

    /// How many slots have been taken.
    pub closed spec fn spec_slots(&self) -> nat {
        self.idx as nat
    }

    /// How many keys the tree holds.
    pub closed spec fn spec_len(&self) -> nat {
        self.len as nat
    }

    /// The seed of the next choice.
    pub closed spec fn spec_seed(&self) -> u64 {
        self.seed
    }

    /// The arena spells out a tree that uses taken slots only, and the
    /// counters agree with it.
    pub closed spec fn linked(&self) -> bool {
        &&& tree_at(self.backing@, self.head, self.shape())
        &&& self.idx <= self.cap <= self.backing@.len()
        &&& self.len == self.shape().size()
        &&& forall|j: usize| #[trigger] self.shape().idxs().contains(j) ==> j < self.idx
    }

    /// The tree is a red-black tree with its keys in order.
    pub open spec fn wf(&self) -> bool {
        &&& self.linked()
        &&& self.shape().red_black()
        &&& sorted(self@)
        &&& self.spec_len() == self@.len()
        &&& self.spec_len() <= self.spec_slots() <= self.spec_capacity()
    }

    /// An empty tree over the arena `backing`, of which it may take the
    /// first `cap` slots.
    pub fn new(backing: Vec<Node<T>>, cap: usize) -> (tree: Tree<T>)
        requires
            cap <= backing@.len(),
        ensures
            tree.wf(),
            tree@ == Seq::<T>::empty(),
            tree.shape() == Shape::<T>::Leaf,
            tree.arena() == backing@,
            tree.spec_capacity() == cap,
            tree.spec_slots() == 0,
            tree.spec_len() == 0,
            tree.spec_seed() == GOLDEN_GAMMA,
    {
        let tree = Tree { head: NIL, backing, idx: 0, cap, len: 0, seed: GOLDEN_GAMMA };
        proof {
            lemma_tree_of(tree.backing@, NIL, Shape::Leaf);
        }
        tree
    }

    /// The slot of the root, null for an empty tree.
    pub fn head(&self) -> (r: usize)
        requires
            self.wf(),
        ensures
            r == self.shape().root(),
    {
        proof {
            lemma_shaped_in_range(self.backing@, self.head, self.shape());
        }
        self.head
    }

    /// The arena that holds the nodes; its links spell out the tree from
    /// the root.
    pub fn nodes(&self) -> (r: &Vec<Node<T>>)
        requires
            self.wf(),
        ensures
            r@ == self.arena(),
            tree_at(r@, self.shape().root(), self.shape()),
    {
        proof {
            lemma_shaped_in_range(self.backing@, self.head, self.shape());
        }
        &self.backing
    }

    /// How many keys the tree holds.
    pub fn len(&self) -> (n: usize)
        ensures
            n == self.spec_len(),
    {
        self.len
    }

    /// How many slots the tree has taken, those of removed keys included.
    pub fn slots(&self) -> (n: usize)
        ensures
            n == self.spec_slots(),
    {
        self.idx
    }

    /// How many slots the tree may take in all.
    pub fn capacity(&self) -> (n: usize)
        ensures
            n == self.spec_capacity(),
    {
        self.cap
    }

    /// Puts a key into the tree, in the next free slot. The tree stays
    /// red-black and sorted; a key that is in the tree already is put in
    /// once more.
    pub fn insert(&mut self, item: T)
        requires
            old(self).wf(),
            old(self).spec_slots() < old(self).spec_capacity(),
        ensures
            final(self).wf(),
            exists|pos: int|
                0 <= pos <= old(self)@.len() && #[trigger] old(self)@.insert(pos, item) == final(self)@,
            final(self).shape() == inserted(
                old(self).shape(),
                old(self).spec_slots() as usize,
                item,
            ),
            final(self)@.to_multiset() == old(self)@.to_multiset().insert(item),
            final(self).arena().len() == old(self).arena().len(),
            forall|j: usize|
                old(self).spec_slots() < j < old(self).arena().len() ==> #[trigger] at(
                    final(self).arena(),
                    j,
                ) == at(old(self).arena(), j),
            final(self).spec_len() == old(self).spec_len() + 1,
            final(self).spec_slots() == old(self).spec_slots() + 1,
            final(self).spec_capacity() == old(self).spec_capacity(),
            final(self).spec_seed() == old(self).spec_seed(),
    {
        broadcast use vstd::seq_lib::to_multiset_insert;

        let ghost n0 = self.backing@;
        let ghost t0 = self.shape();
        let new = self.idx;
        let next = Node::new(item, new);
        self.backing[new] = next;
        proof {
            let n1 = self.backing@;
            lemma_shaped_in_range(n0, self.head, t0);
            assert forall|j: usize| #[trigger] t0.idxs().contains(j) implies at(n0, j) == at(n1, j) by {}
            lemma_shaped_same(n0, n1, self.head, t0);
            if self.head != NIL {
                assert(t0.idxs().contains(self.head));
            }
            assert(tree_at(n1, self.head, t0));
            lemma_tree_of(n1, self.head, t0);
        }
        let ghost n1 = self.backing@;
        self.head = Node::insert(&mut self.backing, self.head, new);
        self.idx = self.idx + 1;
        self.len = self.len + 1;
        proof {
            let t1 = tree_of(self.backing@, self.head);
            let pos = choose|pos: int|
                0 <= pos <= t0.inorder().len() && #[trigger] t0.inorder().insert(pos, item)
                    == t1.inorder();
            assert(old(self)@.insert(pos, item) == self@);
            let w = choose|t: Shape<T>| #[trigger]
                tree_at(self.backing@, self.head, t) && t.red_black() && sorted(t.inorder());
            lemma_tree_of(self.backing@, self.head, w);
            lemma_size_is_len(t0);
            lemma_size_is_len(t1);
            assert forall|j: usize| new < j < n0.len() implies #[trigger] at(self.backing@, j) == at(
                n0,
                j,
            ) by {
                assert(at(n1, j) == at(n0, j));
            }
        }
    }

    /// Takes a key out of the tree and returns it; returns nothing, and
    /// leaves the tree as it is, where the tree does not hold the key. Of
    /// equal keys one leaves. The slot of the key is not used again.
    pub fn remove(&mut self, key: &T) -> (r: Option<T>)
        requires
            old(self).wf(),
        ensures
            final(self).wf(),
            r is None <==> absent(old(self)@, *key),
            r is None ==> {
                &&& final(self).shape() == old(self).shape()
                &&& final(self).arena() == old(self).arena()
                &&& final(self).spec_seed() == old(self).spec_seed()
            },
            r matches Some(k) ==> {
                &&& k.rank() == key.rank()
                &&& exists|i: int|
                    0 <= i < old(self)@.len() && old(self)@[i] == k
                        && #[trigger] old(self)@.remove(i) == final(self)@
                &&& final(self)@.to_multiset() == old(self)@.to_multiset().remove(k)
                &&& final(self).spec_len() == old(self).spec_len() - 1
            },
            final(self).shape() == deleted(old(self).shape(), *key, old(self).spec_seed()),
            final(self).spec_seed() == seed_after(old(self).shape(), *key, old(self).spec_seed()),
            final(self).arena().len() == old(self).arena().len(),
            forall|j: usize|
                old(self).spec_slots() <= j < old(self).arena().len() ==> #[trigger] at(
                    final(self).arena(),
                    j,
                ) == at(old(self).arena(), j),
            final(self).spec_slots() == old(self).spec_slots(),
            final(self).spec_capacity() == old(self).spec_capacity(),
    {
        broadcast use vstd::seq_lib::to_multiset_remove;

        let ghost t0 = self.shape();
        let ghost n0 = self.backing@;
        proof {
            lemma_shaped_in_range(self.backing@, self.head, t0);
        }
        let (root, slot) = Node::delete(&mut self.backing, self.head, *key, &mut self.seed);
        match slot {
            None => None,
            Some(s) => {
                self.head = root;
                self.len = self.len - 1;
                proof {
                    let t1 = tree_of(self.backing@, self.head);
                    let w = choose|t: Shape<T>| #[trigger]
                        tree_at(self.backing@, self.head, t) && t.red_black() && sorted(
                            t.inorder(),
                        );
                    lemma_tree_of(self.backing@, self.head, w);
                    lemma_size_is_len(t0);
                    lemma_size_is_len(t1);
                    let i = choose|i: int|
                        0 <= i < t0.inorder().len() && t0.inorder()[i] == at(self.backing@, s).item
                            && #[trigger] t0.inorder().remove(i) == t1.inorder();
                    assert(old(self)@.remove(i) == self@);
                    assert forall|j: usize| self.idx <= j < n0.len() implies #[trigger] at(
                        self.backing@,
                        j,
                    ) == at(n0, j) by {
                        assert(!t0.idxs().contains(j));
                    }
                }
                Some(self.backing[s].item)
            },
        }
    }
}

} // verus!
