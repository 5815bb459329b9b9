use ralloc::ledger::Block;
use ralloc::tree::{is_even, split_mix_64, Key, Node, NodeColor, Tree, NIL};

fn arena<T: Key + Default>(slots: usize) -> Vec<Node<T>> {
    let mut v = Vec::new();
    for i in 0..slots {
        v.push(Node::new(T::default(), i));
    }
    v
}

/// Checks the red-black rules on the links themselves and returns the black
/// height of the subtree under `i`.
fn black_height<T: Key>(nodes: &Vec<Node<T>>, i: usize, parent: usize, keys: &mut Vec<T>) -> usize {
    if i == NIL {
        return 0;
    }
    let n = nodes[i];
    assert_eq!(n.parent, parent);
    if n.color == NodeColor::Red {
        assert!(!Node::cmp_color(nodes, n.left, NodeColor::Red));
        assert!(!Node::cmp_color(nodes, n.right, NodeColor::Red));
    }
    let l = black_height(nodes, n.left, i, keys);
    keys.push(n.item);
    let r = black_height(nodes, n.right, i, keys);
    assert_eq!(l, r);
    l + if n.color == NodeColor::Black { 1 } else { 0 }
}

fn check<T: Key>(nodes: &Vec<Node<T>>, root: usize) -> Vec<T> {
    let mut keys = Vec::new();
    if root != NIL {
        assert!(nodes[root].color == NodeColor::Black);
    }
    black_height(nodes, root, NIL, &mut keys);
    for w in keys.windows(2) {
        assert!(!w[1].less(&w[0]));
    }
    keys
}

#[test]
fn rnd_test() {
    let mut seed = 0x9E3779B97F4A7C15u64;
    let mut v = vec![];
    for _ in 0..30 {
        let y = split_mix_64(&mut seed);
        v.push(is_even(y));
    }
    assert_eq!(v.len(), 30);
    assert!(v.iter().any(|b| *b));
    assert!(v.iter().any(|b| !*b));
}

#[test]
fn node_insert() {
    let mut space = arena(20);
    let items = [10_u8, 9, 11, 8, 5, 15, 16, 20, 1, 2, 3, 23, 6];
    let mut root = NIL;
    for idx in 0..13 {
        space[idx] = Node::new(items[idx], idx);
        root = Node::insert(&mut space, root, idx);
    }
    let keys = check(&space, root);
    assert_eq!(keys, vec![1, 2, 3, 5, 6, 8, 9, 10, 11, 15, 16, 20, 23]);
}

fn seven() -> (Vec<Node<u8>>, usize) {
    let mut space = arena(20);
    let items = [4u8, 5, 3, 6, 2, 7, 1];
    let mut root = NIL;
    for idx in 0..7 {
        space[idx] = Node::new(items[idx], idx);
        root = Node::insert(&mut space, root, idx);
    }
    (space, root)
}

#[test]
fn node_remove1() {
    let (mut space, mut root) = seven();
    let mut seed = 0x9E3779B97F4A7C15u64;
    assert_eq!(check(&space, root), vec![1, 2, 3, 4, 5, 6, 7]);
    let (r, slot) = Node::delete(&mut space, root, 1, &mut seed);
    root = r;
    assert_eq!(space[slot.unwrap()].item, 1);
    assert_eq!(check(&space, root), vec![2, 3, 4, 5, 6, 7]);
    let (r, slot) = Node::delete(&mut space, root, 7, &mut seed);
    root = r;
    assert_eq!(space[slot.unwrap()].item, 7);
    assert_eq!(check(&space, root), vec![2, 3, 4, 5, 6]);
    assert_eq!(space[root].item, 4);
    // Both keys were red leaves: no step of the seed, no rebalancing.
    assert_eq!(seed, 0x9E3779B97F4A7C15u64);
}

#[test]
fn node_remove2() {
    let (mut space, mut root) = seven();
    let mut seed = 0x9E3779B97F4A7C15u64;
    let (r, slot) = Node::delete(&mut space, root, 2, &mut seed);
    root = r;
    assert!(slot.is_some());
    assert_eq!(check(&space, root), vec![1, 3, 4, 5, 6, 7]);
    let (r, slot) = Node::delete(&mut space, root, 6, &mut seed);
    root = r;
    assert!(slot.is_some());
    assert_eq!(check(&space, root), vec![1, 3, 4, 5, 7]);
}

#[test]
fn create_tree() {
    let items = [4u8, 5, 3, 6, 2, 7, 1, 8];
    let mut root = Tree::new(arena(20), 20);
    for idx in 0..7 {
        root.insert(items[idx]);
    }
    assert_eq!(root.len(), 7);
    assert_eq!(root.slots(), 7);
    assert_eq!(root.capacity(), 20);
    // Four on top over two and six, all black, and four red leaves.
    let mut out = Vec::new();
    Node::traverse_tree(root.nodes(), root.head(), &mut out, 0);
    assert_eq!(
        out,
        vec![
            (7, 10, NodeColor::Red),
            (6, 5, NodeColor::Black),
            (5, 10, NodeColor::Red),
            (4, 0, NodeColor::Black),
            (3, 10, NodeColor::Red),
            (2, 5, NodeColor::Black),
            (1, 10, NodeColor::Red)
        ]
    );
}

#[test]
fn the_arena_is_taken_as_it_is() {
    let mut backing: Vec<Node<u8>> = arena(4);
    backing[0].item = 9;
    backing[3].item = 7;
    let tree = Tree::new(backing, 4);
    assert_eq!(tree.head(), NIL);
    assert_eq!(tree.nodes()[0].item, 9);
    assert_eq!(tree.nodes()[3].item, 7);
    assert_eq!(tree.nodes().len(), 4);
}

#[test]
fn a_miss_leaves_the_tree_as_it_is() {
    let mut tree = Tree::new(arena(8), 8);
    for k in [4u8, 5, 3, 6, 2, 7, 1] {
        tree.insert(k);
    }
    let head = tree.head();
    let before: Vec<(u8, NodeColor, usize, usize, usize)> =
        tree.nodes().iter().map(|n| (n.item, n.color, n.parent, n.left, n.right)).collect();
    assert_eq!(tree.remove(&9), None);
    let after: Vec<(u8, NodeColor, usize, usize, usize)> =
        tree.nodes().iter().map(|n| (n.item, n.color, n.parent, n.left, n.right)).collect();
    assert_eq!(tree.head(), head);
    assert_eq!(before, after);
}

#[test]
fn tree_remove_returns_the_key_and_only_once() {
    let mut tree = Tree::new(arena(8), 8);
    for k in [5usize, 3, 8, 1] {
        tree.insert(k);
    }
    assert_eq!(tree.remove(&3), Some(3));
    assert_eq!(tree.remove(&3), None);
    assert_eq!(tree.remove(&42), None);
    assert_eq!(tree.len(), 3);
    assert_eq!(tree.slots(), 4);
}

#[test]
fn tree_survives_every_removal_order() {
    let n = 40usize;
    let mut seed = 12345u64;
    for round in 0..20 {
        let mut space: Vec<Node<usize>> = arena(n);
        let mut root = NIL;
        let mut present: Vec<usize> = Vec::new();
        for idx in 0..n {
            let key = split_mix_64(&mut seed) % 50;
            space[idx] = Node::new(key, idx);
            root = Node::insert(&mut space, root, idx);
            present.push(key);
            let mut want = present.clone();
            want.sort();
            assert_eq!(check(&space, root), want);
        }
        let mut choice = 777u64 + round;
        while !present.is_empty() {
            let at = split_mix_64(&mut seed) % present.len();
            let key = present.remove(at);
            let (r, slot) = Node::delete(&mut space, root, key, &mut choice);
            root = r;
            assert_eq!(space[slot.unwrap()].item, key);
            let mut want = present.clone();
            want.sort();
            assert_eq!(check(&space, root), want);
        }
        assert_eq!(root, NIL);
    }
}

#[test]
fn traverse_lists_the_keys_downwards() {
    let mut tree = Tree::new(arena(8), 8);
    for k in [2usize, 1, 3] {
        tree.insert(k);
    }
    let mut out = Vec::new();
    Node::traverse_tree(tree.nodes(), tree.head(), &mut out, 0);
    assert_eq!(
        out,
        vec![(3, 5, NodeColor::Red), (2, 0, NodeColor::Black), (1, 5, NodeColor::Red)]
    );
    assert_eq!(check(tree.nodes(), tree.head()), vec![1, 2, 3]);
    let mut none = Vec::new();
    Node::traverse_tree(tree.nodes(), NIL, &mut none, 7);
    assert!(none.is_empty());
}

#[test]
fn relatives() {
    let (space, root) = seven();
    // 4 over 2 and 6, over 1, 3, 5 and 7; the slots follow the order of
    // insertion 4, 5, 3, 6, 2, 7, 1.
    let slot = |key: u8| (0..7).find(|i| space[*i].item == key).unwrap();
    assert_eq!(space[root].item, 4);
    let one = Node::most_left(&space, root);
    let seven = Node::most_right(&space, root);
    assert_eq!(space[one].item, 1);
    assert_eq!(space[seven].item, 7);
    assert_eq!(Node::parent(&space, one), slot(2));
    assert_eq!(Node::grandparent(&space, one), root);
    assert_eq!(Node::sibling(&space, one), slot(3));
    assert_eq!(Node::uncle(&space, one), slot(6));
    assert_eq!(Node::left(&space, root), slot(2));
    assert_eq!(Node::right(&space, root), slot(6));
    assert_eq!(Node::parent(&space, root), NIL);
    assert_eq!(Node::sibling(&space, root), NIL);
    assert_eq!(Node::uncle(&space, slot(2)), NIL);
    assert_eq!(Node::left(&space, NIL), NIL);
    assert_eq!(Node::most_left(&space, NIL), NIL);
    assert_eq!(Node::sibling_of(&space, one, slot(2)), slot(3));
    assert_eq!(Node::sibling_of(&space, slot(3), slot(2)), one);
    assert_eq!(Node::sibling_of(&space, root, NIL), NIL);
    assert!(Node::cmp_color(&space, root, NodeColor::Black));
    assert!(!Node::cmp_color(&space, NIL, NodeColor::Black));
    assert!(!Node::cmp_color(&space, NIL, NodeColor::Red));
    assert!(Node::is_black(&space, NIL));
}

#[test]
fn rotations_turn_and_turn_back() {
    let (mut space, root) = seven();
    let before: Vec<(u8, usize, usize, usize)> =
        space.iter().map(|n| (n.item, n.parent, n.left, n.right)).collect();
    let two = Node::left(&space, root);
    let three = Node::right(&space, two);
    Node::rotate_left(&mut space, two);
    assert_eq!(Node::left(&space, root), three);
    assert_eq!(Node::left(&space, three), two);
    assert_eq!(Node::parent(&space, two), three);
    assert_eq!(Node::parent(&space, three), root);
    assert_eq!(Node::right(&space, two), NIL);
    Node::rotate_right(&mut space, three);
    let after: Vec<(u8, usize, usize, usize)> =
        space.iter().map(|n| (n.item, n.parent, n.left, n.right)).collect();
    assert_eq!(before, after);
    // At the root the new top has no parent.
    let six = Node::right(&space, root);
    Node::rotate_left(&mut space, root);
    assert_eq!(Node::parent(&space, six), NIL);
    assert_eq!(Node::left(&space, six), root);
}

#[test]
fn equal_keys_are_kept_and_leave_one_by_one() {
    let mut tree = Tree::new(arena(8), 8);
    for k in [5usize, 5, 5, 1] {
        tree.insert(k);
    }
    assert_eq!(check(tree.nodes(), tree.head()), vec![1, 5, 5, 5]);
    assert_eq!(tree.remove(&5), Some(5));
    assert_eq!(check(tree.nodes(), tree.head()), vec![1, 5, 5]);
    assert_eq!(tree.remove(&1), Some(1));
    assert_eq!(tree.remove(&5), Some(5));
    assert_eq!(tree.remove(&5), Some(5));
    assert_eq!(tree.remove(&5), None);
    assert_eq!(tree.head(), NIL);
    assert_eq!(tree.len(), 0);
}

#[test]
fn blocks_are_kept_by_address() {
    let mut tree: Tree<Block> = Tree::new(arena(8), 8);
    for (data, size) in [(0x300usize, 8usize), (0x100, 64), (0x200, 16)] {
        tree.insert(Block { size, data, free: true });
    }
    let keys = check(tree.nodes(), tree.head());
    assert_eq!(
        keys,
        vec![
            Block { size: 64, data: 0x100, free: true },
            Block { size: 16, data: 0x200, free: true },
            Block { size: 8, data: 0x300, free: true }
        ]
    );
    // A key finds the block at its address, whatever else it says.
    let found = tree.remove(&Block { size: 0, data: 0x200, free: false });
    assert_eq!(found, Some(Block { size: 16, data: 0x200, free: true }));
    assert_eq!(tree.remove(&Block { size: 16, data: 0x201, free: true }), None);
    assert_eq!(tree.len(), 2);
}
