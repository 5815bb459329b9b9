use ralloc::block::{Block, BlockState, Chain, NULL};
use ralloc::pointer::Pointer;

#[test]
fn pointer_null() {
    #[allow(dead_code)]
    struct Thing {
        a: usize,
        b: String,
    }
    let ptr = Pointer::<Thing>::empty();

    assert!(ptr.is_null());
}

#[test]
fn pointer_arithmetic() {
    let p = Pointer::<u32>::new(0x1000);
    assert!(!p.is_null());
    assert_eq!(p.get(), 0x1000);
    assert_eq!(p.add(3, 4).get(), 0x100C);
    assert_eq!(p.offset(-2, 4).get(), 0x0FF8);
    assert_eq!(p.offset(2, 4).get(), 0x1008);
    let q: Pointer<u8> = p.cast();
    assert_eq!(q.get(), 0x1000);
    assert_eq!(p.clone().get(), 0x1000);
}

#[test]
fn pointer_reads_the_chain() {
    let mut chain = Chain::new();
    Block::extend_heap(&mut chain, NULL, 8, 0x1000);
    Block::extend_heap(&mut chain, 0x1000, 4, 0x1000 + 48);
    let first = Pointer::<Block>::new(0x1000);
    let second = first.next(&chain);
    assert_eq!(second.get(), 0x1030);
    assert!(second.next(&chain).is_null());
    assert!(first.prev(&chain).is_null());
    assert_eq!(second.prev(&chain).get(), 0x1000);
    assert_eq!(first.size(&chain), 8);
    assert!(!first.is_free(&chain));
    first.mark_free(&mut chain);
    assert!(first.is_free(&chain));
    assert!(chain.get(0x1000).unwrap().free == BlockState::Free);
    first.mark_used(&mut chain);
    assert!(!first.is_free(&chain));
}

#[test]
fn pointer_rewrites_one_header() {
    let mut chain = Chain::new();
    Block::extend_heap(&mut chain, NULL, 8, 0x1000);
    Block::extend_heap(&mut chain, 0x1000, 4, 0x1030);
    let first = Pointer::<Block>::new(0x1000);
    let second = Pointer::<Block>::new(0x1030);
    // Take the second block into the first by hand.
    first.add_size(&mut chain, 40 + 4);
    first.set_next(&mut chain, Pointer::empty());
    let b = chain.get(0x1000).unwrap();
    assert_eq!((b.size, b.next, b.prev), (52, NULL, NULL));
    first.set_size(&mut chain, 8);
    first.set_next(&mut chain, second.clone());
    second.set_prev(&mut chain, first.clone());
    let b = chain.get(0x1000).unwrap();
    assert_eq!((b.size, b.next, b.prev), (8, 0x1030, NULL));
    let c = chain.get(0x1030).unwrap();
    assert_eq!((c.size, c.next, c.prev), (4, NULL, 0x1000));
    c.mark_free(&mut chain);
    assert!(second.is_free(&chain));
}

#[test]
fn cast_of_a_clone_keeps_the_address() {
    let p = Pointer::<u32>::new(0x2000);
    let q: Pointer<u64> = p.clone().cast();
    assert_eq!(q.get(), 0x2000);
    let n: Pointer<u8> = Pointer::<u32>::empty().cast();
    assert!(n.is_null());
}
