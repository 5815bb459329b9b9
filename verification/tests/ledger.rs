use ralloc::block::BLOCK_SIZE;
use ralloc::ledger::bookkeeper::{Grant, LedgerError};
use ralloc::ledger::{size_to_class, Block, BookKeeper, Chunk, EmptyResult, RawSlice};

#[test]
fn bookkeeper_test_raw_slice() {
    assert!(RawSlice::<Block>::empty().is_null());

    let mut vec = RawSlice::new(vec![b'a'; 16], 32);

    assert_eq!(vec.as_slice(), b"aaaaaaaaaaaaaaaa");
    vec.push(b'b').unwrap();
    assert_eq!(vec.as_slice(), b"aaaaaaaaaaaaaaaab");
    vec.push(b'c').unwrap();
    assert_eq!(vec.as_slice(), b"aaaaaaaaaaaaaaaabc");
    vec.set(0, b'.');
    assert_eq!(vec.as_slice(), b".aaaaaaaaaaaaaaabc");

    for _ in 0..14 {
        vec.push(b'_').unwrap();
    }

    assert_eq!(vec.pop().unwrap(), b'_');
    vec.push(b'@').unwrap();

    // push to the "33rd" index, this is an error since we only have 32
    assert!(vec.push(b'!').is_err());

    assert_eq!(vec.as_slice(), b".aaaaaaaaaaaaaaabc_____________@");

    for _ in 0..32 {
        vec.pop().unwrap();
    }

    assert!(vec.pop().is_none());
    assert!(vec.pop().is_none());
    assert!(vec.pop().is_none());
    assert!(vec.pop().is_none());
}

#[test]
fn bookkeeper_test_resize() {
    let mut vec = RawSlice::new(vec![b'a'; 16], 16);
    assert!(vec.push(b'x').is_err());
    vec.resize(20).unwrap();
    assert!(vec.push(b'b').is_ok());
    assert_eq!(vec.len(), 17);
    assert_eq!(vec.capacity(), 20);
    assert!(vec.resize(16).is_err());
    assert_eq!(vec.capacity(), 20);
}

#[test]
fn bookkeeper_test_remove() {
    let mut vec = RawSlice::new(vec![1u8, 2, 3, 4], 16);

    let x = vec.remove(2);
    assert_eq!(x, 3);
    assert_eq!(vec.as_slice(), [1u8, 2, 4]);

    let mut vec = RawSlice::new(vec![0u8, 1, 2, 3, 4, 5, 6, 7, 8, 9], 16);

    let x = vec.remove(3);
    assert_eq!(x, 3);
    assert_eq!(vec.as_slice(), [0u8, 1, 2, 4, 5, 6, 7, 8, 9]);

    let x = vec.remove(8);
    assert_eq!(x, 9);
    assert_eq!(vec.as_slice(), [0u8, 1, 2, 4, 5, 6, 7, 8]);

    let x = vec.remove(0);
    assert_eq!(x, 0);
    assert_eq!(vec.as_slice(), [1, 2, 4, 5, 6, 7, 8]);
}

#[test]
fn bookkeeper_test_insert() {
    let mut vec = RawSlice::new(vec![1u8, 2, 3, 4], 16);

    vec.insert(2, 10);
    assert_eq!(vec.as_slice(), [1u8, 2, 10, 3, 4]);
    assert_eq!(vec.len(), 5);

    let mut vec = RawSlice::new(vec![0u8, 1, 2, 3, 4, 5, 6, 7, 8, 9], 16);

    vec.insert(0, 10);
    assert_eq!(vec.as_slice(), [10u8, 0, 1, 2, 3, 4, 5, 6, 7, 8, 9]);
    assert_eq!(vec.len(), 11);

    vec.insert(11, 10);
    assert_eq!(vec.as_slice(), [10u8, 0, 1, 2, 3, 4, 5, 6, 7, 8, 9, 10]);
    assert_eq!(vec.len(), 12);
}

#[test]
fn bookkeeper_test_alloc() {
    let mut mem = vec![0u8; 64];
    let base = 0x4000usize;
    let mut bk = BookKeeper::new();
    assert!(bk.is_null());
    bk.init();
    assert!(!bk.is_null());

    let ptr = match bk.allocate(std::mem::size_of::<u32>()).unwrap() {
        Grant::Ready(p) => p,
        Grant::Extend(bytes) => {
            assert_eq!(bytes, 4);
            bk.extend_heap(bytes, base).unwrap()
        }
    };
    assert_eq!(ptr, base);
    mem[ptr - base..ptr - base + 4].copy_from_slice(&11u32.to_le_bytes());
    assert_eq!(&mem[ptr - base..ptr - base + 4], &11u32.to_le_bytes());
    assert_eq!(bk.used().as_slice(), [Block { size: 4, data: base, free: false }]);
    assert_eq!(bk.top(), base + 4);
}

#[test]
fn test_block_offset() {
    let mut buf = vec![0u8; BLOCK_SIZE + std::mem::size_of::<u32>()];
    let base = 0x8000usize;
    let blk = ralloc::block::Block::from_raw(base, std::mem::size_of::<u32>(), 0);
    let ptr = ralloc::block::Block::data_of(blk.as_raw());
    buf[ptr - base..ptr - base + 4].copy_from_slice(&10u32.to_le_bytes());
    let mut want = vec![0u8; BLOCK_SIZE];
    want.extend_from_slice(&[10, 0, 0, 0]);
    assert_eq!(buf, want);
    assert_eq!(buf[ptr - base], 10);
}

#[test]
fn math_stuff() {}

#[test]
fn size_classes() {
    assert_eq!(size_to_class(0), usize::MAX);
    assert_eq!(size_to_class(1), 8);
    assert_eq!(size_to_class(8), 8);
    assert_eq!(size_to_class(9), 16);
    assert_eq!(size_to_class(16), 16);
    assert_eq!(size_to_class(17), 32);
    assert_eq!(size_to_class(32), 32);
    assert_eq!(size_to_class(33), 64);
    assert_eq!(size_to_class(64), 64);
    assert_eq!(size_to_class(65), usize::MAX);
    let c = Chunk::new(0x9000, 16, 2);
    assert_eq!(c.size_class, 16);
    assert_eq!(c.blks.capacity(), 512);
    assert_eq!(c.raw_data(), 0x9000);
    assert!(!c.is_null());
    assert!(Chunk::new(1, 8, 1).is_null());
}

#[test]
fn empty_result() {
    assert!(EmptyResult::Success.is_ok());
    assert!(!EmptyResult::Success.is_err());
    assert!(EmptyResult::Failure.is_err());
    assert!(!EmptyResult::Failure.is_ok());
    EmptyResult::Success.unwrap();
}

#[test]
fn ledger_block() {
    let mut b = Block::new(0x100, 16);
    assert!(!b.free);
    assert!(!b.is_null());
    assert!(Block::new(1, 0).is_null());
    assert_eq!(b.raw_data(), 0x100);
    assert!(b.merge_right(Block::new(0x110, 8)).is_ok());
    assert_eq!(b, Block { size: 24, data: 0x100, free: false });
    let rest = b.split(10);
    assert_eq!(b, Block { size: 12, data: 0x100, free: false });
    assert_eq!(rest, Block { size: 12, data: 0x10C, free: true });
}

fn stack(blocks: &[(usize, usize)], cap: usize) -> RawSlice<Block> {
    let v: Vec<Block> = blocks.iter().map(|(d, s)| Block { size: *s, data: *d, free: true }).collect();
    RawSlice::new(v, cap)
}

#[test]
fn find_takes_the_top_block_that_is_large_enough() {
    let mut free = stack(&[(0x300, 16), (0x100, 8)], 8);
    let b = free.find(8).unwrap();
    assert_eq!((b.data, b.size), (0x100, 8));
    assert_eq!(free.len(), 1);
}

#[test]
fn find_merges_neighbours_until_the_block_is_large_enough() {
    let mut free = stack(&[(0x300, 16), (0x108, 8), (0x100, 8)], 8);
    let b = free.find(12).unwrap();
    assert_eq!((b.data, b.size), (0x100, 16));
    assert_eq!(free.as_slice(), [Block { size: 16, data: 0x300, free: true }]);
}

#[test]
fn find_sets_a_block_aside_where_the_next_is_no_neighbour() {
    let mut free = stack(&[(0x300, 16), (0x100, 8)], 8);
    let b = free.find(12).unwrap();
    assert_eq!((b.data, b.size), (0x300, 16));
    assert_eq!(free.as_slice(), [Block { size: 8, data: 0x100, free: true }]);
}

#[test]
fn find_reaches_a_block_under_one_that_is_too_small() {
    let mut free = stack(&[(0x1000, 100), (0x100, 4)], 8);
    let b = free.find(8).unwrap();
    // A hundred bytes are more than twice eight: the block is halved.
    assert_eq!((b.data, b.size), (0x1000, 50));
    assert_eq!(
        free.as_slice(),
        [Block { size: 50, data: 0x1032, free: true }, Block { size: 4, data: 0x100, free: true }]
    );
}

#[test]
fn find_keeps_every_block_where_no_run_is_large_enough() {
    let mut free = stack(&[(0x400, 8), (0x300, 4), (0x108, 8), (0x100, 8)], 8);
    assert_eq!(free.find(20), None);
    // The two neighbours at the top are one block now; nothing is lost.
    assert_eq!(
        free.as_slice(),
        [
            Block { size: 8, data: 0x400, free: true },
            Block { size: 4, data: 0x300, free: true },
            Block { size: 16, data: 0x100, free: true }
        ]
    );
}

#[test]
fn find_on_a_used_up_stack_finds_nothing() {
    let mut free = stack(&[(0x108, 8), (0x100, 8)], 8);
    assert_eq!(free.find(100), None);
    assert_eq!(free.as_slice(), [Block { size: 16, data: 0x100, free: true }]);
    let mut none = stack(&[], 8);
    assert_eq!(none.find(1), None);
}

#[test]
fn find_halves_a_block_that_is_more_than_twice_as_large() {
    let mut free = stack(&[(0x100, 64)], 8);
    let b = free.find(8).unwrap();
    assert_eq!((b.data, b.size), (0x100, 32));
    assert_eq!(free.as_slice(), [Block { size: 32, data: 0x120, free: true }]);
    let mut exact = stack(&[(0x100, 16)], 8);
    let b = exact.find(8).unwrap();
    assert_eq!((b.data, b.size), (0x100, 16));
    assert!(exact.is_empty());
}

#[test]
fn book_keeper_round() {
    let mut bk = BookKeeper::new();
    bk.init();
    assert_eq!(bk.allocate(10), Ok(Grant::Extend(12)));
    assert_eq!(bk.extend_heap(12, 0x1000), Ok(0x1000));
    assert_eq!(bk.allocate(64), Ok(Grant::Extend(64)));
    assert_eq!(bk.extend_heap(64, 0x100C), Ok(0x100C));
    assert_eq!(bk.allocate(4), Ok(Grant::Extend(4)));
    assert_eq!(bk.extend_heap(4, 0x104C), Ok(0x104C));
    assert_eq!(bk.free(0x2000), Ok(false));
    assert_eq!(bk.free(0x100C), Ok(true));
    assert_eq!(bk.free(0x100C), Ok(false));
    assert_eq!(bk.free(0x1000), Ok(true));
    assert_eq!(
        bk.free_list().as_slice(),
        [Block { size: 64, data: 0x100C, free: true }, Block { size: 12, data: 0x1000, free: true }]
    );
    assert_eq!(bk.used().as_slice(), [Block { size: 4, data: 0x104C, free: false }]);
    // Twelve and sixty-four bytes side by side serve a request of forty,
    // and the block, more than twice as large and even, is halved.
    assert_eq!(bk.allocate(20), Ok(Grant::Ready(0x1000)));
    assert_eq!(
        bk.used().as_slice(),
        [Block { size: 38, data: 0x1000, free: false }, Block { size: 4, data: 0x104C, free: false }]
    );
    assert_eq!(bk.free_list().as_slice(), [Block { size: 38, data: 0x1026, free: true }]);
}

#[test]
fn book_keeper_runs_out_of_places() {
    let mut bk = BookKeeper::new();
    // Without memory for its arrays the ledger has no place at all.
    assert_eq!(bk.allocate(4), Err(LedgerError::CapacityExceeded));
    assert_eq!(bk.extend_heap(4, 0x1000), Err(LedgerError::CapacityExceeded));
    bk.init();
    let cap = 4096 / 24;
    let mut at = 0x1000;
    for _ in 0..cap - 1 {
        assert_eq!(bk.extend_heap(4, at), Ok(at));
        at += 4;
    }
    assert_eq!(bk.extend_heap(4, at), Err(LedgerError::CapacityExceeded));
    assert_eq!(bk.allocate(4), Err(LedgerError::CapacityExceeded));
    assert_eq!(bk.allocate(usize::MAX), Err(LedgerError::OutOfMemory));
    assert_eq!(bk.used().len(), cap - 1);
}
