use ralloc::block::{Block, BlockState, BLOCK_SIZE, NULL};
use ralloc::heap::{AllocError, Step};
use ralloc::Ralloc;

const BASE: usize = 0x10000;

/// A stand-in for the system: a break that moves where it is asked to, up to
/// a limit, and the memory below it.
struct Os {
    brk: usize,
    limit: usize,
    mem: Vec<u8>,
}

impl Os {
    fn new(room: usize) -> Os {
        Os { brk: BASE, limit: BASE + room, mem: vec![0xAA; room] }
    }

    fn brk(&mut self, target: usize) -> usize {
        if target >= BASE && target <= self.limit {
            self.brk = target;
        }
        self.brk
    }

    fn write(&mut self, at: usize, bytes: &[u8]) {
        assert!(at >= BASE && at + bytes.len() <= self.brk);
        self.mem[at - BASE..at - BASE + bytes.len()].copy_from_slice(bytes);
    }

    fn read(&self, at: usize, len: usize) -> Vec<u8> {
        assert!(at >= BASE && at + len <= self.brk);
        self.mem[at - BASE..at - BASE + len].to_vec()
    }
}

fn malloc(heap: &mut Ralloc, os: &mut Os, size: usize) -> Result<usize, AllocError> {
    match heap.malloc(size)? {
        Step::Ready(a) => Ok(a),
        Step::Brk(target) => {
            let got = os.brk(target);
            heap.malloc_grown(size, got)
        }
    }
}

fn free(heap: &mut Ralloc, os: &mut Os, ptr: usize) {
    if let Some(target) = heap.free(ptr) {
        let got = os.brk(target);
        heap.free_shrunk(target, got);
    }
}

/// The chain as (address, size, free) triples, read by following the links,
/// with every link and the contiguity checked on the way.
fn chain(heap: &Ralloc) -> Vec<(usize, usize, bool)> {
    let mut out = Vec::new();
    let mut at = heap.base();
    let mut prev = NULL;
    while at != NULL {
        let b = heap.block(at).unwrap();
        assert_eq!(b.data, at);
        assert_eq!(b.prev, prev);
        if b.next != NULL {
            assert_eq!(b.next, at + BLOCK_SIZE + b.size);
        } else {
            assert_eq!(at + BLOCK_SIZE + b.size, heap.current_brk());
        }
        out.push((at, b.size, b.free == BlockState::Free));
        prev = at;
        at = b.next;
    }
    for w in out.windows(2) {
        assert!(!(w[0].2 && w[1].2));
    }
    out
}

#[test]
fn it_works() {
    let mut os = Os::new(4096);
    let mut heap = Ralloc::new(os.brk);
    let one = malloc(&mut heap, &mut os, std::mem::size_of::<usize>()).unwrap();
    assert_eq!(one, BASE + BLOCK_SIZE);
    assert_eq!(heap.base(), BASE);
    let two = malloc(&mut heap, &mut os, std::mem::size_of::<u32>()).unwrap();
    assert_eq!(two, BASE + BLOCK_SIZE + 8 + BLOCK_SIZE);
    assert_eq!(chain(&heap), vec![(BASE, 8, false), (BASE + 48, 4, false)]);
}

#[test]
fn allocate_zeroed() {
    let mut os = Os::new(4096);
    let mut heap = Ralloc::new(os.brk);
    let ptr = malloc(&mut heap, &mut os, 1024).unwrap();
    os.write(ptr, &[0u8; 1024]);
    for b in os.read(ptr, 1024) {
        assert_eq!(b, 0);
    }
    free(&mut heap, &mut os, ptr);
    assert_eq!(os.brk, BASE);
}

#[test]
fn write_read_free_and_allocate_again() {
    let mut os = Os::new(4096);
    let mut heap = Ralloc::new(os.brk);
    let other = malloc(&mut heap, &mut os, 4).unwrap();
    os.write(other, &77u32.to_le_bytes());
    let ptr = malloc(&mut heap, &mut os, 4).unwrap();
    os.write(ptr, &10u32.to_le_bytes());
    assert_eq!(os.read(ptr, 4), 10u32.to_le_bytes());
    free(&mut heap, &mut os, ptr);
    let again = malloc(&mut heap, &mut os, 4).unwrap();
    os.write(again, &11u32.to_le_bytes());
    assert_eq!(os.read(again, 4), 11u32.to_le_bytes());
    assert_eq!(os.read(other, 4), 77u32.to_le_bytes());
    assert_ne!(again, other);
}

#[test]
fn freed_middle_block_is_reused_first() {
    let mut os = Os::new(4096);
    let mut heap = Ralloc::new(os.brk);
    let a = malloc(&mut heap, &mut os, 16).unwrap();
    let b = malloc(&mut heap, &mut os, 16).unwrap();
    let c = malloc(&mut heap, &mut os, 16).unwrap();
    let end = os.brk;
    free(&mut heap, &mut os, b);
    assert_eq!(chain(&heap), vec![(a - 40, 16, false), (b - 40, 16, true), (c - 40, 16, false)]);
    let d = malloc(&mut heap, &mut os, 8).unwrap();
    assert_eq!(d, b);
    assert_eq!(os.brk, end);
    // Sixteen bytes leave no room for a header behind eight: the block is
    // handed out whole.
    assert_eq!(chain(&heap), vec![(a - 40, 16, false), (b - 40, 16, false), (c - 40, 16, false)]);
}

#[test]
fn reallocate_keeps_the_first_bytes() {
    let mut os = Os::new(4096);
    let mut heap = Ralloc::new(os.brk);
    let old = malloc(&mut heap, &mut os, 4).unwrap();
    os.write(old, &[1, 2, 3, 4]);
    let new = malloc(&mut heap, &mut os, 64).unwrap();
    let (plan, shrink) = heap.realloc(old, 4, 64, new);
    assert_eq!((plan.from, plan.to, plan.count), (old, new, 4));
    assert!(plan.from + plan.count <= plan.to || plan.to + plan.count <= plan.from);
    let bytes = os.read(plan.from, plan.count);
    os.write(plan.to, &bytes);
    assert_eq!(shrink, None);
    assert_eq!(os.read(new, 4), vec![1, 2, 3, 4]);
    assert_eq!(chain(&heap), vec![(BASE, 4, true), (BASE + 44, 64, false)]);
}

#[test]
fn reallocate_to_a_smaller_block_copies_the_smaller_size() {
    let mut os = Os::new(4096);
    let mut heap = Ralloc::new(os.brk);
    let old = malloc(&mut heap, &mut os, 64).unwrap();
    let new = malloc(&mut heap, &mut os, 8).unwrap();
    let (plan, _) = heap.realloc(old, 64, 8, new);
    assert_eq!(plan.count, 8);
}

#[test]
fn allocate_then_free_restores_the_break() {
    let mut os = Os::new(4096);
    let mut heap = Ralloc::new(os.brk);
    let keep = malloc(&mut heap, &mut os, 24).unwrap();
    let before = chain(&heap);
    let boundary = os.brk;
    let ptr = malloc(&mut heap, &mut os, 100).unwrap();
    assert_eq!(ptr, boundary + BLOCK_SIZE);
    assert_eq!(os.brk, boundary + BLOCK_SIZE + 100);
    free(&mut heap, &mut os, ptr);
    assert_eq!(os.brk, boundary);
    assert_eq!(heap.current_brk(), boundary);
    assert_eq!(chain(&heap), before);
    free(&mut heap, &mut os, keep);
    assert_eq!(os.brk, BASE);
    assert_eq!(heap.base(), NULL);
}

#[test]
fn large_free_block_is_split() {
    let mut os = Os::new(4096);
    let mut heap = Ralloc::new(os.brk);
    let a = malloc(&mut heap, &mut os, 200).unwrap();
    let b = malloc(&mut heap, &mut os, 8).unwrap();
    free(&mut heap, &mut os, a);
    let c = malloc(&mut heap, &mut os, 20).unwrap();
    assert_eq!(c, a);
    // 200 = 20 + 40 + 140
    assert_eq!(
        chain(&heap),
        vec![(BASE, 20, false), (BASE + 60, 140, true), (b - 40, 8, false)]
    );
    // A remainder of exactly a header and four bytes is still split off.
    let d = malloc(&mut heap, &mut os, 96).unwrap();
    assert_eq!(d, BASE + 60 + 40);
    assert_eq!(
        chain(&heap),
        vec![(BASE, 20, false), (BASE + 60, 96, false), (BASE + 196, 4, true), (b - 40, 8, false)]
    );
}

#[test]
fn remainder_below_a_header_and_four_bytes_is_not_split() {
    let mut os = Os::new(4096);
    let mut heap = Ralloc::new(os.brk);
    let a = malloc(&mut heap, &mut os, 100).unwrap();
    let b = malloc(&mut heap, &mut os, 8).unwrap();
    free(&mut heap, &mut os, a);
    // 100 - 60 = 40 < 44
    let c = malloc(&mut heap, &mut os, 60).unwrap();
    assert_eq!(c, a);
    assert_eq!(chain(&heap), vec![(BASE, 100, false), (b - 40, 8, false)]);
}

#[test]
fn free_joins_both_neighbours() {
    let mut os = Os::new(4096);
    let mut heap = Ralloc::new(os.brk);
    let a = malloc(&mut heap, &mut os, 16).unwrap();
    let b = malloc(&mut heap, &mut os, 16).unwrap();
    let c = malloc(&mut heap, &mut os, 16).unwrap();
    let d = malloc(&mut heap, &mut os, 16).unwrap();
    free(&mut heap, &mut os, a);
    free(&mut heap, &mut os, c);
    assert_eq!(
        chain(&heap),
        vec![(a - 40, 16, true), (b - 40, 16, false), (c - 40, 16, true), (d - 40, 16, false)]
    );
    free(&mut heap, &mut os, b);
    // 16 + 40 + 16 + 40 + 16
    assert_eq!(chain(&heap), vec![(a - 40, 128, true), (d - 40, 16, false)]);
    free(&mut heap, &mut os, d);
    assert_eq!(heap.base(), NULL);
    assert_eq!(os.brk, BASE);
}

#[test]
fn out_of_memory_changes_nothing() {
    let mut os = Os::new(100);
    let mut heap = Ralloc::new(os.brk);
    let a = malloc(&mut heap, &mut os, 16).unwrap();
    let before = chain(&heap);
    assert_eq!(malloc(&mut heap, &mut os, 16), Err(AllocError::OutOfMemory));
    assert_eq!(chain(&heap), before);
    assert_eq!(heap.current_brk(), os.brk);
    assert_eq!(malloc(&mut heap, &mut os, usize::MAX), Err(AllocError::OutOfMemory));
    free(&mut heap, &mut os, a);
    assert_eq!(os.brk, BASE);
}

#[test]
fn a_break_that_stays_keeps_the_free_block_at_the_end() {
    let mut os = Os::new(4096);
    let mut heap = Ralloc::new(os.brk);
    let a = malloc(&mut heap, &mut os, 16).unwrap();
    let b = malloc(&mut heap, &mut os, 16).unwrap();
    let target = heap.free(b).unwrap();
    assert_eq!(target, b - BLOCK_SIZE);
    // The system does not move the break.
    heap.free_shrunk(target, os.brk);
    assert_eq!(chain(&heap), vec![(a - 40, 16, false), (b - 40, 16, true)]);
    // The free block at the end is found again.
    assert_eq!(malloc(&mut heap, &mut os, 12), Ok(b));
}

#[test]
fn block_helpers() {
    assert_eq!(Block::get_block(BASE + BLOCK_SIZE), BASE);
    assert_eq!(Block::data_of(BASE), BASE + BLOCK_SIZE);
    assert_eq!(Block::need_size(4), 44);
    assert_eq!(Block::need_size(5), 48);
    let b = Block::from_raw(BASE, 12, NULL);
    assert_eq!(b.as_raw(), BASE);
    assert_eq!((b.size, b.next, b.prev), (12, NULL, NULL));
    assert!(b.free == BlockState::InUse);
    let plan = Block::copy_block(BASE, BASE + 100, 7);
    assert_eq!((plan.from, plan.to, plan.count), (BASE + 40, BASE + 140, 7));
}
