use ralloc::breaks::{flag_taken, sbrk, BrkState, Mutex};
use ralloc::mmap::{
    mmap, page_round, MMap, MAP_ANON, MAP_FAILED, MAP_PRIVATE, PAGE_SIZE, PROT_READ, PROT_WRITE,
};
use ralloc::semaphore::Semaphore;

#[test]
fn break_is_taken_from_the_first_report_only() {
    let mut state = BrkState::new();
    assert_eq!(state.cached(), None);
    assert_eq!(state.target(16), None);
    assert_eq!(state.current_brk(0x5000), 0x5000);
    assert_eq!(state.current_brk(0x9000), 0x5000);
    assert_eq!(state.cached(), Some(0x5000));
}

#[test]
fn grow_returns_the_old_break() {
    let mut state = BrkState::new();
    state.current_brk(0x5000);
    assert_eq!(state.target(0x100), Some(0x5100));
    assert_eq!(state.sbrk(0x100, 0x5100), Ok(0x5000));
    assert_eq!(state.cached(), Some(0x5100));
    assert_eq!(state.target(-0x80), Some(0x5080));
    assert_eq!(sbrk(&mut state, -0x80, 0x5080), Ok(0x5100));
    assert_eq!(state.cached(), Some(0x5080));
    assert_eq!(state.sbrk(0, 0x5080), Ok(0x5080));
}

#[test]
fn a_break_that_did_not_move_is_a_failure() {
    let mut state = BrkState::new();
    state.current_brk(0x5000);
    assert_eq!(state.sbrk(0x100, 0x5000), Err(()));
    assert_eq!(state.cached(), Some(0x5000));
    assert_eq!(state.moved(0x6000, 0x5fff), Err(()));
    assert_eq!(state.cached(), Some(0x5000));
    assert_eq!(state.moved(0x6000, 0x6000), Ok(0x5000));
}

#[test]
fn targets_that_are_no_address() {
    let mut state = BrkState::new();
    state.current_brk(0x5000);
    assert_eq!(state.target(-0x5000), None);
    assert_eq!(state.target(-0x5001), None);
    assert_eq!(state.target(isize::MIN), None);
    assert_eq!(state.target(-0x4fff), Some(1));
    let mut high = BrkState::new();
    high.current_brk(usize::MAX - 1);
    assert_eq!(high.target(1), Some(usize::MAX));
    assert_eq!(high.target(2), None);
}

#[test]
fn lock_is_held_until_it_is_given_back() {
    let m = Mutex::new();
    let g = m.lock();
    assert!(g.is_some());
    assert!(m.lock().is_none());
    g.unwrap().unlock();
    let again = m.lock();
    assert!(again.is_some());
    again.unwrap().unlock();
}

#[test]
fn semaphore_is_held_until_it_is_given_back() {
    let s = Semaphore::<u64>::empty();
    let g = s.lock().unwrap();
    assert!(g.target().is_null());
    assert!(s.lock().is_none());
    g.unlock();
    assert!(s.lock().is_some());
}

#[test]
fn mapping_requests_whole_private_pages() {
    assert!(MMap::request(0).is_none());
    assert!(MMap::request(-1).is_none());
    let q = MMap::request(10).unwrap();
    assert_eq!(q.length, 4096);
    assert_eq!(q.prot, PROT_READ | PROT_WRITE);
    assert_eq!(q.flags, MAP_PRIVATE | MAP_ANON);
    assert_eq!(MMap::request(4096).unwrap().length, 4096);
    assert_eq!(MMap::request(4097).unwrap().length, 8192);
    assert_eq!(page_round(0), Some(0));
    assert_eq!(page_round(1), Some(PAGE_SIZE));
    assert_eq!(page_round(usize::MAX), None);
    assert_eq!(page_round(usize::MAX - 4094), None);
    assert_eq!(page_round(usize::MAX - 4095), Some(usize::MAX - 4095));
}

#[test]
fn mapping_outcome() {
    let mut state = MMap::new();
    assert_eq!(state.mmap(10, 0x7000_0000), Ok(0x7000_0000));
    assert_eq!(state.mmap(10, MAP_FAILED), Err(()));
    assert_eq!(mmap(&mut state, 10, 0x7000_1000), Ok(0x7000_1000));
}

#[test]
fn the_lock_is_taken_where_the_flag_was_raised() {
    assert!(flag_taken(Ok(false)));
    assert!(!flag_taken(Err(true)));
}
