use ralloc::util::{align, extra_brk, MIN_ALIGN};

#[test]
fn align_rounds_up_to_four() {
    assert_eq!(align(1), 4);
    assert_eq!(align(3), 4);
    assert_eq!(align(4), 4);
    assert_eq!(align(5), 8);
    assert_eq!(align(40), 40);
    assert_eq!(align(41), 44);
    for s in 1usize..2000 {
        let a = align(s) as usize;
        assert_eq!(a % 4, 0);
        assert!(a >= s && a < s + 4);
    }
    assert_eq!(align(isize::MAX as usize - 3), isize::MAX - 3);
}

#[test]
fn extra_brk_is_twice_the_size_between_its_bounds() {
    assert_eq!(extra_brk(0), 1024);
    assert_eq!(extra_brk(512), 1024);
    assert_eq!(extra_brk(513), 1026);
    assert_eq!(extra_brk(1000), 2000);
    assert_eq!(extra_brk(32767), 65534);
    assert_eq!(extra_brk(32768), 65536);
    assert_eq!(extra_brk(usize::MAX), 65536);
    assert_eq!(MIN_ALIGN, 16);
}
