use parallel_code_splitter::mask::OrdinalMask;

#[test]
fn mask_holds_what_was_set() {
    let mut mask = OrdinalMask::new();
    assert!(!mask.bit(0));
    mask.set_bit(0);
    mask.set_bit(70);
    assert!(mask.bit(0) && mask.bit(70));
    assert!(!mask.bit(1) && !mask.bit(69) && !mask.bit(71));
    assert!(!mask.bit(u64::MAX));
}

#[test]
fn setting_a_bit_twice_changes_nothing() {
    let mut once = OrdinalMask::new();
    once.set_bit(5);
    let mut twice = once.duplicate();
    twice.set_bit(5);
    assert!(once.same_as(&twice));
}

#[test]
fn a_duplicate_goes_its_own_way() {
    let mut mask = OrdinalMask::new();
    mask.set_bit(3);
    let mut copy = mask.duplicate();
    assert!(copy.bit(3) && copy.same_as(&mask));
    copy.set_bit(128);
    assert!(!mask.bit(128));
    assert!(!mask.same_as(&copy) && !copy.same_as(&mask));
    mask.set_bit(128);
    assert!(mask.same_as(&copy));
}

#[test]
fn the_order_of_setting_does_not_matter() {
    let mut up = OrdinalMask::new();
    let mut down = OrdinalMask::new();
    for i in 0..200 {
        up.set_bit(i);
        down.set_bit(199 - i);
    }
    assert!(up.same_as(&down));
    assert!(!up.same_as(&OrdinalMask::new()));
}
