use sfinder_lib::sfinder_core::field::field::Field;
use sfinder_lib::sfinder_core::field::field_factory;
use std::cmp::Ordering;

#[test]
fn fields_compare_by_lowest_differing_board() {
    let mut low = field_factory::create_field(12);
    let mut high = field_factory::create_field(12);
    low.set_block(0, 0);
    high.set_block(0, 7);
    assert_eq!(low.partial_cmp(&high), Some(Ordering::Greater));
    assert_eq!(high.partial_cmp(&low), Some(Ordering::Less));
}

#[test]
fn fields_of_different_heights_with_same_blocks_are_equal() {
    let mut small = field_factory::create_field(6);
    let mut large = field_factory::create_field(24);
    small.set_block(3, 2);
    large.set_block(3, 2);
    assert_eq!(small.partial_cmp(&large), Some(Ordering::Equal));
    assert!(small == large);
    large.set_block(3, 20);
    assert_eq!(small.partial_cmp(&large), Some(Ordering::Less));
}
