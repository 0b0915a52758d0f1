use sfinder_lib::sfinder_core::field::field::Field;
use sfinder_lib::sfinder_core::field::field_factory;
use sfinder_lib::sfinder_core::field::field_view;

#[test]
fn to_string_draws_every_row() {
    let field = field_factory::create_field_with_marks(String::new() + "X_________" + "__XX______");
    let expect = String::new()
        + "__________\n"
        + "__________\n"
        + "__________\n"
        + "__________\n"
        + "X_________\n"
        + "__XX______\n";
    assert_eq!(field_view::to_string(&field), expect);
}

#[test]
fn to_string_with_height_draws_the_lowest_rows() {
    let mut field = field_factory::create_field(12);
    field.set_block(9, 0);
    field.set_block(0, 1);
    assert_eq!(
        field_view::to_string_with_height(&field, 3),
        String::new() + "__________\n" + "X_________\n" + "_________X\n"
    );
}

#[test]
fn to_reduced_string_skips_empty_top_rows() {
    let field = field_factory::create_field_with_marks(String::new() + "X_________" + "__________" + "__XX______");
    assert_eq!(
        field_view::to_reduced_string(&field),
        String::new() + "X_________\n" + "__________\n" + "__XX______"
    );
}

#[test]
fn to_reduced_string_of_empty_field_is_empty() {
    let field = field_factory::create_field(24);
    assert_eq!(field_view::to_reduced_string(&field), "");
}
