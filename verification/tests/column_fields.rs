use sfinder_lib::sfinder_core::column_field::column_field::{ColumnBoards, ColumnField};
use sfinder_lib::sfinder_core::column_field::column_field_factory;
use sfinder_lib::sfinder_core::column_field::column_field_view::to_string;
use sfinder_lib::sfinder_core::column_field::column_small_field::ColumnSmallField;

fn assert_partialord_symmetric<T: PartialOrd + std::fmt::Debug>(a: T, b: T) {
    let ab = a.partial_cmp(&b);
    let ba = b.partial_cmp(&a);
    assert_ne!(ab, Some(std::cmp::Ordering::Equal));
    assert_eq!(ab.map(|o| o.reverse()), ba);
}

#[test]
fn create_field() {
    assert_eq!(
        column_field_factory::create_small_field().get_num_of_all_blocks(),
        0
    );
}

#[test]
fn create_field1() {
    let field = column_field_factory::create_small_field_from_inner(&[0b1110]);
    assert_eq!(field.get_num_of_all_blocks(), 3);
    assert!(field.is_empty(0, 0, 4));
    assert!(!field.is_empty(0, 1, 4));
    assert!(!field.is_empty(0, 2, 4));
    assert!(!field.is_empty(0, 3, 4));
    assert!(field.is_empty(1, 0, 4));
}

#[test]
fn create_field_2() {
    assert_eq!(
        column_field_factory::create_small_field_from_inner(&[]).get_num_of_all_blocks(),
        0
    );
}

#[test]
fn create_field_3() {
    let field = column_field_factory::create_small_field_from_inner(&[0b1010101]);
    assert_eq!(field.get_num_of_all_blocks(), 4);
    assert!(!field.is_empty(0, 0, 4));
    assert!(field.is_empty(0, 1, 4));
    assert!(!field.is_empty(0, 2, 4));
    assert!(field.is_empty(0, 3, 4));
    assert!(!field.is_empty(1, 0, 4));
}

#[test]
fn create_field_4() {
            let field = column_field_factory::create_small_field_with_marks(
        String::new()
            + "_X_"
            + "__X"
            + "_X_"
            + "X__",
        4
    );

    assert_eq!(field.get_num_of_all_blocks(), 4);
    assert!(!field.is_empty(0, 0, 4));
    assert!(field.is_empty(0, 1, 4));
    assert!(field.is_empty(0, 2, 4));
    assert!(field.is_empty(0, 3, 4));
}

#[test]
fn test() {
    let height = 4;
    let width = 3;

    let mut field = column_field_factory::create_small_field();
    field.set_block(0, 0, height);
    field.set_block(1, 1, height);
    field.set_block(2, 2, height);
    field.set_block(1, 3, height);

            let expect = [
        "_X_",
        "__X",
        "_X_",
        "X__"
    ].join("\n");

    assert_eq!(to_string(&field, width, height), expect);
}

#[test]
fn set_block() {
    let mut field = ColumnSmallField::new();
    let height = 4;

    assert!(field.is_empty(0, 0, height));
    field.set_block(0, 0, height);
    assert!(!field.is_empty(0, 0, height));
    field.remove_block(0, 0, height);
    assert!(field.is_empty(0, 0, height));
}

#[test]
fn get_board() {
    let mut field = ColumnSmallField::new();
    let height = 4;

    assert_eq!(field.get_board(0), 0);
    field.set_block(0, 0, height);
    assert_eq!(field.get_board(0), 1);
}

#[test]
fn get_board_count() {
    let height = 4;
            let field = column_field_factory::create_small_field_with_marks(
        String::new()
        + "XX_"
        + "___"
        + "X__"
        + "_X_",
        height,
    );
    assert_eq!(field.get_board_count(), 1);
}

#[test]
fn get_num_of_all_blocks() {
    let height = 4;
            let field = column_field_factory::create_small_field_with_marks(
        String::new()
        + "XX_"
        + "___"
        + "X__"
        + "_X_",
        height,
    );
    assert_eq!(field.get_num_of_all_blocks(), 4);
}

#[test]
fn merge() {
    let height = 4;
            let mut field1 = column_field_factory::create_small_field_with_marks(
        String::new()
        + "XX_"
        + "___"
        + "X__"
        + "_X_",
        height,
    );
            let field2 = column_field_factory::create_small_field_with_marks(
        String::new()
        + "___"
        + "__X"
        + "X__"
        + "___",
        height,
    );
            let expect = column_field_factory::create_small_field_with_marks(
        String::new()
        + "XX_"
        + "__X"
        + "X__"
        + "_X_",
        height,
    );

    field1.merge(&field2);

    assert_eq!(field1, expect);
}

#[test]
fn reduce() {
    let height = 4;
            let mut field1 = column_field_factory::create_small_field_with_marks(
        String::new()
        + "XX_"
        + "_XX"
        + "XX_"
        + "_XX",
        height,
    );
            let field2 = column_field_factory::create_small_field_with_marks(
        String::new()
        + "_X_"
        + "_X_"
        + "_X_"
        + "_X_",
        height,
    );
            let expect = column_field_factory::create_small_field_with_marks(
        String::new()
        + "X__"
        + "__X"
        + "X__"
        + "__X",
        height,
    );

    field1.reduce(&field2);

    assert_eq!(field1, expect);
}

#[test]
fn can_merge_1() {
    let height = 4;
            let field1 = column_field_factory::create_small_field_with_marks(
        String::new()
        + "XX_"
        + "___"
        + "X__"
        + "_X_",
        height,
    );
            let field2 = column_field_factory::create_small_field_with_marks(
        String::new()
        + "___"
        + "__X"
        + "X__"
        + "___",
        height,
    );

    assert!(!field1.can_merge(&field2));
}

#[test]
fn can_merge_2() {
    let height = 4;
            let field1 = column_field_factory::create_small_field_with_marks(
        String::new()
        + "XX_"
        + "___"
        + "X__"
        + "_X_",
        height,
    );
            let field2 = column_field_factory::create_small_field_with_marks(
        String::new()
        + "___"
        + "__X"
        + "__X"
        + "__X",
        height,
    );

    assert!(field1.can_merge(&field2));
}

#[test]
fn freeze() {
    let height = 4;
            let field = column_field_factory::create_small_field_with_marks(
        String::new()
        + "XX_"
        + "___"
        + "X__"
        + "_X_",
        height,
    );
    let mut freeze = field.prune();

    freeze.set_block(0, 2, height);
    freeze.set_block(0, 3, height);

            let expect = column_field_factory::create_small_field_with_marks(
        String::new()
        + "XX_"
        + "___"
        + "X__"
        + "_X_",
        height,
    );

    assert_ne!(freeze, expect);
    assert_eq!(field, expect);
}

#[test]
fn equals() {
    let height = 4;
            let field1 = column_field_factory::create_small_field_with_marks(
        String::new()
        + "XX_"
        + "___"
        + "X__"
        + "_X_",
        height,
    );
            let field2 = column_field_factory::create_small_field_with_marks(
        String::new()
        + "XX_"
        + "___"
        + "X__"
        + "_X_",
        height,
    );
            let field3 = column_field_factory::create_small_field_with_marks(
        String::new()
        + "XX_"
        + "__X"
        + "__X"
        + "XX_",
        height,
    );

    assert_eq!(field1, field2);
    assert_eq!(field2, field1);
    assert_ne!(field1, field3);
    assert_ne!(field3, field1);
}

#[test]
fn hash_code_1() {
    let height = 4;
            let field1 = column_field_factory::create_small_field_with_marks(
        String::new()
        + "XX_"
        + "___"
        + "X__"
        + "_X_",
        height,
    );
            let field2 = column_field_factory::create_small_field_with_marks(
        String::new()
        + "XX_"
        + "___"
        + "X__"
        + "_X_", height,
    );
            let field3 = column_field_factory::create_small_field_with_marks(
        String::new()
        + "XX_"
        + "__X"
        + "__X"
        + "XX_", height,
    );

    assert_eq!(field1.hash_code(), field2.hash_code());
    assert_ne!(field1.hash_code(), field3.hash_code());
}

#[test]
fn compare_to() {
    let height = 4;
            let field1 = column_field_factory::create_small_field_with_marks(
        String::new()
        + "XX_"
        + "___"
        + "X__"
        + "_X_", height,
    );
            let field2 = column_field_factory::create_small_field_with_marks(
        String::new()
        + "XX_"
        + "___"
        + "X__"
        + "_X_", height,
    );
            let field3 = column_field_factory::create_small_field_with_marks(
        String::new()
        + "XX_"
        + "__X"
        + "__X"
        + "XX_", height,
    );

    assert_eq!(field1.partial_cmp(&field2), Some(std::cmp::Ordering::Equal));
    assert_eq!(field2.partial_cmp(&field1), Some(std::cmp::Ordering::Equal));
    assert_partialord_symmetric(field3, field1);
}

#[test]
fn marks_beyond_ten_rows_wrap_around() {
    let field = column_field_factory::create_small_field_with_marks(String::from("X") + &"_".repeat(10), 11);
    assert_eq!(field.get_board(0), 1 << 10);
    assert_eq!(field.get_board(1), 0);
}

#[test]
fn set_then_remove_and_merge_then_reduce() {
    let mut field = column_field_factory::create_small_field_from_inner(&[0b1001]);
    field.set_block(1, 2, 4);
    assert!(!field.is_empty_block(1, 2, 4));
    field.remove_block(1, 2, 4);
    assert_eq!(field, ColumnSmallField::from(0b1001));

    let other = ColumnSmallField::from(0b0110);
    assert!(field.can_merge(&other));
    field.merge(&other);
    assert_eq!(field.get_num_of_all_blocks(), 4);
    field.reduce(&other);
    assert_eq!(field, ColumnSmallField::from(0b1001));
}
