use sfinder_lib::sfinder_core::field::any_field::AnyField;
use sfinder_lib::sfinder_core::field::field::{Field, FieldBoards};
use sfinder_lib::sfinder_core::field::field_constants::{BoardCount, BOARD_HEIGHT, FIELD_WIDTH};
use sfinder_lib::sfinder_core::field::field_factory;
use sfinder_lib::sfinder_core::field::field_factory::create_field_with_marks;
use sfinder_lib::sfinder_core::field::large_field::{self, LargeField};
use sfinder_lib::sfinder_core::field::middle_field::{self, MiddleField};
use sfinder_lib::sfinder_core::field::small_field;
use sfinder_lib::sfinder_core::mino::mino::Mino;
use sfinder_lib::sfinder_core::mino::mino_factory::MinoFactory;
use sfinder_lib::sfinder_core::mino::piece::Piece;
use sfinder_lib::sfinder_core::neighbor::original_piece::create_all_pieces;
use sfinder_lib::sfinder_core::srs::rotate::Rotate;

/// Every sequence of `n` flags.
fn walk(n: u8) -> Vec<Vec<bool>> {
    let mut result = vec![vec![]];
    for _ in 0..n {
        let mut next = Vec::new();
        for flags in result {
            let mut with_true = flags.clone();
            with_true.push(true);
            let mut with_false = flags;
            with_false.push(false);
            next.push(with_true);
            next.push(with_false);
        }
        result = next;
    }
    result
}

#[test]
fn small_field_test_get_max_field_height() {
    assert_eq!(
        field_factory::create_small_field().get_max_field_height(),
        small_field::MAX_FIELD_HEIGHT
    );
}

#[test]
fn small_field_test_put_and_remove_block() {
    let mut field = field_factory::create_small_field();
    assert!(field.is_empty_block(0, 0));
    field.set_block(0, 0);
    assert!(!field.is_empty_block(0, 0));
    field.remove_block(0, 0);
    assert!(field.is_empty_block(0, 0));
}

#[test]
fn small_field_test_put_and_remove_mino() {
    let mut field = field_factory::create_small_field();
    field.put(&Mino::new(Piece::T, Rotate::Spawn), 1, 0);
    assert!(!field.is_empty_block(0, 0));
    assert!(!field.is_empty_block(1, 0));
    assert!(!field.is_empty_block(2, 0));
    assert!(!field.is_empty_block(1, 1));

    field.remove(&Mino::new(Piece::T, Rotate::Spawn), 1, 0);
    assert!(field.is_empty());
}

#[test]
fn small_field_test_put_and_remove_piece() {
    let mut field = field_factory::create_small_field();
    let field_height = field.get_max_field_height();

    for piece in create_all_pieces(&MinoFactory::new(), field_height) {
        // Initialize
        let mino = piece.get_mino();
        let x = piece.get_x();
        let y = piece.get_y();

        // Expect
        let mut expected = field_factory::create_small_field();
        expected.put(mino, x, y);

        // Test
        field.put_piece(&piece);

        assert_eq!(field, expected);

        field.remove_piece(&piece);

        assert!(field.is_empty());
    }
}

#[test]
fn small_field_test_get_y_on_harddrop() {
    let field = field_factory::create_small_field_with_marks(String::new() +
        "__________" +
        "_________X" +
        "____X_____"
    );

    let mino = Mino::new(Piece::T, Rotate::Spawn);
    assert_eq!(field.get_y_on_harddrop(&mino, 1, 4), 0);
    assert_eq!(field.get_y_on_harddrop(&mino, 3, 4), 1);
    assert_eq!(field.get_y_on_harddrop(&mino, 8, 4), 2);
}

#[test]
fn small_field_test_can_reach_on_harddrop() {
    let field = field_factory::create_small_field_with_marks(String::new() +
        "x_________" +
        "_________X" +
        "____X_____"
    );

    let mino = Mino::new(Piece::T, Rotate::Spawn);
    assert!(field.can_reach_on_harddrop(&mino, 1, 4));
    assert!(field.can_reach_on_harddrop(&mino, 1, 3));
    assert!(!field.can_reach_on_harddrop(&mino, 1, 1));
}

#[test]
fn test_exist_above() {
    let field = field_factory::create_small_field_with_marks(
        String::new()
            + "__________"
            + "__________"
            + "___X______"
            + "__________"
            + "_______X__"
            + "__________",
    );

    assert!(field.exists_above_row(0));
    assert!(field.exists_above_row(1));
    assert!(field.exists_above_row(2));
    assert!(field.exists_above_row(3));
    assert!(!field.exists_above_row(4));
    assert!(!field.exists_above_row(5));
}

#[test]
fn small_field_test_is_perfect() {
    let mut field = field_factory::create_small_field();

    assert!(field.is_empty_block(0, 0));
    assert!(field.is_empty());

    field.set_block(0, 0);

    assert!(!field.is_empty_block(0, 0));
    assert!(!field.is_empty());
}

#[test]
fn small_field_test_is_filled_in_column() {
    let field = field_factory::create_small_field_with_marks(
        String::new()
            + "____X_____"
            + "____X_____"
            + "___XX_____"
            + "__XXX_____"
            + "X__XX_____"
            + "__XXXX____",
    );

    assert!(!field.is_filled_in_column(0, 4));
    assert!(!field.is_filled_in_column(1, 4));
    assert!(!field.is_filled_in_column(2, 4));
    assert!(field.is_filled_in_column(3, 4));
    assert!(!field.is_filled_in_column(3, 6));
    assert!(field.is_filled_in_column(4, 4));
    assert!(field.is_filled_in_column(4, 6));
    assert!(field.is_filled_in_column(5, 0));
}

#[test]
fn small_field_test_is_wall_between_left() {
    let field = field_factory::create_small_field_with_marks(
        String::new()
            + "____X_____"
            + "____X_____"
            + "X__XX_____"
            + "_XXXX_____"
            + "XX_XX_____"
            + "_XXXXX____",
    );

    assert!(field.is_wall_between_left(1, 4));
    assert!(!field.is_wall_between_left(1, 5));
    assert!(field.is_wall_between_left(2, 3));
    assert!(!field.is_wall_between_left(2, 4));
    assert!(field.is_wall_between_left(2, 3));
    assert!(!field.is_wall_between_left(2, 4));
    assert!(field.is_wall_between_left(4, 6));
    assert!(field.is_wall_between_left(5, 6));
    assert!(!field.is_wall_between_left(6, 6));
}

#[test]
fn small_field_test_can_put_mino() {
    let field = field_factory::create_small_field_with_marks(
        String::new()
            + "___X______"
            + "___XX_____"
            + "__X_X_____"
            + "X___X_____"
            + "__X_XX____",
    );

    assert!(field.can_put(&Mino::new(Piece::T, Rotate::Spawn), 5, 4));
    assert!(field.can_put(&Mino::new(Piece::T, Rotate::Right), 1, 1));
    assert!(field.can_put(&Mino::new(Piece::T, Rotate::Reverse), 1, 3));
    assert!(field.can_put(&Mino::new(Piece::T, Rotate::Left), 3, 1));

    assert!(!field.can_put(&Mino::new(Piece::T, Rotate::Spawn), 3, 0));
    assert!(!field.can_put(&Mino::new(Piece::T, Rotate::Right), 0, 1));
    assert!(!field.can_put(&Mino::new(Piece::T, Rotate::Reverse), 1, 1));
    assert!(!field.can_put(&Mino::new(Piece::T, Rotate::Left), 1, 1));
}

#[test]
fn small_field_test_can_put_mino_2() {
    let field = field_factory::create_small_field_with_marks(
        String::new()
            + "XXXXXXXX_X"
            + "XXXXXXXX_X"
            + "XXXXXXXX_X"
            + "XXXXXXXX_X"
            + "XXXXXXXX_X"
            + "XXXXXXXX_X",
    );

    assert!(field.can_put(&Mino::new(Piece::I, Rotate::Left), 8, 1));
    assert!(field.can_put(&Mino::new(Piece::I, Rotate::Left), 8, 6));
    assert!(field.can_put(&Mino::new(Piece::I, Rotate::Left), 8, 7));
    assert!(field.can_put(&Mino::new(Piece::I, Rotate::Left), 8, 8));
    assert!(field.can_put(&Mino::new(Piece::I, Rotate::Left), 8, 9));
}

#[test]
fn small_field_test_is_on_ground() {
    let field = field_factory::create_small_field_with_marks(
        String::new()
            + "___X______"
            + "___XX_____"
            + "___XX_____"
            + "__X_X_____"
            + "X___X_____"
            + "__X_XX____",
    );

    assert!(field.is_on_ground(&Mino::new(Piece::T, Rotate::Spawn), 5, 5));
    assert!(field.is_on_ground(&Mino::new(Piece::T, Rotate::Right), 8, 1));
    assert!(field.is_on_ground(&Mino::new(Piece::T, Rotate::Reverse), 1, 3));
    assert!(field.is_on_ground(&Mino::new(Piece::T, Rotate::Left), 1, 2));

    assert!(!field.is_on_ground(&Mino::new(Piece::T, Rotate::Spawn), 6, 5));
    assert!(!field.is_on_ground(&Mino::new(Piece::T, Rotate::Spawn), 8, 1));
    assert!(!field.is_on_ground(&Mino::new(Piece::T, Rotate::Right), 8, 2));
    assert!(!field.is_on_ground(&Mino::new(Piece::T, Rotate::Reverse), 7, 3));
    assert!(!field.is_on_ground(&Mino::new(Piece::T, Rotate::Left), 9, 2));
}

#[test]
fn test_get_block_count_below_on_x() {
    let field = field_factory::create_small_field_with_marks(
        String::new()
            + "___XX_____"
            + "___XX_____"
            + "___XX_____"
            + "__X_X_____"
            + "X___X_____"
            + "__X_XX____",
    );

    assert_eq!(field.get_block_count_in_column(0, 1), 0);
    assert_eq!(field.get_block_count_in_column(0, 2), 1);
    assert_eq!(field.get_block_count_in_column(2, 4), 2);
    assert_eq!(field.get_block_count_in_column(3, 4), 1);
    assert_eq!(field.get_block_count_in_column(3, 6), 3);
    assert_eq!(field.get_block_count_in_column(4, 4), 4);
    assert_eq!(field.get_block_count_in_column(4, 6), 6);
}

#[test]
fn small_field_test_get_all_block_count() {
    let field = field_factory::create_small_field_with_marks(
        String::new()
            + "___XX_____"
            + "___XX_____"
            + "___XX_____"
            + "__X_X_____"
            + "X___X_____"
            + "__X_XX____",
    );

    assert_eq!(field.get_num_of_all_blocks(), 13);
}

#[test]
fn test_clear_line() {
    let mut field = field_factory::create_small_field_with_marks(
        String::new()
            + "XXX_XXXXXX"
            + "XXXXXXXXXX"
            + "X_XXXXXXXX"
            + "XXXXXXXXXX"
            + "XXXX_XXXXX"
            + "XXXXXXXXXX",
    );

    assert_eq!(field.clear_filled_rows(), 3);

    assert!(field.exists_above_row(2));
    assert!(!field.exists_above_row(3));

    assert!(!field.is_empty_block(0, 0));
    assert!(field.is_empty_block(4, 0));
    assert!(field.is_empty_block(1, 1));
    assert!(field.is_empty_block(3, 2));
}

#[test]
fn test_clear_line_2() {
    for remove_flags in walk(BOARD_HEIGHT) {
        let delete_rows = remove_flags.iter().filter(|&&flag| flag).count() as u8;

        let mut field = field_factory::create_small_field();
        for (index, &flag) in remove_flags.iter().enumerate() {
            if flag {
                for x in 0..FIELD_WIDTH {
                    field.set_block(x, index as u8);
                }
            } else {
                for x in 0..FIELD_WIDTH - 1 {
                    field.set_block(x, index as u8);
                }
            }
        }

        assert_eq!(field.clear_filled_rows(), delete_rows as u32);

        if delete_rows < small_field::MAX_FIELD_HEIGHT {
            assert!(field.exists_above_row(small_field::MAX_FIELD_HEIGHT - delete_rows - 1));
        }
        assert!(!field.exists_above_row(small_field::MAX_FIELD_HEIGHT - delete_rows));
    }
}

#[test]
fn test_clear_line_and_insert_black_line() {
    let mut field = field_factory::create_small_field_with_marks(
        String::new()
            + "XXX_XXXXXX"
            + "XXXXXXXXXX"
            + "X_XXXXXXXX"
            + "XXXXXXXXXX"
            + "XXXX_XXXXX"
            + "XXXXXXXXXX",
    );
    let freeze = field.prune(field.get_max_field_height());

    let delete_key = field.clear_filled_rows_return_key();
    assert_eq!(delete_key.count_ones(), 3);
    field.insert_filled_row_with_key(delete_key);

    for index in 0..freeze.get_board_count().len() {
        assert_eq!(field.get_board(index), freeze.get_board(index))
    }
}

#[test]
fn test_clear_line_and_insert_white_line() {
    let mut field = field_factory::create_small_field_with_marks(
        String::new()
            + "XXX_XXXXXX"
            + "XXXXXXXXXX"
            + "X_XXXXXXXX"
            + "XXXXXXXXXX"
            + "XXXX_XXXXX"
            + "XXXXXXXXXX",
    );

    let expected = field_factory::create_small_field_with_marks(
        String::new()
            + "XXX_XXXXXX"
            + "__________"
            + "X_XXXXXXXX"
            + "__________"
            + "XXXX_XXXXX"
            + "__________",
    );

    let delete_key = field.clear_filled_rows_return_key();
    assert_eq!(delete_key.count_ones(), 3);
    field.insert_blank_row_with_key(delete_key);

    for index in 0..expected.get_board_count().len() {
        assert_eq!(field.get_board(index), expected.get_board(index))
    }
}

#[test]
fn fill_line() {
    for y in 0..small_field::MAX_FIELD_HEIGHT {
        let mut field = field_factory::create_small_field();
        field.fill_row(y);

        for x in 0..FIELD_WIDTH {
            assert!(!field.is_empty_block(x, y));
        }

        field.clear_filled_rows();
        assert!(field.is_empty());
    }
}

#[test]
fn small_field_test_get_board() {
    let field = field_factory::create_small_field_with_marks(
        String::new()
            + "X_________"
            + "X_________"
            + "X_________"
            + "X_________",
    );

    assert_eq!(field.get_board_count(), BoardCount::Small);
    assert_eq!(field.get_board(0), field.get_x_board());
    assert_eq!(field.get_board(0), 0x40100401);

    for index in 1..100 {
        assert_eq!(field.get_board(index), 0);
    }
}

#[test]
fn small_field_test_freeze() {
    let mut field = field_factory::create_small_field_with_marks(
        String::new()
            + "X_________"
            + "X_________"
            + "X_________"
            + "X_________",
    );

    assert_eq!(field.get_num_of_all_blocks(), 4);
    let freeze = field.prune(field.get_max_field_height());
    field.set_block(9, 0);

    assert_eq!(field.get_num_of_all_blocks(), 5);
    assert_eq!(freeze.get_num_of_all_blocks(), 4);
}

#[test]
fn small_field_test_equal() {
    let marks = "XXXXXX____";
    let field1 = field_factory::create_small_field_with_marks(marks.to_string());
    let field2 = field_factory::create_small_field_with_marks(marks.to_string());
    assert_eq!(field1, field2);

    let field3 =
        field_factory::create_small_field_with_marks(String::new() + marks + "XXXXXX____");
    assert_ne!(field1, field3);

    let field4 = field_factory::create_middle_field_with_marks(marks.to_string());
    assert_eq!(AnyField::Small(field1), AnyField::Middle(field4));
}

#[test]
fn test_get_block_count_on_y() {
    let field = field_factory::create_small_field_with_marks(
        String::new()
            + "__________"
            + "X___XXX__X"
            + "X__X___XX_"
            + "X____X____"
            + "X_________",
    );
    assert_eq!(field.get_block_count_in_row(0), 1);
    assert_eq!(field.get_block_count_in_row(1), 2);
    assert_eq!(field.get_block_count_in_row(2), 4);
    assert_eq!(field.get_block_count_in_row(3), 5);
    assert_eq!(field.get_block_count_in_row(4), 0);
}

#[test]
fn small_field_test_can_merge_1() {
    let field1 = field_factory::create_small_field_with_marks(
        String::new()
            + "XXX_XXX__X"
            + "X__X___XX_"
            + "__________"
            + "__________"
    );
    let field2 = field_factory::create_small_field_with_marks(
        String::new()
            + "__________"
            + "__________"
            + "X__X_X_X__"
            + "XXX_XX___X"
    );

    assert!(field1.can_merge(&field2));
}

#[test]
fn small_field_test_can_merge_2() {
    let field1 = field_factory::create_small_field_with_marks(
        String::new()
            + "XXX_XXX__X"
            + "X__X___XX_"
            + "XXXXX_____"
            + "XXXXX_____"
    );
    let field2 = field_factory::create_small_field_with_marks(
        String::new()
            + "__________"
            + "__________"
            + "X__X_X_X__"
            + "XXX_XX___X"
    );

    assert!(!field1.can_merge(&field2));
}

#[test]
fn small_field_test_merge_1() {
    let mut field1 = field_factory::create_small_field_with_marks(
        String::new()
            + "XXX_XXX__X"
            + "X__X___XX_"
            + "__________"
            + "__________"
    );

    let field2 = field_factory::create_small_field_with_marks(
        String::new()
            + "__________"
            + "__________"
            + "X__X_X_X__"
            + "XXX_XX___X"
    );

    let field_expected = field_factory::create_small_field_with_marks(
        String::new()
            + "XXX_XXX__X"
            + "X__X___XX_"
            + "X__X_X_X__"
            + "XXX_XX___X"
    );

    field1.merge(&field2);
    assert_eq!(field1, field_expected);
    assert_ne!(field2, field_expected);
}

#[test]
fn small_field_test_merge_2() {
    let mut field1 = field_factory::create_small_field_with_marks(
        String::new()
            + "XXX_XXX__X"
            + "X__X___XX_"
            + "XXXXX_____"
            + "XXXXX_____"
    );

    let field2 = field_factory::create_small_field_with_marks(
        String::new()
            + "__________" 
            + "__________" 
            + "X__X_X_X__" 
            + "XXX_XX___X" 

    );

    let field_expected = field_factory::create_small_field_with_marks(
        String::new()
            + "XXX_XXX__X"
            + "X__X___XX_"
            + "XXXXXX_X__"
            + "XXXXXX___X"
    );

    field1.merge(&field2);
    assert_eq!(field1, field_expected);
    assert_ne!(field2, field_expected);
}

#[test]
fn small_field_test_reduce() {
    let mut field1 = field_factory::create_small_field_with_marks(
        String::new()
            + "XXXXXXXXX_"
            + "__________"
            + "__________"
            + "XXXXXXXXX_"
    );

    let field2 = field_factory::create_small_field_with_marks(
        String::new()
            + "XXXXX_____"
            + "_X___X____"
            + "X__X_X_X__"
            + "XXX_XX___X"
    );

    let field_expected = field_factory::create_small_field_with_marks(
        String::new()
            + "_____XXXX_"
            + "__________"
            + "__________"
            + "___X__XXX_"
    );

    field1.reduce(&field2);
    assert_eq!(field1, field_expected);
    assert_ne!(field2, field_expected);
}

#[test]
fn test_get_upper_ywith4_blocks() {
    let field = field_factory::create_small_field_with_marks(
        String::new()
            + "__________" 
            + "_____X____" 
            + "____XXX___" 
            + "__________" 
    );

    assert_eq!(field.get_upper_y_with_4_blocks(), 2);
}

#[test]
fn test_get_lower_y() {
    let field = field_factory::create_small_field_with_marks(
        String::new()
            + "__________"
            + "_____X____"
            + "____XXX___"
            + "__________"
    );
    assert_eq!(field.get_min_y(), Some(1));
}

#[test]
fn test_get_lower_y_with_empty() {
    assert_eq!(field_factory::create_small_field().get_min_y(), None);
}

#[test]
fn small_field_test_slide_left() {
    let mut field = field_factory::create_small_field_with_marks(
        String::new()
            + "__________"
            + "_____X____"
            + "____XXX___"
            + "__________"
    );

    field.slide_left(3);

    let field_expected = field_factory::create_small_field_with_marks(
        String::new()
            + "__________"
            + "__X_______"
            + "_XXX______"
            + "__________"
    );

    assert_eq!(field, field_expected);
}

#[test]
fn small_field_contains() {
    let parent = field_factory::create_small_field_with_marks(
        String::new()
            + "XXXXX_____"
            + "XXXXX_____"
            + "XXXXX_____"
            + "XXXXX_____"
    );

    let child1 = field_factory::create_small_field_with_marks(
        String::new()
            + "XXXXX_____"
            + "XXXXX_____"
            + "XXXXX_____"
            + "XXXXX_____"
    );
    let child2 = field_factory::create_small_field_with_marks(
        String::new()
            + "XXX_______"
            + "XXX_______"
            + "XXX_______"
    );
    let child3 = field_factory::create_small_field_with_marks(
        String::new()
            + "XXXXX_____"
            + "XXXXX_____"
            + "XXXXX__X__"
    );
    let child4 = field_factory::create_small_field_with_marks(
        String::new()
            + "__________"
            + "__________"
            + "__________"
            + "__________"
    );
    let child5 = field_factory::create_small_field_with_marks(
        String::new()
            + "XXXXXXXXXX"
            + "XXXXXXXXXX"
            + "XXXXXXXXXX"
            + "XXXXXXXXXX"
    );

    assert!(parent.contains(&child1));
    assert!(parent.contains(&child2));
    assert!(!parent.contains(&child3));
    assert!(parent.contains(&child4));
    assert!(!parent.contains(&child5));
}

#[test]
fn middle_field_test_get_max_field_height() {
    assert_eq!(MiddleField::new().get_max_field_height(), middle_field::MAX_FIELD_HEIGHT);
}

#[test]
fn middle_field_test_put_and_remove_block() {
    let mut field = field_factory::create_middle_field();
    assert!(field.is_empty_block(0, 0));
    field.set_block(0, 0);
    assert!(!field.is_empty_block(0, 0));
    field.remove_block(0, 0);
    assert!(field.is_empty_block(0, 0));

    assert!(field.is_empty_block(9, 9));
    field.set_block(9, 9);
    assert!(!field.is_empty_block(9, 9));
    field.remove_block(9, 9);
    assert!(field.is_empty_block(9, 9));
}

#[test]
fn middle_field_test_put_and_remove_mino() {
    let mut field = field_factory::create_middle_field();

    field.put(&Mino::new(Piece::T, Rotate::Spawn), 1, 0);
    assert!(!field.is_empty_block(0, 0));
    assert!(!field.is_empty_block(1, 0));
    assert!(!field.is_empty_block(2, 0));
    assert!(!field.is_empty_block(1, 1));

    field.put(&Mino::new(Piece::I, Rotate::Left), 4, 6);
    assert!(!field.is_empty_block(4, 5));
    assert!(!field.is_empty_block(4, 6));
    assert!(!field.is_empty_block(4, 7));
    assert!(!field.is_empty_block(4, 8));

    field.put(&Mino::new(Piece::O, Rotate::Spawn), 8, 8);
    assert!(!field.is_empty_block(8, 8));
    assert!(!field.is_empty_block(8, 9));
    assert!(!field.is_empty_block(9, 8));
    assert!(!field.is_empty_block(9, 9));

    field.remove(&Mino::new(Piece::T, Rotate::Spawn), 1, 0);
    field.remove(&Mino::new(Piece::I, Rotate::Left), 4, 6);
    field.remove(&Mino::new(Piece::O, Rotate::Spawn), 8, 8);

    assert!(field.is_empty());
}

#[test]
fn middle_field_test_put_and_remove_piece() {
    let mut field = field_factory::create_middle_field();
    let max_field_height = field.get_max_field_height();

    for piece in create_all_pieces(&MinoFactory::new(), max_field_height) {
        // Initialize
        let mino = piece.get_mino();
        let x = piece.get_x();
        let y = piece.get_y();

        // Expect
        let mut expected = field_factory::create_middle_field();
        expected.put(&mino, x, y);

        // Test
        field.put_piece(&piece);

        assert_eq!(field, expected);

        field.remove_piece(&piece);

        assert!(field.is_empty());
    }
}

#[test]
fn middle_field_test_get_y_on_harddrop() {
    let field = field_factory::create_middle_field_with_marks(
        String::new()
            + "X_________"
            + "__________"
            + "__________"
            + "__________"
            + "_________X"
            + "____X_____",
    );

    assert_eq!(field.get_y_on_harddrop(&Mino::new(Piece::T, Rotate::Spawn), 1, 10), 6);
    assert_eq!(field.get_y_on_harddrop(&Mino::new(Piece::T, Rotate::Spawn), 2, 10), 0);
    assert_eq!(field.get_y_on_harddrop(&Mino::new(Piece::T, Rotate::Spawn), 3, 10), 1);
    assert_eq!(field.get_y_on_harddrop(&Mino::new(Piece::T, Rotate::Spawn), 8, 10), 2);
}

#[test]
fn middle_field_test_can_reach_on_harddrop() {
    let field = field_factory::create_middle_field_with_marks(
        String::new()
            + "X_________"
            + "__________"
            + "__________"
            + "__________"
            + "__________"
            + "_________X"
            + "____X_____",
    );

    assert!(!field.can_reach_on_harddrop(&Mino::new(Piece::T, Rotate::Spawn), 1, 4));
    assert!(field.can_reach_on_harddrop(&Mino::new(Piece::T, Rotate::Spawn), 2, 4));
    assert!(field.can_reach_on_harddrop(&Mino::new(Piece::T, Rotate::Spawn), 2, 3));
    assert!(!field.can_reach_on_harddrop(&Mino::new(Piece::T, Rotate::Spawn), 1, 1));
}

#[test]
fn test_exist_above_row() {
    let field = field_factory::create_middle_field_with_marks(
        String::new()
            + "X_________"
            + "__________"
            + "__________"
            + "__________"
            + "___X______"
            + "__________"
            + "_______X__"
            + "__________",
    );

    assert!(field.exists_above_row(0));
    assert!(field.exists_above_row(6));
    assert!(field.exists_above_row(7));
    assert!(!field.exists_above_row(8));
    assert!(!field.exists_above_row(9));
}

#[test]
fn middle_field_test_is_perfect() {
    let mut field = field_factory::create_middle_field();

    assert!(field.is_empty_block(0, 0));
    assert!(field.is_empty());

    field.set_block(7, 8);

    assert!(!field.is_empty_block(7, 8));
    assert!(!field.is_empty());
}

#[test]
fn middle_field_test_is_filled_in_column() {
    let field = field_factory::create_middle_field_with_marks(
        String::new()
            + "____X_____"
            + "____X_____"
            + "____X_____"
            + "____X_____"
            + "____X_____"
            + "___XX_____"
            + "__XXX_____"
            + "X__XX_____"
            + "__XXXX____",
    );

    assert!(!field.is_filled_in_column(0, 4));
    assert!(!field.is_filled_in_column(1, 4));
    assert!(!field.is_filled_in_column(2, 4));
    assert!(field.is_filled_in_column(3, 4));
    assert!(!field.is_filled_in_column(3, 6));
    assert!(field.is_filled_in_column(4, 4));
    assert!(field.is_filled_in_column(4, 6));
    assert!(field.is_filled_in_column(4, 9));
    assert!(!field.is_filled_in_column(4, 10));
    assert!(!field.is_filled_in_column(5, 7));
}

#[test]
fn middle_field_test_is_wall_between_left() {
    let field = field_factory::create_middle_field_with_marks(
        String::new()
            + "____X_____"
            + "____X_____"
            + "____X_____"
            + "____X_____"
            + "____X_____"
            + "_X_XX_____"
            + "_XXXX_____"
            + "X_XXX_____"
            + "_XXXXX____",
    );

    assert!(field.is_wall_between_left(1, 4));
    assert!(!field.is_wall_between_left(1, 5));
    assert!(field.is_wall_between_left(2, 4));
    assert!(!field.is_wall_between_left(2, 5));
    assert!(field.is_wall_between_left(3, 4));
    assert!(!field.is_wall_between_left(3, 5));
    assert!(field.is_wall_between_left(4, 9));
    assert!(!field.is_wall_between_left(4, 10));
    assert!(field.is_wall_between_left(5, 9));
    assert!(!field.is_wall_between_left(5, 10));
    assert!(!field.is_wall_between_left(6, 6));
}

#[test]
fn middle_field_test_can_put_mino() {
    let field = field_factory::create_middle_field_with_marks(
        String::new()
            + "______X___"
            + "___X______"
            + "___XX_____"
            + "___XX_____"
            + "___XX_____"
            + "__X_X_____"
            + "X___X_____"
            + "__X_XX____",
    );

    assert!(field.can_put(&Mino::new(Piece::T, Rotate::Spawn), 4, 7));
    assert!(field.can_put(&Mino::new(Piece::T, Rotate::Spawn), 5, 6));
    assert!(field.can_put(&Mino::new(Piece::T, Rotate::Right), 1, 1));
    assert!(field.can_put(&Mino::new(Piece::T, Rotate::Reverse), 1, 3));
    assert!(field.can_put(&Mino::new(Piece::T, Rotate::Left), 3, 1));

    assert!(!field.can_put(&Mino::new(Piece::T, Rotate::Spawn), 5, 7));
    assert!(!field.can_put(&Mino::new(Piece::T, Rotate::Spawn), 4, 6));
    assert!(!field.can_put(&Mino::new(Piece::T, Rotate::Right), 0, 1));
    assert!(!field.can_put(&Mino::new(Piece::T, Rotate::Reverse), 1, 1));
    assert!(!field.can_put(&Mino::new(Piece::T, Rotate::Left), 1, 1));
}

#[test]
fn middle_field_test_can_put_mino_2() {
    let field = field_factory::create_middle_field_with_marks(
        String::new()
            + "XXXXXXXX_X"
            + "XXXXXXXX_X"
            + "XXXXXXXX_X"
            + "XXXXXXXX_X"
            + "XXXXXXXX_X"
            + "XXXXXXXX_X"
            + "XXXXXXXX_X"
            + "XXXXXXXX_X"
            + "XXXXXXXX_X"
            + "XXXXXXXX_X"
            + "XXXXXXXX_X"
            + "XXXXXXXX_X",
    );

    assert!(field.can_put(&Mino::new(Piece::I, Rotate::Left), 8, 1));
    assert!(field.can_put(&Mino::new(Piece::I, Rotate::Left), 8, 11));
    assert!(field.can_put(&Mino::new(Piece::I, Rotate::Left), 8, 12));
    assert!(field.can_put(&Mino::new(Piece::I, Rotate::Left), 8, 13));
    assert!(field.can_put(&Mino::new(Piece::I, Rotate::Left), 8, 14));
}

#[test]
fn middle_field_test_is_on_ground() {
    let field = field_factory::create_middle_field_with_marks(
        String::new()
            + "X_________"
            + "___X______"
            + "___XX_____"
            + "___XX_____"
            + "__X_X_____"
            + "X___X_____"
            + "__X_XX____",
    );

    assert!(field.is_on_ground(&Mino::new(Piece::T, Rotate::Spawn), 1, 7));
    assert!(field.is_on_ground(&Mino::new(Piece::T, Rotate::Spawn), 5, 5));
    assert!(field.is_on_ground(&Mino::new(Piece::T, Rotate::Right), 8, 1));
    assert!(field.is_on_ground(&Mino::new(Piece::T, Rotate::Reverse), 1, 3));
    assert!(field.is_on_ground(&Mino::new(Piece::T, Rotate::Left), 1, 2));

    assert!(!field.is_on_ground(&Mino::new(Piece::T, Rotate::Spawn), 1, 6));
    assert!(!field.is_on_ground(&Mino::new(Piece::T, Rotate::Spawn), 6, 5));
    assert!(!field.is_on_ground(&Mino::new(Piece::T, Rotate::Spawn), 8, 1));
    assert!(!field.is_on_ground(&Mino::new(Piece::T, Rotate::Right), 8, 2));
    assert!(!field.is_on_ground(&Mino::new(Piece::T, Rotate::Reverse), 7, 3));
    assert!(!field.is_on_ground(&Mino::new(Piece::T, Rotate::Left), 9, 2));
}

#[test]
fn test_get_block_count_in_column() {
    let field = field_factory::create_middle_field_with_marks(
        String::new()
            + "___XX_____"
            + "___XX_____"
            + "___XX_____"
            + "____X_____"
            + "___XX_____"
            + "___XX_____"
            + "___XX_____"
            + "__X_X_____"
            + "X___X_____"
            + "__X_XX____",
    );

    assert_eq!(field.get_block_count_in_column(0, 1), 0);
    assert_eq!(field.get_block_count_in_column(0, 2), 1);
    assert_eq!(field.get_block_count_in_column(2, 4), 2);
    assert_eq!(field.get_block_count_in_column(3, 4), 1);
    assert_eq!(field.get_block_count_in_column(3, 6), 3);
    assert_eq!(field.get_block_count_in_column(3, 9), 5);
    assert_eq!(field.get_block_count_in_column(3, 10), 6);
    assert_eq!(field.get_block_count_in_column(4, 6), 6);
    assert_eq!(field.get_block_count_in_column(4, 9), 9);
    assert_eq!(field.get_block_count_in_column(4, 10), 10);
}

#[test]
fn middle_field_test_get_all_block_count() {
    let field = field_factory::create_middle_field_with_marks(
        String::new()
            + "___XX_____"
            + "___XX_____"
            + "___XX_____"
            + "___XX_____"
            + "___XX_____"
            + "__X_X_____"
            + "X___X_____"
            + "__X_XX____",
    );

    assert_eq!(field.get_num_of_all_blocks(), 17);
}

#[test]
fn test_clear_filled_rows_1() {
    let mut field = field_factory::create_middle_field_with_marks(
        String::new()
            + "XXXXXXXX_X"
            + "XXXXXXXXXX"
            + "XXXXXXXXXX"
            + "XXXXXXXXXX"
            + "XXX_XXXXXX"
            + "XXXXXXXXXX"
            + "X_XXXXXXXX"
            + "XXXXXXXXXX"
            + "XXXX_XXXXX"
            + "XXXXXXXXXX",
    );

    let delete_rows = field.clear_filled_rows();

    assert_eq!(delete_rows, 6);

    assert!(field.exists_above_row(3));
    assert!(!field.exists_above_row(4));

    assert!(!field.is_empty_block(0, 0));
    assert!(field.is_empty_block(4, 0));
    assert!(field.is_empty_block(1, 1));
    assert!(field.is_empty_block(3, 2));
    assert!(field.is_empty_block(8, 3));
}

#[test]
fn test_clear_filled_rows_2() {
    let mut field = field_factory::create_middle_field_with_marks(
        String::new()
            + "XXXXXXXXXX"
            + "XXXXXXXX_X"
            + "XXXXXXX_XX"
            + "XXXXXX_XXX"
            + "XXXXXXXXXX"
            + "XXXXX_XXXX"
            + "XXXX_XXXXX"
            + "XXX_XXXXXX"
            + "XX_XXXXXXX"
            + "XXXXXXXXXX"
            + "X_XXXXXXXX"
            + "_XXXXXXXXX",
    );

    let delete_rows = field.clear_filled_rows();

    assert_eq!(delete_rows, 3);

    assert!(field.exists_above_row(8));
    assert!(!field.exists_above_row(9));

    for index in 0..9 {
        assert!(field.is_empty_block(index, index));
    }
}

#[test]
fn test_clear_filled_rows_3() {
    let mut field = field_factory::create_middle_field_with_marks(
        String::new()
            + "XXXXXXXXXX"
            + "XXXXX_XXXX"
            + "XXXXXXXXXX"
            + "XXXXXXXXXX"
            + "XXXX_XXXXX"
            + "XXX_XXXXXX"
            + "XX_XXXXXXX"
            + "XXXXXXXXXX"
            + "XXXXXXXXXX"
            + "XXXXXXXXXX"
            + "X_XXXXXXXX"
            + "_XXXXXXXXX",
    );

    let delete_rows = field.clear_filled_rows();

    assert_eq!(delete_rows, 6);

    assert!(field.exists_above_row(5));
    assert!(!field.exists_above_row(6));

    for index in 0..6 {
        assert!(field.is_empty_block(index, index));
    }
}

#[test]
fn test_clear_filled_rows_and_insert_filled_rows() {
    let mut field = field_factory::create_middle_field_with_marks(
        String::new()
            + "XXXXXXXX_X"
            + "XXXXXXXXXX"
            + "XXXXXXXXXX"
            + "XXXXXXXXXX"
            + "XXX_XXXXXX"
            + "XXXXXXXXXX"
            + "X_XXXXXXXX"
            + "XXXXXXXXXX"
            + "XXXX_XXXXX"
            + "XXXXXXXXXX",
    );

    let freeze = field.prune(field.get_max_field_height());

    let delete_key = field.clear_filled_rows_return_key();
    assert_eq!(delete_key.count_ones(), 6);
    field.insert_filled_row_with_key(delete_key);

    for index in 0..freeze.get_board_count().len() {
        assert_eq!(field.get_board(index), freeze.get_board(index));
    }
}

#[test]
fn test_clear_filled_rows_and_insert_blank_rows() {
    let mut field = field_factory::create_middle_field_with_marks(
        String::new()
            + "XXXXXXXX_X"
            + "XXXXXXXXXX"
            + "XXXXXXXXXX"
            + "XXXXXXXXXX"
            + "XXX_XXXXXX"
            + "XXXXXXXXXX"
            + "X_XXXXXXXX"
            + "XXXXXXXXXX"
            + "XXXX_XXXXX"
            + "XXXXXXXXXX",
    );

    let expected = field_factory::create_middle_field_with_marks(
        String::new()
            + "XXXXXXXX_X"
            + "__________"
            + "__________"
            + "__________"
            + "XXX_XXXXXX"
            + "__________"
            + "X_XXXXXXXX"
            + "__________"
            + "XXXX_XXXXX"
            + "__________",
    );

    let delete_key = field.clear_filled_rows_return_key();
    assert_eq!(delete_key.count_ones(), 6);
    field.insert_blank_row_with_key(delete_key);

    for index in 0..field.get_board_count().len() {
        assert_eq!(field.get_board(index), expected.get_board(index));
    }
}

#[test]
fn middle_field_test_get_board() {
    let field = field_factory::create_middle_field_with_marks(
        String::new()
            + "_________X"
            + "_________X"
            + "_________X"
            + "X_________"
            + "X_________"
            + "X_________"
            + "X_________"
            + "X_________"
            + "X_________",
    );

    assert_eq!(field.get_board_count(), BoardCount::Middle);
    assert_eq!(field.get_board(0), 0x4010040100401);
    assert_eq!(field.get_board(0), field.get_x_board_low());
    assert_eq!(field.get_board(1), 0x20080200);
    assert_eq!(field.get_board(1), field.get_x_board_high());

    for index in 2..100 {
        assert_eq!(field.get_board(index), 0);
    }
}

#[test]
fn middle_field_test_freeze() {
    let mut field = field_factory::create_middle_field_with_marks(
        String::new()
            + "X_________"
            + "X_________"
            + "X_________"
            + "X_________"
            + "",
    );

    assert_eq!(field.get_num_of_all_blocks(), 4);
    let freeze = field.prune(field.get_max_field_height());
    field.set_block(9, 0);

    assert_eq!(field.get_num_of_all_blocks(), 5);
    assert_eq!(freeze.get_num_of_all_blocks(), 4);
}

#[test]
fn middle_field_test_equal() {
    let marks = "XXXXXX____";
    let field1 = field_factory::create_middle_field_with_marks(marks.to_string());
    let field2 = field_factory::create_middle_field_with_marks(marks.to_string());
    assert_eq!(field1, field2);

    let field3 =
        field_factory::create_middle_field_with_marks(marks.to_string() + "XXXXXX____");
    assert_ne!(field1, field3);

    let field4 = field_factory::create_small_field_with_marks(marks.to_string());
    assert_eq!(AnyField::Middle(field1), AnyField::Small(field4));
}

#[test]
fn test_get_block_count_in_row() {
    let field = field_factory::create_middle_field_with_marks(
        String::new()
            + "X__X__X___"
            + "XXXXXXXXXX"
            + "XXX_XXX__X"
            + "__________"
            + "X___XXX__X"
            + "X__X___XX_"
            + "X____X____"
            + "X_________",
    );

    assert_eq!(field.get_block_count_in_row(0), 1);
    assert_eq!(field.get_block_count_in_row(1), 2);
    assert_eq!(field.get_block_count_in_row(2), 4);
    assert_eq!(field.get_block_count_in_row(3), 5);
    assert_eq!(field.get_block_count_in_row(4), 0);
    assert_eq!(field.get_block_count_in_row(5), 7);
    assert_eq!(field.get_block_count_in_row(6), 10);
    assert_eq!(field.get_block_count_in_row(7), 3);
}

#[test]
fn middle_field_test_can_merge_1() {
    let field1 = field_factory::create_middle_field_with_marks(
        String::new()
            + "X_X_X_X__X"
            + "X__X____XX"
            + "__________"
            + "__________"
            + "XXX_XXX__X"
            + "X__X___XX_"
            + "__________"
            + "__________",
    );

    let field2 = field_factory::create_middle_field_with_marks(
        String::new()
            + "__________"
            + "__________"
            + "X_XX_X_X_X"
            + "XXXXXXXXXX"
            + "__________"
            + "__________"
            + "X__X_X_X__"
            + "XXX_XX___X",
    );

    assert!(field1.can_merge(&field2));
}

#[test]
fn middle_field_test_can_merge_2() {
    let field1 = field_factory::create_middle_field_with_marks(
        String::new()
            + "__XX_X_X__"
            + "__________"
            + "__________"
            + "__XX_X_X__"
            + "XXX_XXX__X"
            + "X__X___XX_"
            + "XXXXX_____"
            + "XXXXX_____",
    );

    let field2 = field_factory::create_middle_field_with_marks(
        String::new()
            + "__________"
            + "__________"
            + "X__X_X_X__"
            + "XXXXXXXXXX"
            + "__________"
            + "__________"
            + "__________"
            + "__________",
    );

    assert!(!field1.can_merge(&field2));
}

#[test]
fn middle_field_test_merge_1() {
    let mut field1 = field_factory::create_middle_field_with_marks(
        String::new()
            + "XXX_XXX__X"
            + "X__X___XX_"
            + "__________"
            + "__________"
            + "XXX_XXX__X"
            + "X__X___XX_"
            + "__________"
            + "__________",
    );

    let field2 = field_factory::create_middle_field_with_marks(
        String::new()
            + "__________"
            + "__________"
            + "X__X_X_X__"
            + "XXX_XX___X"
            + "__________"
            + "__________"
            + "X__X_X_X__"
            + "XXX_XX___X",
    );

    let expected = field_factory::create_middle_field_with_marks(
        String::new()
            + "XXX_XXX__X"
            + "X__X___XX_"
            + "X__X_X_X__"
            + "XXX_XX___X"
            + "XXX_XXX__X"
            + "X__X___XX_"
            + "X__X_X_X__"
            + "XXX_XX___X",
    );

    field1.merge(&field2);
    assert_eq!(field1, expected);
    assert_ne!(field2, expected);
}

#[test]
fn middle_field_test_merge_2() {
    let mut field1 = field_factory::create_middle_field_with_marks(
        String::new()
            + "XXX_XXX__X"
            + "X__X___XX_"
            + "XXXXX_____"
            + "XXXXX_____"
            + "XXX_XXX__X"
            + "X__X___XX_"
            + "XXXXX_____"
            + "XXXXX_____",
    );

    let field2 = field_factory::create_middle_field_with_marks(
        String::new()
            + "__________"
            + "__________"
            + "X__X_X_X__"
            + "XXX_XX___X"
            + "__________"
            + "__________"
            + "X__X_X_X__"
            + "XXX_XX___X",
    );

    let expected = field_factory::create_middle_field_with_marks(
        String::new()
            + "XXX_XXX__X"
            + "X__X___XX_"
            + "XXXXXX_X__"
            + "XXXXXX___X"
            + "XXX_XXX__X"
            + "X__X___XX_"
            + "XXXXXX_X__"
            + "XXXXXX___X",
    );

    field1.merge(&field2);
    assert_eq!(field1, expected);
    assert_ne!(field2, expected);
}

#[test]
fn middle_field_test_reduce() {
    let mut field1 = field_factory::create_middle_field_with_marks(
        String::new()
            + "XXXXXXXXX_"
            + "__________"
            + "__________"
            + "XXXXXXXXX_"
            + "XXXXXXXXX_"
            + "__________"
            + "__________"
            + "XXXXXXXXX_",
    );

    let field2 = field_factory::create_middle_field_with_marks(
        String::new()
            + "XXXXX_____"
            + "_X___X____"
            + "X__X_X_X__"
            + "XXX_XX___X"
            + "XXXXX_____"
            + "_X___X____"
            + "X__X_X_X__"
            + "XXX_XX___X",
    );

    let expected = field_factory::create_middle_field_with_marks(
        String::new()
            + "_____XXXX_"
            + "__________"
            + "__________"
            + "___X__XXX_"
            + "_____XXXX_"
            + "__________"
            + "__________"
            + "___X__XXX_",
    );

    field1.reduce(&field2);
    assert_eq!(field1, expected);
    assert_ne!(field2, expected);
}

#[test]
fn test_get_upper_y_with_4_blocks() {
    let field = field_factory::create_middle_field_with_marks(
        String::new()
            + "__________"
            + "_____X____"
            + "____XXX___"
            + "__________"
            + "__________"
            + "__________"
            + "__________"
            + "__________"
            + "__________",
    );

    assert_eq!(field.get_upper_y_with_4_blocks(), 7);
}

#[test]
fn test_get_min_y() {
    let field = field_factory::create_middle_field_with_marks(
        String::new()
            + "__________"
            + "_____X____"
            + "____XXX___"
            + "__________"
            + "__________"
            + "__________"
            + "__________"
            + "__________"
            + "__________"
            + "__________"
            + "__________",
    );

    assert_eq!(field.get_min_y(), Some(8));
}

#[test]
fn test_get_min_y_with_empty() {
    let field = field_factory::create_middle_field();
    assert_eq!(field.get_min_y(), None);
}

#[test]
fn middle_field_test_slide_left() {
    let mut field = field_factory::create_middle_field_with_marks(
        String::new()
            + "__________"
            + "_____X____"
            + "____XXX___"
            + "__________"
            + "__________"
            + "__________"
            + "__________"
            + "__________"
            + "__________"
            + "__________",
    );

    let expected = field_factory::create_middle_field_with_marks(
        String::new()
            + "__________"
            + "__X_______"
            + "_XXX______"
            + "__________"
            + "__________"
            + "__________"
            + "__________"
            + "__________"
            + "__________"
            + "__________",
    );

    field.slide_left(3);
    assert_eq!(field, expected);
}

#[test]
fn middle_field_fill_row() {
    for y in 0..middle_field::MAX_FIELD_HEIGHT {
        let mut field = field_factory::create_middle_field();
        field.fill_row(y);

        for x in 0..FIELD_WIDTH {
            assert!(!field.is_empty_block(x, y));
        }

        field.clear_filled_rows();
        assert!(field.is_empty());
    }
}

#[test]
fn middle_field_contains() {
    let parent = field_factory::create_middle_field_with_marks(
        String::new()
            + "XXXXX_____"
            + "XXXXX_____"
            + "XXXXX_____"
            + "XXXXX_____"
            + "XXXXX_____"
            + "XXXXX_____"
            + "XXXXX_____"
            + "XXXXX_____",
    );

    let child1 = field_factory::create_middle_field_with_marks(
        String::new()
            + "XXXXX_____"
            + "XXXXX_____"
            + "XXXXX_____"
            + "XXXXX_____"
            + "XXXXX_____"
            + "XXXXX_____"
            + "XXXXX_____"
            + "XXXXX_____",
    );
    let child2 = field_factory::create_middle_field_with_marks(
        String::new()
            + "XXX_______"
            + "XXX_______"
            + "XXX_______"
            + "XXX_______"
            + "XXX_______"
            + "XXX_______",
    );
    let child3 = field_factory::create_middle_field_with_marks(
        String::new()
            + "XXXXX_____"
            + "XXXXX_____"
            + "XXXXX_____"
            + "XXXXX_____"
            + "XXXXX_____"
            + "XXXXX__X__",
    );
    let child4 = field_factory::create_middle_field_with_marks(
        String::new() + "__________" + "__________" + "__________" + "__________",
    );
    let child5 = field_factory::create_middle_field_with_marks(
        String::new() + "XXXXXXXXXX" + "XXXXXXXXXX" + "XXXXXXXXXX" + "XXXXXXXXXX",
    );

    assert!(parent.contains(&child1));
    assert!(parent.contains(&child2));
    assert!(!parent.contains(&child3));
    assert!(parent.contains(&child4));
    assert!(!parent.contains(&child5));
}

#[test]
fn get_max_field_height() {
    assert_eq!(LargeField::new().get_max_field_height(), large_field::MAX_FIELD_HEIGHT);
}

#[test]
fn block() {
    let mut field = field_factory::create_large_field();

    for index in 0..large_field::MAX_FIELD_HEIGHT {
        field.set_block(index % FIELD_WIDTH, index);
    }

    assert_eq!(field.get_num_of_all_blocks(), large_field::MAX_FIELD_HEIGHT as u32);

    for y in 0..large_field::MAX_FIELD_HEIGHT {
        for x in 0..FIELD_WIDTH {
            assert_eq!(field.is_empty_block(x, y), x != y % FIELD_WIDTH);
        }
    }

    for index in 0..large_field::MAX_FIELD_HEIGHT {
        field.remove_block(index % FIELD_WIDTH, index);
    }

    for y in 0..large_field::MAX_FIELD_HEIGHT {
        for x in 0..FIELD_WIDTH {
            assert!(field.is_empty_block(x, y));
        }
    }
}

#[test]
fn put() {
    for y in 1..large_field::MAX_FIELD_HEIGHT - 2 {
        for x in 0..FIELD_WIDTH - 2 {
            let mut field = field_factory::create_large_field();

            field.put(&Mino::new(Piece::T, Rotate::Right), x, y);
            assert!(!field.is_empty_block(x, y));
            assert!(!field.is_empty_block(x, y - 1));
            assert!(!field.is_empty_block(x, y + 1));
            assert!(!field.is_empty_block(x + 1, y));
        }
    }
}

#[test]
fn put_2() {
    for piece in create_all_pieces(&MinoFactory::new(), large_field::MAX_FIELD_HEIGHT) {
        let mut field1 = field_factory::create_large_field();

        assert!(field1.can_put(piece.get_mino(), piece.get_x(), piece.get_y()));
        field1.put(piece.get_mino(), piece.get_x(), piece.get_y());
        assert!(!field1.can_put(piece.get_mino(), piece.get_x(), piece.get_y()));

        let mut field2 = field_factory::create_large_field();

        assert!(field2.can_put(piece.get_mino(), piece.get_x(), piece.get_y()));
        field2.put(piece.get_mino(), piece.get_x(), piece.get_y());
        assert!(!field2.can_put(piece.get_mino(), piece.get_x(), piece.get_y()));

        assert_eq!(field1.get_board(0), field2.get_board(0));
        assert_eq!(field1.get_board(1), field2.get_board(1));
        assert_eq!(field1.get_board(2), field2.get_board(2));
        assert_eq!(field1.get_board(3), field2.get_board(3));

        assert!(!field1.is_empty());
    }
}

#[test]
fn remove() {
    for y in 1..large_field::MAX_FIELD_HEIGHT - 2 {
        for x in 0..FIELD_WIDTH - 2 {
            let mut field = field_factory::create_large_field();
            field.invert();

            field.remove(&Mino::new(Piece::T, Rotate::Right), x, y);
            // println!("{x} {y} {field:?}");

            assert!(field.is_empty_block(x, y));
            assert!(field.is_empty_block(x, y - 1));
            assert!(field.is_empty_block(x, y + 1));
            assert!(field.is_empty_block(x + 1, y));
        }
    }
}

#[test]
fn remove_2() {
    for piece in create_all_pieces(&MinoFactory::new(), large_field::MAX_FIELD_HEIGHT) {
        let mut field1 = field_factory::create_large_field();
        field1.invert();
        field1.remove(piece.get_mino(), piece.get_x(), piece.get_y());

        let mut field2 = field_factory::create_large_field();
        field2.invert();
        field2.remove_piece(&piece);

        assert_eq!(field1.get_board(0), field2.get_board(0));
        assert_eq!(field1.get_board(1), field2.get_board(1));
        assert_eq!(field1.get_board(2), field2.get_board(2));
        assert_eq!(field1.get_board(3), field2.get_board(3));
    }
}

#[test]
fn get_y_on_harddrop() {
    let field = field_factory::create_large_field_with_marks(
        String::new()
            + "X_________"
            + "__________"
            + "__________"
            + "__________"
            + "_________X"
            + "____X_____"
            + "__________"
            + "__________"
            + "__________"
            + "__________"
            + "__________"
            + "__________",
    );

    assert_eq!(
        field.get_y_on_harddrop(&Mino::new(Piece::T, Rotate::Spawn), 1, large_field::MAX_FIELD_HEIGHT),
        12
    );
    assert_eq!(
        field.get_y_on_harddrop(&Mino::new(Piece::T, Rotate::Spawn), 2, large_field::MAX_FIELD_HEIGHT),
        0
    );
    assert_eq!(
        field.get_y_on_harddrop(&Mino::new(Piece::T, Rotate::Spawn), 3, large_field::MAX_FIELD_HEIGHT),
        7
    );
    assert_eq!(
        field.get_y_on_harddrop(&Mino::new(Piece::T, Rotate::Spawn), 8, large_field::MAX_FIELD_HEIGHT),
        8
    );
}

#[test]
fn can_reach_on_harddrop() {
    let field = field_factory::create_large_field_with_marks(
        String::new()
            + "X_________"
            + "__________"
            + "__________"
            + "__________"
            + "_________X"
            + "____X_____"
            + "__________"
            + "__________"
            + "__________"
            + "__________"
            + "__________"
            + "__________",
    );

    assert!(!field.can_reach_on_harddrop(&Mino::new(Piece::T, Rotate::Spawn), 1, 4));
    assert!(field.can_reach_on_harddrop(&Mino::new(Piece::T, Rotate::Spawn), 2, 4));
    assert!(field.can_reach_on_harddrop(&Mino::new(Piece::T, Rotate::Spawn), 2, 3));
    assert!(!field.can_reach_on_harddrop(&Mino::new(Piece::T, Rotate::Spawn), 1, 1));
}

#[test]
fn exist_above_row() {
    for y in 0..large_field::MAX_FIELD_HEIGHT {
        let mut field = field_factory::create_large_field();
        field.set_block(0, y);

        for y2 in 0..large_field::MAX_FIELD_HEIGHT {
            assert_eq!(field.exists_above_row(y2), y2 <= y);
        }
    }
}

#[test]
fn is_empty() {
    assert!(field_factory::create_large_field().is_empty());
}

#[test]
fn is_filled_in_column() {
    for y in 0..large_field::MAX_FIELD_HEIGHT {
        for x in 1..FIELD_WIDTH {
            let mut field = field_factory::create_large_field();
            for i in 0..y {
                field.set_block(x, i);
            }

            for i in 0..large_field::MAX_FIELD_HEIGHT {
                assert_eq!(field.is_filled_in_column(x, i), i <= y);
            }
        }
    }
}

#[test]
fn is_on_ground() {
    let field = field_factory::create_large_field();
    assert!(field.is_on_ground(&Mino::new(Piece::I, Rotate::Spawn), 3, 0));
    assert!(!field.is_on_ground(&Mino::new(Piece::I, Rotate::Spawn), 3, 1));

    for y in 2..large_field::MAX_FIELD_HEIGHT {
        let mut field = field_factory::create_large_field();
        field.set_block(4, y - 2);

        assert!(!field.is_on_ground(&Mino::new(Piece::I, Rotate::Spawn), 4, y));
        assert!(field.is_on_ground(&Mino::new(Piece::I, Rotate::Spawn), 4, y - 1));
    }
}

#[test]
fn large_field_fill_row() {
    for y in 0..large_field::MAX_FIELD_HEIGHT {
        let mut field = field_factory::create_large_field();
        field.fill_row(y);

        for x in 0..FIELD_WIDTH {
            assert!(field.exists_block(x, y));
        }

        field.clear_filled_rows();
        assert!(field.is_empty());
    }
}

#[test]
fn test_small() {
    let field = create_field_with_marks(
        String::new()
            + "XXXXX_XXXX"
            + "XXXX_XXXXX"
            + "XXX_XXXXXX"
            + "XX_XXXXXXX"
            + "X_XXXXXXXX"
            + "_XXXXXXXXX",
    );

    assert_eq!(field.get_board_count(), BoardCount::Small);

    for y in 0..6 {
        for x in 0..10 {
            assert_eq!(field.is_empty_block(x, y), x == y);
        }
    }
}

#[test]
fn test_middle() {
    let field = create_field_with_marks(
        String::new()
            + "X_XXXXXXXX"
            + "_XXXXXXXXX"
            + "XXXXXXXXX_"
            + "XXXXXXXX_X"
            + "XXXXXXX_XX"
            + "XXXXXX_XXX"
            + "XXXXX_XXXX"
            + "XXXX_XXXXX"
            + "XXX_XXXXXX"
            + "XX_XXXXXXX"
            + "X_XXXXXXXX"
            + "_XXXXXXXXX",
    );

    assert_eq!(field.get_board_count(), BoardCount::Middle);

    for y in 0..12 {
        for x in 0..10 {
            assert_eq!(field.is_empty_block(x, y), x == y % 10);
        }
    }
}
