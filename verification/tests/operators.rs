use sfinder_lib::sfinder_core::field::bit_operators::{
    get_column_mask_left_of_row, get_column_mask_right_of_row, get_column_one_row_below_y, get_highest_y,
    get_lowest_y, get_row_mask_above_y, get_row_mask_below_y, get_x_mask, try_get_lowest_x,
};
use sfinder_lib::sfinder_core::field::field_constants::{BOARD_HEIGHT, FIELD_WIDTH};
use sfinder_lib::sfinder_core::field::key_operators::{
    bit_to_y_from_key, get_bit_key, get_column_key, get_delete_bit_key, get_mask_for_key_above_y,
    get_mask_for_key_below_y, mirror, to_bit_key, to_column_key,
};
use sfinder_lib::sfinder_core::mino::mino_factory::MinoFactory;
use sfinder_lib::sfinder_core::mino::piece::Piece;
use sfinder_lib::sfinder_core::srs::rotate::Rotate;

fn legacy_bit_to_y(bit: u64) -> u8 {
    assert_eq!(bit.count_ones(), 1);
    bit.trailing_zeros() as u8 / FIELD_WIDTH
}

fn legacy_bit_to_x(bit: u64) -> u8 {
    assert_eq!(bit.count_ones(), 1);
    bit.trailing_zeros() as u8 % FIELD_WIDTH
}

#[test]
fn test_get_mask_for_key_below_y() {
    for y in 0..=24 {
        let mask = get_mask_for_key_below_y(y);

        // y行より下の行が含まれることを確認
        for line in 0..y {
            assert_ne!(mask & 1 << ((line % 6) * 10 + (line / 6)), 0);
        }

        // y行を含めた上の行が含まれないことを確認
        for line in y..24 {
            assert_eq!(mask & 1 << ((line % 6) * 10 + (line / 6)), 0);
        }
    }
}

#[test]
fn test_get_mask_for_key_above_y() {
    for y in 0..=24 {
        let mask = get_mask_for_key_above_y(y);
        // println!("{mask:0b}");

        // y行より下の行が含まれないことを確認
        for line in 0..y {
            assert_eq!(mask & 1 << ((line % 6) * 10 + (line / 6)), 0);
        }

        // y行を含めた上の行が含まれることを確認
        for line in y..24 {
            assert_ne!(mask & 1 << ((line % 6) * 10 + (line / 6)), 0);
        }
    }
}

#[test]
fn test_get_delete_bit_key() {
    for y in 0..24 {
        assert_eq!(get_delete_bit_key(y), 1 << ((y % 6) * 10 + (y / 6)));
    }
}

#[test]
fn mirror_sample_case() {
    assert_eq!(
        mirror(0b001111100011111000001101010001),
        0b000111110000000111111000101011
    );
}

#[test]
fn test_bit_to_y_from_key() {
    for y in 0..24 {
        let key = get_bit_key(y);
        assert_eq!(bit_to_y_from_key(key), y);
    }
}

#[test]
fn test_get_column_key() {
    assert_eq!(get_column_key(0), 0b1);
    assert_eq!(get_column_key(1), 0b10);
    assert_eq!(get_column_key(2), 0b100);
    assert_eq!(get_column_key(10), 0b10000000000);
}

#[test]
fn test_to_column_key() {
    for y in 0..24 {
        let bit_key = get_bit_key(y);
        assert_eq!(to_column_key(bit_key), get_column_key(y));
    }
}

#[test]
fn test_to_bit_key() {
    for y in 0..24 {
        let column_key = get_column_key(y);
        assert_eq!(to_bit_key(column_key), get_bit_key(y));
    }
}

#[test]
fn masks_agree() {
    for y in 0..24 {
        let delete_key = get_delete_bit_key(y);
        assert_eq!(delete_key.count_ones(), 1);
        assert_eq!(
            delete_key,
            get_mask_for_key_above_y(y) & get_mask_for_key_below_y(y + 1)
        );
    }
}

#[test]
fn test_get_column_one_row_below_y() {
    for y in 0..=BOARD_HEIGHT {
        let mask = get_column_one_row_below_y(y);

        // y行より下の行が含まれることを確認
        for line in 0..y {
            assert_ne!(mask & get_x_mask(0, line), 0);
        }

        // y行を含めた上の行が含まれないことを確認
        for line in y..=BOARD_HEIGHT {
            assert_eq!(mask & get_x_mask(0, line), 0);
        }
    }
}

#[test]
fn test_get_column_mask_right_of_row() {
    for x in 0..=FIELD_WIDTH {
        let mask = get_column_mask_right_of_row(x);

        // x列より左の列が含まれないことを確認
        for column in 0..x {
            for y in 0..BOARD_HEIGHT {
                assert_eq!(mask & get_x_mask(column, y), 0);
            }
        }

        // x列を含めた右の列が含まれることを確認
        for column in x..FIELD_WIDTH {
            for y in 0..BOARD_HEIGHT {
                assert_ne!(mask & get_x_mask(column, y), 0);
            }
        }
    }
}

#[test]
fn test_get_column_mask_left_of_row() {
    for x in 0..=FIELD_WIDTH {
        let mask = get_column_mask_left_of_row(x);

        for column in 0..x {
            for y in 0..BOARD_HEIGHT {
                assert_ne!(mask & get_x_mask(column, y), 0);
            }
        }

        for column in x..FIELD_WIDTH {
            for y in 0..BOARD_HEIGHT {
                assert_eq!(mask & get_x_mask(column, y), 0);
            }
        }
    }
}

#[test]
fn test_get_row_mask_below_y() {
    for y in 0..=BOARD_HEIGHT {
        let mask = get_row_mask_below_y(y);

        // y行を含めた下の行が含まれることを確認
        for line in 0..y {
            for x in 0..FIELD_WIDTH {
                assert_ne!(mask & get_x_mask(x, line), 0);
            }
        }

        // y行より上の行が含まれないことを確認
        for line in y..BOARD_HEIGHT {
            for x in 0..FIELD_WIDTH {
                assert_eq!(mask & get_x_mask(x, line), 0);
            }
        }
    }
}

#[test]
fn test_get_row_mask_above_y() {
    for y in 0..=BOARD_HEIGHT {
        let mask = get_row_mask_above_y(y);

        // y行より下の行が含まれないことを確認
        for line in 0..y {
            for x in 0..FIELD_WIDTH {
                assert_eq!(mask & get_x_mask(x, line), 0);
            }
        }

        // y行を含めた上の行が含まれることを確認
        for line in y..BOARD_HEIGHT {
            for x in 0..FIELD_WIDTH {
                assert_ne!(mask & get_x_mask(x, line), 0);
            }
        }
    }
}

#[test]
fn bit_to_y_agrees() {
    for y in 0..BOARD_HEIGHT {
        for x in 0..FIELD_WIDTH {
            let bit = get_x_mask(x, y);
            assert_eq!(legacy_bit_to_y(bit), get_lowest_y(bit));
            assert_eq!(legacy_bit_to_y(bit), get_highest_y(bit));
        }
    }
}

#[test]
fn bit_to_x_agrees() {
    for y in 0..BOARD_HEIGHT {
        for x in 0..FIELD_WIDTH {
            let bit = get_x_mask(x, y);
            // println!("{bit:060b}");
            assert_eq!(legacy_bit_to_x(bit), try_get_lowest_x(bit).unwrap());
        }
    }
}

#[test]
fn test_bit_to_y() {
    for y in 0..BOARD_HEIGHT {
        for x in 0..FIELD_WIDTH {
            let bit = get_x_mask(x, y);
            let actual_y = legacy_bit_to_y(bit);
            assert_eq!(actual_y, y);
        }
    }
}

#[test]
fn min_x() {
    for piece in Piece::value_list().into_iter() {
        let computed = piece.get_positions()
            .iter()
            .map(|c| c.x)
            .min()
            .unwrap();
        assert_eq!(piece.min_x(), computed);
    }
}

#[test]
fn max_x() {
    for piece in Piece::value_list().into_iter() {
        let computed = piece.get_positions()
            .iter()
            .map(|c| c.x)
            .max()
            .unwrap();
        assert_eq!(piece.max_x(), computed);
    }
}

#[test]
fn min_y() {
    for piece in Piece::value_list().into_iter() {
        let computed = piece.get_positions()
            .iter()
            .map(|c| c.y)
            .min()
            .unwrap();
        assert_eq!(piece.min_y(), computed);
    }
}

#[test]
fn max_y() {
    for piece in Piece::value_list().into_iter() {
        let computed = piece.get_positions()
            .iter()
            .map(|c| c.y)
            .max()
            .unwrap();
        assert_eq!(piece.max_y(), computed);
    }
}

#[test]
fn get_block() {
    assert_eq!(Piece::new(0), Piece::T);
    assert_eq!(Piece::new(1), Piece::I);
    assert_eq!(Piece::new(2), Piece::L);
    assert_eq!(Piece::new(3), Piece::J);
    assert_eq!(Piece::new(4), Piece::S);
    assert_eq!(Piece::new(5), Piece::Z);
    assert_eq!(Piece::new(6), Piece::O);
}

#[test]
fn piece_value_list() {
    assert_eq!(
        Piece::value_list(),
        &[
            Piece::T,
            Piece::I,
            Piece::L,
            Piece::J,
            Piece::S,
            Piece::Z,
            Piece::O
        ]
    );
}

#[test]
fn piece_get_size() {
    assert_eq!(Piece::get_size(), 7);
}

#[test]
fn get_number() {
    assert_eq!(Piece::T.number(), 0);
    assert_eq!(Piece::I.number(), 1);
    assert_eq!(Piece::L.number(), 2);
    assert_eq!(Piece::J.number(), 3);
    assert_eq!(Piece::S.number(), 4);
    assert_eq!(Piece::Z.number(), 5);
    assert_eq!(Piece::O.number(), 6);
}

#[test]
fn get_name() {
    assert_eq!(Piece::T.to_string(), "T");
    assert_eq!(Piece::I.to_string(), "I");
    assert_eq!(Piece::L.to_string(), "L");
    assert_eq!(Piece::J.to_string(), "J");
    assert_eq!(Piece::S.to_string(), "S");
    assert_eq!(Piece::Z.to_string(), "Z");
    assert_eq!(Piece::O.to_string(), "O");
}

#[test]
fn to_block_string() {
    assert_eq!(
        ["T", "I", "L", "J", "S", "Z", "O"]
            .iter()
            .map(|s| Piece::from_str(s).unwrap())
            .collect::<Vec<_>>(),
        Piece::value_list()
    );
}

#[test]
fn size() {
    assert_eq!(
        MinoFactory::new().len(),
        Piece::get_size() * Rotate::get_size()
    );
}

#[test]
fn create() {
    let mino_factory = MinoFactory::new();

    for piece in Piece::value_list() {
        for rotate in Rotate::value_list() {
            let mino = mino_factory.get(piece, rotate);
            for _ in 0..100 {
                // check for consistency
                // 同じインスタンスであること
                assert_eq!(mino, mino_factory.get(piece, rotate));
            }
        }
    }
}
