use sfinder_lib::common::datastore::coordinate::Coordinate;
use sfinder_lib::sfinder_core::field::field::Field;
use sfinder_lib::sfinder_core::field::field_factory;
use sfinder_lib::sfinder_core::mino::mino::Mino;
use sfinder_lib::sfinder_core::mino::mino_factory::MinoFactory;
use sfinder_lib::sfinder_core::mino::piece::Piece;
use sfinder_lib::sfinder_core::srs::mino_rotation::MinoRotation;
use sfinder_lib::sfinder_core::srs::mino_rotation_no_180_impl::MinoRotationNo180Impl;
use sfinder_lib::sfinder_core::srs::rotate::Rotate;
use sfinder_lib::sfinder_core::srs::rotate_direction::RotateDirection;
use sfinder_lib::sfinder_core::srs::srs_mino_rotation_factory;

fn create_srs_rotation() -> MinoRotationNo180Impl {
    srs_mino_rotation_factory::create()
}

fn check_kick(
    rotation: &MinoRotationNo180Impl,
    marks: String,
    mino: &Mino,
    x: u8,
    y: u8,
    direction: RotateDirection,
    expected: Option<Coordinate>,
) {
    let field = field_factory::create_field_with_marks(marks);
    // checks test case validity, mino should not collide with the field
    assert!(field.can_put(mino, x, y));

    let factory = MinoFactory::new();
    let after = factory.get(mino.get_piece(), mino.get_rotate().apply(direction));

    assert_eq!(rotation.get_kicks(&field, mino, after, x, y, direction), expected);
}

fn assert_wrapper(marks: String, test_cases: &[(Piece, Rotate, u8, u8, RotateDirection, Option<Coordinate>)]) {
    let mino_rotation = create_srs_rotation();
    let factory = MinoFactory::new();
    for (piece, rotate, x, y, direction, expected) in test_cases {
        let mino = factory.get(*piece, *rotate);
        check_kick(&mino_rotation, marks.clone(), mino, *x, *y, *direction, *expected);
    }
}

fn test_wrapper(piece: Piece, direction: RotateDirection, expected: Vec<&[Coordinate]>) {
    assert_eq!(expected.len(), Rotate::get_size());

    let rotation = create_srs_rotation();
    let factory = MinoFactory::new();
    let actual = Rotate::value_list()
        .iter()
        .copied()
        .map(|rotate| {
            let mino = factory.get(piece, rotate);
            rotation.get_patterns_from(mino, direction).get_offsets()
        })
        .collect::<Vec<_>>();
    assert_eq!(actual, expected);
}

const OTHER_PIECES: [Piece; 5] = [Piece::J, Piece::L, Piece::S, Piece::T, Piece::Z];

#[test]
fn mino_rotation_checks1ok1() {
    assert_wrapper(
        String::new()
            + "XX________"
            + "X_________"
            + "X_XXXXXXXX"
            + "X_XXXXXXXX"
            + "X_XXXXXXXX",
        &[(Piece::I, Rotate::Spawn, 2, 3, RotateDirection::Clockwise, Some(Coordinate::new(-1, -1)))],
    );
    assert_wrapper(
        String::new()
            + "XX__XXXXXX"
            + "X__XXXXXXX",
        &[(Piece::S, Rotate::Right, 1, 2, RotateDirection::Clockwise, Some(Coordinate::new(1, -1)))],
    );
    assert_wrapper(
        String::new()
            + "X__XXXXXXX"
            + "XX__XXXXXX",
        &[(Piece::Z, Rotate::Left, 3, 2, RotateDirection::CounterClockwise, Some(Coordinate::new(-1, -1)))],
    );
    assert_wrapper(
        String::new()
            + "XXX_______"
            + "XX________"
            + "XX_X______",
        &[(Piece::L, Rotate::Left, 4, 1, RotateDirection::CounterClockwise, Some(Coordinate::new(-1, 0)))],
    );
    assert_wrapper(
        String::new()
            + "_______XXX"
            + "________XX"
            + "______X_XX",
        &[(Piece::J, Rotate::Right, 5, 1, RotateDirection::Clockwise, Some(Coordinate::new(1, 0)))],
    );
    assert_wrapper(
        String::new()
            + "XX________"
            + "X_________"
            + "X_________"
            + "X_XXXXXXXX",
        &[(Piece::T, Rotate::Spawn, 2, 1, RotateDirection::Clockwise, Some(Coordinate::new(-1, 0)))],
    );
}

#[test]
fn mino_rotation_checks1ng1() {
    assert_wrapper(
        String::new()
            + "XX________"
            + "X_________"
            + "X_X_XXXXXX"
            + "X_X_XXXXXX"
            + "X_XXXXXXXX",
        &[(Piece::I, Rotate::Spawn, 2, 3, RotateDirection::Clockwise, Some(Coordinate::new(1, 0)))],
    );
}

#[test]
fn mino_rotation_checks1ng2() {
    assert_wrapper(
        String::new()
            + "XX________"
            + "X_________"
            + "X_XX_XXXXX"
            + "X_XX_XXXXX"
            + "X_XXXXXXXX",
        &[(Piece::I, Rotate::Spawn, 2, 3, RotateDirection::Clockwise, Some(Coordinate::new(2, 0)))],
    );
}

#[test]
fn mino_rotation_checks2ok1() {
    assert_wrapper(
        String::new()
            + "________XX"
            + "_________X"
            + "XXXXXXXX_X"
            + "XXXXXXXX_X"
            + "XXXXXXXX_X",
        &[(Piece::I, Rotate::Reverse, 7, 3, RotateDirection::CounterClockwise, Some(Coordinate::new(1, -1)))],
    );
    assert_wrapper(
        String::new()
            + "XX__XXXXXX"
            + "XX__XXXXXX"
            + "X__XXXXXXX",
        &[(Piece::S, Rotate::Left, 3, 2, RotateDirection::CounterClockwise, Some(Coordinate::new(-1, -1)))],
    );
    assert_wrapper(
        String::new()
            + "X__XXXXXXX"
            + "X__XXXXXXX"
            + "XX__XXXXXX",
        &[(Piece::Z, Rotate::Right, 1, 2, RotateDirection::Clockwise, Some(Coordinate::new(1, -1)))],
    );
    assert_wrapper(
        String::new()
            + "XXX__XXXXX"
            + "XX___XXXXX"
            + "XX_XXXXXXX",
        &[(Piece::L, Rotate::Left, 4, 2, RotateDirection::CounterClockwise, Some(Coordinate::new(-1, -1)))],
    );
    assert_wrapper(
        String::new()
            + "XXXXX__XXX"
            + "XXXXX___XX"
            + "XXXXXXX_XX",
        &[(Piece::J, Rotate::Right, 5, 2, RotateDirection::Clockwise, Some(Coordinate::new(1, -1)))],
    );
    assert_wrapper(
        String::new()
            + "_____XXXXX"
            + "XXX__XXXXX"
            + "XX___XXXXX",
        &[(Piece::T, Rotate::Left, 4, 1, RotateDirection::Clockwise, Some(Coordinate::new(-1, -1)))],
    );
}

#[test]
fn mino_rotation_checks2ng1() {
    assert_wrapper(
        String::new()
            + "________XX"
            + "_________X"
            + "XXXXXXX__X"
            + "XXXXXXXX_X"
            + "XXXXXXXX_X",
        &[(Piece::I, Rotate::Reverse, 7, 3, RotateDirection::CounterClockwise, Some(Coordinate::new(0, 1)))],
    );
    assert_wrapper(
        String::new()
            + "XX________"
            + "XX__XXXXXX"
            + "X__XXXXXXX",
        &[(Piece::S, Rotate::Left, 3, 2, RotateDirection::CounterClockwise, Some(Coordinate::new(0, 0)))],
    );
    assert_wrapper(
        String::new()
            + "___XXXXXXX"
            + "X__XXXXXXX"
            + "XX__XXXXXX",
        &[(Piece::Z, Rotate::Right, 1, 2, RotateDirection::Clockwise, Some(Coordinate::new(0, 0)))],
    );
    assert_wrapper(
        String::new()
            + "XXX___XXXX"
            + "XX___XXXXX"
            + "XX_XXXXXXX",
        &[(Piece::L, Rotate::Left, 4, 2, RotateDirection::CounterClockwise, Some(Coordinate::new(0, 0)))],
    );
    assert_wrapper(
        String::new()
            + "XXXX___XXX"
            + "XXXXX___XX"
            + "XXXXXXX_XX",
        &[(Piece::J, Rotate::Right, 5, 2, RotateDirection::Clockwise, Some(Coordinate::new(0, 0)))],
    );
    assert_wrapper(
        String::new()
            + "_____XXXXX"
            + "XXX___XXXX"
            + "XX___XXXXX",
        &[(Piece::T, Rotate::Left, 4, 1, RotateDirection::Clockwise, Some(Coordinate::new(0, 0)))],
    );
}

#[test]
fn mino_rotation_checks2ng2() {
    assert_wrapper(
        String::new()
            + "________XX"
            + "_________X"
            + "XXXXX_XX_X"
            + "XXXXXXXX_X"
            + "XXXXXXXX_X",
        &[(Piece::I, Rotate::Reverse, 7, 3, RotateDirection::CounterClockwise, Some(Coordinate::new(-2, 1)))],
    );
    assert_wrapper(
        String::new()
            + "XX________"
            + "X___XXXXXX"
            + "XX___XXXXX",
        &[(Piece::T, Rotate::Right, 2, 1, RotateDirection::CounterClockwise, Some(Coordinate::new(0, 0)))],
    );
}

#[test]
fn mino_rotation_checks3ok1() {
    assert_wrapper(
        String::new()
            + "XXX_______"
            + "XXX_______"
            + "XXX_XXXXXX"
            + "XXX____XXX",
        &[
            (Piece::I, Rotate::Right, 3, 2, RotateDirection::Clockwise, Some(Coordinate::new(2, -2))),
            (Piece::I, Rotate::Left, 3, 1, RotateDirection::Clockwise, Some(Coordinate::new(1, 1))),
        ],
    );
    assert_wrapper(
        String::new()
            + "___X______"
            + "X_XXXXXXXX"
            + "X__XXXXXXX"
            + "XX_XXXXXXX",
        &[(Piece::S, Rotate::Spawn, 2, 3, RotateDirection::CounterClockwise, Some(Coordinate::new(0, -2)))],
    );
    assert_wrapper(
        String::new()
            + "__X_______"
            + "XXXX_XXXXX"
            + "XXX__XXXXX"
            + "XXX_XXXXXX",
        &[(Piece::Z, Rotate::Spawn, 3, 3, RotateDirection::Clockwise, Some(Coordinate::new(0, -2)))],
    );
    assert_wrapper(
        String::new()
            + "XXXX______"
            + "XX________"
            + "XX_XXXXXXX",
        &[(Piece::L, Rotate::Left, 4, 2, RotateDirection::CounterClockwise, Some(Coordinate::new(-1, -1)))],
    );
    assert_wrapper(
        String::new()
            + "______XXXX"
            + "________XX"
            + "XXXXXXX_XX",
        &[(Piece::J, Rotate::Right, 5, 2, RotateDirection::Clockwise, Some(Coordinate::new(1, -1)))],
    );
    assert_wrapper(
        String::new()
            + "____XXXXXX"
            + "XX___XXXXX"
            + "XXX_XXXXXX",
        &[(Piece::T, Rotate::Left, 3, 1, RotateDirection::CounterClockwise, Some(Coordinate::new(0, 0)))],
    );
}

#[test]
fn mino_rotation_checks3ok2() {
    assert_wrapper(
        String::new()
            + "__________"
            + "XXX_______"
            + "X____XXXXX"
            + "XXX____XXX",
        &[
            (Piece::I, Rotate::Right, 3, 2, RotateDirection::Clockwise, Some(Coordinate::new(0, -1))),
            (Piece::I, Rotate::Left, 3, 1, RotateDirection::Clockwise, Some(Coordinate::new(1, 1))),
        ],
    );
    assert_wrapper(
        String::new()
            + "XXX_______"
            + "XX___XXXXX"
            + "XXX_XXXXXX",
        &[(Piece::T, Rotate::Right, 3, 1, RotateDirection::Clockwise, Some(Coordinate::new(0, 0)))],
    );
}

#[test]
fn mino_rotation_checks3ok3() {
    assert_wrapper(
        String::new()
                + "X_________"
                + "XXX___XXXX"
                + "XXX_XXXXXX"
                + "XXX____XXX",
        &[
            (Piece::I, Rotate::Right, 3, 2, RotateDirection::Clockwise, Some(Coordinate::new(2, -2))),
            (Piece::I, Rotate::Left, 3, 1, RotateDirection::Clockwise, Some(Coordinate::new(1, -1))),
        ],
    );
}

#[test]
fn mino_rotation_checks3ok4() {
    assert_wrapper(
        String::new()
            + "__________"
            + "XXX___XXXX"
            + "XXX_XXXXXX"
            + "XXX____XXX",
        &[
            (Piece::I, Rotate::Right, 3, 2, RotateDirection::Clockwise, Some(Coordinate::new(-1, 1))),
            (Piece::I, Rotate::Left, 3, 1, RotateDirection::Clockwise, Some(Coordinate::new(1, -1))),
        ],
    );
}

#[test]
fn mino_rotation_checks4ok1() {
    assert_wrapper(
        String::new()
            + "_______XXX"
            + "_______XXX"
            + "XXXXXX_XXX"
            + "XXX____XXX",
        &[
            (Piece::I, Rotate::Left, 6, 1, RotateDirection::CounterClockwise, Some(Coordinate::new(-1, -1))),
            (Piece::I, Rotate::Right, 6, 2, RotateDirection::CounterClockwise, Some(Coordinate::new(-2, 0))),
        ],
    );
    assert_wrapper(
        String::new()
            + "XX________"
            + "X_________"
            + "X_XXXXXXXX"
            + "X__XXXXXXX"
            + "XX_XXXXXXX",
        &[(Piece::S, Rotate::Spawn, 2, 3, RotateDirection::Clockwise, Some(Coordinate::new(-1, -2)))],
    );
    assert_wrapper(
        String::new()
            + "____XX____"
            + "_____X____"
            + "XXXX_XXXXX"
            + "XXX__XXXXX"
            + "XXX_XXXXXX",
        &[(Piece::Z, Rotate::Spawn, 3, 3, RotateDirection::CounterClockwise, Some(Coordinate::new(1, -2)))],
    );
    assert_wrapper(
        String::new()
            + "____XXXXXX"
            + "XX___XXXXX"
            + "XX_XXXXXXX",
        &[
            (Piece::L, Rotate::Right, 2, 2, RotateDirection::Clockwise, Some(Coordinate::new(1, -1))),
            (Piece::L, Rotate::Right, 3, 2, RotateDirection::Clockwise, Some(Coordinate::new(0, 2))),
        ],
    );
    assert_wrapper(
        String::new()
            + "XXXXXX____"
            + "XXXXX___XX"
            + "XXXXXXX_XX",
        &[
            (Piece::J, Rotate::Left, 7, 2, RotateDirection::CounterClockwise, Some(Coordinate::new(-1, -1))),
            (Piece::J, Rotate::Left, 6, 2, RotateDirection::CounterClockwise, Some(Coordinate::new(0, 2))),
        ],
    );
    assert_wrapper(
        String::new()
            + "XXXX______"
            + "XXX_______"
            + "XXX_XXXXXX"
            + "XXX__XXXXX"
            + "XXX_XXXXXX",
        &[(Piece::T, Rotate::Spawn, 4, 3, RotateDirection::Clockwise, Some(Coordinate::new(-1, -2)))],
    );
}

#[test]
fn mino_rotation_checks4ok2() {
    assert_wrapper(
        String::new()
            + "__________"
            + "_______XXX"
            + "XXXXXX_XXX"
            + "XXX____XXX",
        &[
            (Piece::I, Rotate::Left, 6, 1, RotateDirection::CounterClockwise, Some(Coordinate::new(-1, -1))),
            (Piece::I, Rotate::Right, 6, 2, RotateDirection::CounterClockwise, Some(Coordinate::new(-2, 0))),
        ],
    );
    assert_wrapper(
        String::new()
            + "XX________"
            + "X_________"
            + "X_________"
            + "X_XXXXXXXX"
            + "X__XXXXXXX"
            + "XX_XXXXXXX",
        &[(Piece::S, Rotate::Spawn, 2, 3, RotateDirection::Clockwise, Some(Coordinate::new(-1, -2)))],
    );
    assert_wrapper(
        String::new()
            + "____XX____"
            + "_____X____"
            + "_____X____"
            + "XXXX_XXXXX"
            + "XXX__XXXXX"
            + "XXX_XXXXXX",
        &[(Piece::Z, Rotate::Spawn, 3, 3, RotateDirection::CounterClockwise, Some(Coordinate::new(1, -2)))],
    );
    assert_wrapper(
        String::new()
            + "___XX_____"
            + "____X_____"
            + "XXX_XXXXXX"
            + "XX__XXXXXX"
            + "XXX_XXXXXX",
        &[(Piece::T, Rotate::Spawn, 2, 3, RotateDirection::CounterClockwise, Some(Coordinate::new(1, -2)))],
    );
}

#[test]
fn mino_rotation_checks4ok3() {
    assert_wrapper(
        String::new()
            + "__________"
            + "_______XXX"
            + "XXXXX____X"
            + "XXX____XXX",
        &[
            (Piece::I, Rotate::Left, 6, 1, RotateDirection::CounterClockwise, Some(Coordinate::new(1, 0))),
            (Piece::I, Rotate::Right, 6, 2, RotateDirection::CounterClockwise, Some(Coordinate::new(-2, 0))),
        ],
    );
    assert_wrapper(
        String::new()
            + "X_________"
            + "__________"
            + "X_XXXXXXXX"
            + "X__XXXXXXX"
            + "XX_XXXXXXX",
        &[(Piece::S, Rotate::Spawn, 1, 3, RotateDirection::Clockwise, Some(Coordinate::new(0, -2)))],
    );
    assert_wrapper(
        String::new()
            + "_____XX___"
            + "______X___"
            + "XXXX_XXXXX"
            + "XXX__XXXXX"
            + "XXX_XXXXXX",
        &[(Piece::Z, Rotate::Spawn, 4, 3, RotateDirection::CounterClockwise, Some(Coordinate::new(0, -2)))],
    );
}

#[test]
fn mino_rotation_checks4ok4() {
    assert_wrapper(
        String::new()
            + "_______XXX"
            + "XXXX___XXX"
            + "XXXXXX_XXX"
            + "XXX____XXX",
        &[
            (Piece::I, Rotate::Left, 6, 1, RotateDirection::CounterClockwise, Some(Coordinate::new(-1, -1))),
            (Piece::I, Rotate::Right, 6, 2, RotateDirection::CounterClockwise, Some(Coordinate::new(-2, -2))),
        ],
    );
}

#[test]
fn mino_rotation_checks4ok5() {
    assert_wrapper(
        String::new()
            + "_________X"
            + "XXXX___XXX"
            + "XXXXXX_XXX"
            + "XXX____XXX",
        &[
            (Piece::I, Rotate::Left, 6, 1, RotateDirection::CounterClockwise, Some(Coordinate::new(-1, -1))),
            (Piece::I, Rotate::Right, 6, 2, RotateDirection::CounterClockwise, Some(Coordinate::new(-2, -2))),
        ],
    );
}

#[test]
fn checks5() {
    assert_wrapper(
        String::new()
            + "__________"
            + "XXXXX_____"
            + "XX________"
            + "X_________",
        &[
            (Piece::I, Rotate::Spawn, 2, 0, RotateDirection::Clockwise, None),
            (Piece::I, Rotate::Spawn, 2, 0, RotateDirection::CounterClockwise, None),
        ],
    );
}

#[test]
fn checks_right() {
    assert_wrapper(
        String::new()
            + "X__XXXXXXX"
            + "X___XXXXXX"
            + "XX__XXXXXX",
        &[
            (Piece::O, Rotate::Spawn, 1, 1, RotateDirection::Clockwise, Some(Coordinate::new(0, 1))),
            (Piece::O, Rotate::Right, 1, 2, RotateDirection::Clockwise, Some(Coordinate::new(1, 0))),
            (Piece::O, Rotate::Reverse, 2, 2, RotateDirection::Clockwise, Some(Coordinate::new(0, -1))),
            (Piece::O, Rotate::Left, 2, 1, RotateDirection::Clockwise, Some(Coordinate::new(-1, 0))),
        ],
    );
}

#[test]
fn checks_left() {
    assert_wrapper(
        String::new()
            + "X__XXXXXXX"
            + "X___XXXXXX"
            + "XX__XXXXXX",
        &[
            (Piece::O, Rotate::Spawn, 1, 1, RotateDirection::CounterClockwise, Some(Coordinate::new(1, 0))),
            (Piece::O, Rotate::Left, 2, 1, RotateDirection::CounterClockwise, Some(Coordinate::new(0, 1))),
            (Piece::O, Rotate::Reverse, 2, 2, RotateDirection::CounterClockwise, Some(Coordinate::new(-1, 0))),
            (Piece::O, Rotate::Right, 1, 2, RotateDirection::CounterClockwise, Some(Coordinate::new(0, -1))),
        ],
    );
}

#[test]
fn mino_rotation_checks3ng1() {
    assert_wrapper(
        String::new()
            + "__________"
            + "X_XXXXXXXX"
            + "X__XXXXXXX"
            + "XX_XXXXXXX",
        &[(Piece::S, Rotate::Spawn, 2, 3, RotateDirection::CounterClockwise, Some(Coordinate::new(1, 1)))],
    );
    assert_wrapper(
        String::new()
            + "__________"
            + "XXXX_XXXXX"
            + "XXX__XXXXX"
            + "XXX_XXXXXX",
        &[(Piece::Z, Rotate::Spawn, 3, 3, RotateDirection::Clockwise, Some(Coordinate::new(-1, 1)))],
    );
    assert_wrapper(
        String::new()
            + "XXX_______"
            + "XX________"
            + "XX_XXXXXXX",
        &[
            (Piece::L, Rotate::Left, 4, 2, RotateDirection::CounterClockwise, Some(Coordinate::new(0, 0))),
            (Piece::L, Rotate::Left, 3, 2, RotateDirection::CounterClockwise, Some(Coordinate::new(0, 2))),
        ],
    );
    assert_wrapper(
        String::new()
            + "_______XXX"
            + "________XX"
            + "XXXXXXX_XX",
        &[
            (Piece::J, Rotate::Right, 5, 2, RotateDirection::Clockwise, Some(Coordinate::new(0, 0))),
            (Piece::J, Rotate::Right, 6, 2, RotateDirection::Clockwise, Some(Coordinate::new(0, 2))),
        ],
    );
}

#[test]
fn mino_rotation_checks4ng1() {
    assert_wrapper(
        String::new()
            + "X_________"
            + "__________"
            + "__________"
            + "X_XXXXXXXX"
            + "X__XXXXXXX"
            + "XX_XXXXXXX",
        &[(Piece::S, Rotate::Spawn, 1, 3, RotateDirection::Clockwise, Some(Coordinate::new(-1, 0)))],
    );
    assert_wrapper(
        String::new()
            + "_____XX___"
            + "______X___"
            + "______X___"
            + "XXXX_XXXXX"
            + "XXX__XXXXX"
            + "XXX_XXXXXX",
        &[(Piece::Z, Rotate::Spawn, 4, 3, RotateDirection::CounterClockwise, Some(Coordinate::new(1, 0)))],
    );
    assert_wrapper(
        String::new()
            + "____XXXXXX"
            + "X____XXXXX"
            + "XX_XXXXXXX",
        &[(Piece::L, Rotate::Right, 2, 2, RotateDirection::Clockwise, Some(Coordinate::new(0, 0)))],
    );
    assert_wrapper(
        String::new()
            + "XXXXXX____"
            + "XXXXX____X"
            + "XXXXXXX_XX",
        &[(Piece::J, Rotate::Left, 7, 2, RotateDirection::CounterClockwise, Some(Coordinate::new(0, 0)))],
    );
    assert_wrapper(
        String::new()
            + "XXXX______"
            + "XXX_______"
            + "XXX_______"
            + "XXX_XXXXXX"
            + "XXX__XXXXX"
            + "XXX_XXXXXX",
        &[(Piece::T, Rotate::Spawn, 4, 3, RotateDirection::Clockwise, Some(Coordinate::new(-1, 0)))],
    );
}

#[test]
fn mino_rotation_checks5ng1() {
    assert_wrapper(
        String::new()
            + "XX________"
            + "X_________"
            + "X_________",
        &[
            (Piece::S, Rotate::Spawn, 2, 0, RotateDirection::Clockwise, None),
            (Piece::S, Rotate::Spawn, 2, 0, RotateDirection::CounterClockwise, Some(Coordinate::new(1, 1))),
        ],
    );
    assert_wrapper(
        String::new()
            + "________XX"
            + "_________X"
            + "_________X",
        &[
            (Piece::Z, Rotate::Spawn, 7, 0, RotateDirection::CounterClockwise, None),
            (Piece::Z, Rotate::Spawn, 7, 0, RotateDirection::Clockwise, Some(Coordinate::new(-1, 1))),
        ],
    );
    assert_wrapper(
        String::new()
            + "____XXXXXX"
            + "_____XXXXX"
            + "XX_XXXXXXX",
        &[(Piece::L, Rotate::Right, 2, 2, RotateDirection::Clockwise, Some(Coordinate::new(0, 0)))],
    );
    assert_wrapper(
        String::new()
            + "XXXXXX____"
            + "XXXXX_____"
            + "XXXXXXX_XX",
        &[(Piece::J, Rotate::Left, 7, 2, RotateDirection::CounterClockwise, Some(Coordinate::new(0, 0)))],
    );
}

#[test]
fn mino_rotation_checks5ok1() {
    assert_wrapper(
        String::new()
            + "___XXXXXXX"
            + "_____XXXXX"
            + "XX_XXXXXXX",
        &[(Piece::L, Rotate::Right, 2, 2, RotateDirection::Clockwise, Some(Coordinate::new(1, -1)))],
    );
    assert_wrapper(
        String::new()
            + "XXXXXXX___"
            + "XXXXX_____"
            + "XXXXXXX_XX",
        &[(Piece::J, Rotate::Left, 7, 2, RotateDirection::CounterClockwise, Some(Coordinate::new(-1, -1)))],
    );
    assert_wrapper(
        String::new()
            + "XXXX______"
            + "XX________"
            + "XXX_______"
            + "XXX__XXXXX"
            + "XXX_XXXXXX",
        &[(Piece::T, Rotate::Reverse, 3, 3, RotateDirection::CounterClockwise, Some(Coordinate::new(0, -2)))],
    );
}

#[test]
fn mino_rotation_checks6ok1() {
    assert_wrapper(
        String::new()
            + "XXXX_XXXXX"
            + "XX___XXXXX",
        &[(Piece::L, Rotate::Left, 4, 1, RotateDirection::Clockwise, Some(Coordinate::new(-1, -1)))],
    );
    assert_wrapper(
        String::new()
            + "XXXXX_XXXX"
            + "XXXXX___XX",
        &[(Piece::J, Rotate::Right, 5, 1, RotateDirection::CounterClockwise, Some(Coordinate::new(1, -1)))],
    );
    assert_wrapper(
        String::new()
            + "XXXXX_____"
            + "XXX_______"
            + "XXX_______"
            + "XXX__XXXXX"
            + "XXX_XXXXXX",
        &[(Piece::T, Rotate::Reverse, 4, 3, RotateDirection::CounterClockwise, Some(Coordinate::new(-1, -2)))],
    );
}

#[test]
fn mino_rotation_checks6ok2() {
    assert_wrapper(
        String::new()
            + "XXX__XXXXX"
            + "XX___XXXXX",
        &[(Piece::L, Rotate::Left, 4, 1, RotateDirection::Clockwise, Some(Coordinate::new(-1, -1)))],
    );
    assert_wrapper(
        String::new()
            + "XXXXX__XXX"
            + "XXXXX___XX",
        &[(Piece::J, Rotate::Right, 5, 1, RotateDirection::CounterClockwise, Some(Coordinate::new(1, -1)))],
    );
    assert_wrapper(
        String::new()
            + "_____XXXXX"
            + "_______XXX"
            + "_______XXX"
            + "XXXXX__XXX"
            + "XXXXXX_XXX",
        &[(Piece::T, Rotate::Reverse, 5, 3, RotateDirection::Clockwise, Some(Coordinate::new(1, -2)))],
    );
}

#[test]
fn mino_rotation_checks6ok3() {
    assert_wrapper(
        String::new()
            + "XXXX__XXXX"
            + "XX___XXXXX",
        &[(Piece::L, Rotate::Left, 4, 1, RotateDirection::Clockwise, Some(Coordinate::new(-1, -1)))],
    );
    assert_wrapper(
        String::new()
            + "XXXX__XXXX"
            + "XXXXX___XX",
        &[(Piece::J, Rotate::Right, 5, 1, RotateDirection::CounterClockwise, Some(Coordinate::new(1, -1)))],
    );
}

#[test]
fn mino_rotation_checks6ng1() {
    assert_wrapper(
        String::new()
            + "XXX___XXXX"
            + "XX___XXXXX",
        &[(Piece::L, Rotate::Left, 4, 1, RotateDirection::Clockwise, Some(Coordinate::new(0, 0)))],
    );
    assert_wrapper(
        String::new()
            + "XXXX___XXX"
            + "XXXXX___XX",
        &[(Piece::J, Rotate::Right, 5, 1, RotateDirection::CounterClockwise, Some(Coordinate::new(0, 0)))],
    );
}

#[test]
fn mino_rotation_checks7ok1() {
    assert_wrapper(
        String::new()
            + "____XXXXXX"
            + "XX___XXXXX"
            + "XX___XXXXX",
        &[
            (Piece::L, Rotate::Right, 2, 1, RotateDirection::CounterClockwise, Some(Coordinate::new(1, -1))),
            (Piece::L, Rotate::Right, 3, 1, RotateDirection::CounterClockwise, Some(Coordinate::new(0, 2))),
        ],
    );
    assert_wrapper(
        String::new()
            + "XXXXXX____"
            + "XXXXX___XX"
            + "XXXXX___XX",
        &[
            (Piece::J, Rotate::Left, 7, 1, RotateDirection::Clockwise, Some(Coordinate::new(-1, -1))),
            (Piece::J, Rotate::Left, 6, 1, RotateDirection::Clockwise, Some(Coordinate::new(0, 2))),
        ],
    );
    assert_wrapper(
        String::new()
            + "XXXXX_____"
            + "XX________"
            + "XXX_______"
            + "XX__XXXXXX"
            + "XXX_XXXXXX",
        &[(Piece::T, Rotate::Reverse, 3, 3, RotateDirection::Clockwise, Some(Coordinate::new(0, -2)))],
    );
}

#[test]
fn mino_rotation_checks7ng1() {
    assert_wrapper(
        String::new()
            + "____XXXXXX"
            + "X____XXXXX"
            + "XX___XXXXX",
        &[(Piece::L, Rotate::Right, 2, 1, RotateDirection::CounterClockwise, Some(Coordinate::new(0, 0)))],
    );
    assert_wrapper(
        String::new()
            + "XXXXXX____"
            + "XXXXX____X"
            + "XXXXX___XX",
        &[(Piece::J, Rotate::Left, 7, 1, RotateDirection::Clockwise, Some(Coordinate::new(0, 0)))],
    );
}

#[test]
fn mino_rotation_checks8ok1() {
    assert_wrapper(
        String::new()
            + "XXX_______"
            + "XX________"
            + "XX_XXXXXXX"
            + "XX_XXXXXXX"
            + "XX__XXXXXX",
        &[(Piece::L, Rotate::Spawn, 3, 3, RotateDirection::Clockwise, Some(Coordinate::new(-1, -2)))],
    );
    assert_wrapper(
        String::new()
            + "_______XXX"
            + "________XX"
            + "XXXXXXX_XX"
            + "XXXXXXX_XX"
            + "XXXXXX__XX",
        &[(Piece::J, Rotate::Spawn, 6, 3, RotateDirection::CounterClockwise, Some(Coordinate::new(1, -2)))],
    );
}

#[test]
fn mino_rotation_checks8ok2() {
    assert_wrapper(
        String::new()
            + "XXX_______"
            + "XX________"
            + "XX________"
            + "XX_XXXXXXX"
            + "XX_XXXXXXX"
            + "XX__XXXXXX",
        &[(Piece::L, Rotate::Spawn, 3, 3, RotateDirection::Clockwise, Some(Coordinate::new(-1, -2)))],
    );
    assert_wrapper(
        String::new()
            + "_______XXX"
            + "________XX"
            + "________XX"
            + "XXXXXXX_XX"
            + "XXXXXXX_XX"
            + "XXXXXX__XX",
        &[(Piece::J, Rotate::Spawn, 6, 3, RotateDirection::CounterClockwise, Some(Coordinate::new(1, -2)))],
    );
}

#[test]
fn mino_rotation_checks8ok3() {
    assert_wrapper(
        String::new()
            + "XX________"
            + "X_________"
            + "XX_XXXXXXX"
            + "XX_XXXXXXX"
            + "XX__XXXXXX",
        &[(Piece::L, Rotate::Spawn, 2, 3, RotateDirection::Clockwise, Some(Coordinate::new(0, -2)))],
    );
    assert_wrapper(
        String::new()
            + "________XX"
            + "_________X"
            + "_________X"
            + "XXXXXXX_XX"
            + "XXXXXXX_XX"
            + "XXXXXX__XX",
        &[(Piece::J, Rotate::Spawn, 7, 3, RotateDirection::CounterClockwise, Some(Coordinate::new(0, -2)))],
    );
}

#[test]
fn mino_rotation_checks8ok4() {
    assert_wrapper(
        String::new()
            + "XX________"
            + "X_________"
            + "X_________"
            + "XX_XXXXXXX"
            + "XX_XXXXXXX"
            + "XX__XXXXXX",
        &[(Piece::L, Rotate::Spawn, 2, 3, RotateDirection::Clockwise, Some(Coordinate::new(0, -2)))],
    );
    assert_wrapper(
        String::new()
            + "________XX"
            + "_________X"
            + "_________X"
            + "XXXXXXX_XX"
            + "XXXXXXX_XX"
            + "XXXXXX__XX",
        &[(Piece::J, Rotate::Spawn, 7, 3, RotateDirection::CounterClockwise, Some(Coordinate::new(0, -2)))],
    );
}

#[test]
fn mino_rotation_checks8ng1() {
    assert_wrapper(
        String::new()
            + "XX_XXXXXXX"
            + "XX_XXXXXXX"
            + "XX__XXXXXX",
        &[(Piece::L, Rotate::Spawn, 2, 3, RotateDirection::Clockwise, Some(Coordinate::new(-1, 1)))],
    );
    assert_wrapper(
        String::new()
            + "XXXXXXX_XX"
            + "XXXXXXX_XX"
            + "XXXXXX__XX",
        &[(Piece::J, Rotate::Spawn, 7, 3, RotateDirection::CounterClockwise, Some(Coordinate::new(1, 1)))],
    );
}

#[test]
fn mino_rotation_checks9ng1() {
    assert_wrapper(
        String::new()
            + "________XX"
            + "_________X"
            + "_________X",
        &[
            (Piece::L, Rotate::Spawn, 7, 0, RotateDirection::CounterClockwise, None),
            (Piece::L, Rotate::Spawn, 7, 0, RotateDirection::Clockwise, Some(Coordinate::new(-1, 1))),
        ],
    );
    assert_wrapper(
        String::new()
            + "XX________"
            + "X_________"
            + "X_________",
        &[
            (Piece::J, Rotate::Spawn, 2, 0, RotateDirection::Clockwise, None),
            (Piece::J, Rotate::Spawn, 2, 0, RotateDirection::CounterClockwise, Some(Coordinate::new(1, 1))),
        ],
    );
}

#[test]
fn checks1ok2() {
    assert_wrapper(
        String::new()
            + "________XX"
            + "_________X"
            + "_________X"
            + "XXXXXXXX_X",
        &[(Piece::T, Rotate::Spawn, 7, 1, RotateDirection::CounterClockwise, Some(Coordinate::new(1, 0)))],
    );
}

#[test]
fn checks2ok2() {
    assert_wrapper(
        String::new()
            + "XX________"
            + "XX__XXXXXX"
            + "XX___XXXXX",
        &[(Piece::T, Rotate::Right, 2, 1, RotateDirection::CounterClockwise, Some(Coordinate::new(1, -1)))],
    );
}

#[test]
fn checks4ng2() {
    assert_wrapper(
        String::new()
            + "___XX____X"
            + "____X____X"
            + "____X____X"
            + "XXX_XXXXXX"
            + "XX__XXXXXX"
            + "XXX_XXXXXX",
        &[(Piece::T, Rotate::Spawn, 2, 3, RotateDirection::CounterClockwise, Some(Coordinate::new(1, 0)))],
    );
}

#[test]
fn checks4ng3() {
    assert_wrapper(
        String::new()
            + "XXX_XXXXXX"
            + "XXX__XXXXX"
            + "XXX_XXXXXX",
        &[(Piece::T, Rotate::Spawn, 3, 3, RotateDirection::CounterClockwise, Some(Coordinate::new(0, 0)))],
    );
}

#[test]
fn checks4ng4() {
    assert_wrapper(
        String::new()
            + "XXX_XXXXXX"
            + "XX__XXXXXX"
            + "XXX_XXXXXX",
        &[(Piece::T, Rotate::Spawn, 3, 3, RotateDirection::CounterClockwise, Some(Coordinate::new(0, 0)))],
    );
}

#[test]
fn checks5ok2() {
    assert_wrapper(
        String::new()
            + "______XXXX"
            + "________XX"
            + "_______XXX"
            + "XXXXX__XXX"
            + "XXXXXX_XXX",
        &[(Piece::T, Rotate::Reverse, 6, 3, RotateDirection::Clockwise, Some(Coordinate::new(0, -2)))],
    );
}

#[test]
fn checks7ok2() {
    assert_wrapper(
        String::new()
            + "_____XXXXX"
            + "________XX"
            + "_______XXX"
            + "XXXXXX__XX"
            + "XXXXXX_XXX",
        &[(Piece::T, Rotate::Reverse, 6, 3, RotateDirection::CounterClockwise, Some(Coordinate::new(0, -2)))],
    );
}

#[test]
fn mino_rotation_ccw() {
    for piece in OTHER_PIECES {
        test_wrapper(
            piece,
            RotateDirection::CounterClockwise,
            vec![
                &[Coordinate::new(0, 0), Coordinate::new(1, 0), Coordinate::new(1, 1), Coordinate::new(0, -2), Coordinate::new(1, -2)],
                &[Coordinate::new(0, 0), Coordinate::new(1, 0), Coordinate::new(1, -1), Coordinate::new(0, 2), Coordinate::new(1, 2)],
                &[Coordinate::new(0, 0), Coordinate::new(-1, 0), Coordinate::new(-1, 1), Coordinate::new(0, -2), Coordinate::new(-1, -2)],
                &[Coordinate::new(0, 0), Coordinate::new(-1, 0), Coordinate::new(-1, -1), Coordinate::new(0, 2), Coordinate::new(-1, 2)],
            ],
        );
    }
    test_wrapper(
        Piece::I,
        RotateDirection::CounterClockwise,
        vec![
            &[Coordinate::new(0, -1), Coordinate::new(-1, -1), Coordinate::new(2, -1), Coordinate::new(-1, 1), Coordinate::new(2, -2)],
            &[Coordinate::new(-1, 0), Coordinate::new(1, 0), Coordinate::new(-2, 0), Coordinate::new(1, 1), Coordinate::new(-2, -2)],
            &[Coordinate::new(0, 1), Coordinate::new(1, 1), Coordinate::new(-2, 1), Coordinate::new(1, -1), Coordinate::new(-2, 2)],
            &[Coordinate::new(1, 0), Coordinate::new(-1, 0), Coordinate::new(2, 0), Coordinate::new(-1, -1), Coordinate::new(2, 2)],
        ],
    );
    test_wrapper(
        Piece::O,
        RotateDirection::CounterClockwise,
        vec![&[Coordinate::new(1, 0)], &[Coordinate::new(0, -1)], &[Coordinate::new(-1, 0)], &[Coordinate::new(0, 1)]],
    );
}

#[test]
fn mino_rotation_cw() {
    for piece in OTHER_PIECES {
        test_wrapper(
            piece,
            RotateDirection::Clockwise,
            vec![
                &[Coordinate::new(0, 0), Coordinate::new(-1, 0), Coordinate::new(-1, 1), Coordinate::new(0, -2), Coordinate::new(-1, -2)],
                &[Coordinate::new(0, 0), Coordinate::new(1, 0), Coordinate::new(1, -1), Coordinate::new(0, 2), Coordinate::new(1, 2)],
                &[Coordinate::new(0, 0), Coordinate::new(1, 0), Coordinate::new(1, 1), Coordinate::new(0, -2), Coordinate::new(1, -2)],
                &[Coordinate::new(0, 0), Coordinate::new(-1, 0), Coordinate::new(-1, -1), Coordinate::new(0, 2), Coordinate::new(-1, 2)],
            ],
        );
    }
    test_wrapper(
        Piece::I,
        RotateDirection::Clockwise,
        vec![
            &[Coordinate::new(1, 0), Coordinate::new(-1, 0), Coordinate::new(2, 0), Coordinate::new(-1, -1), Coordinate::new(2, 2)],
            &[Coordinate::new(0, -1), Coordinate::new(-1, -1), Coordinate::new(2, -1), Coordinate::new(-1, 1), Coordinate::new(2, -2)],
            &[Coordinate::new(-1, 0), Coordinate::new(1, 0), Coordinate::new(-2, 0), Coordinate::new(1, 1), Coordinate::new(-2, -2)],
            &[Coordinate::new(0, 1), Coordinate::new(1, 1), Coordinate::new(-2, 1), Coordinate::new(1, -1), Coordinate::new(-2, 2)],
        ],
    );
    test_wrapper(
        Piece::O,
        RotateDirection::Clockwise,
        vec![&[Coordinate::new(0, 1)], &[Coordinate::new(1, 0)], &[Coordinate::new(0, -1)], &[Coordinate::new(-1, 0)]],
    );
}
