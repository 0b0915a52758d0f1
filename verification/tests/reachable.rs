use sfinder_lib::sfinder_core::action::reachable::harddrop_reachable::HarddropReachable;
use sfinder_lib::sfinder_core::action::reachable::deepdrop_reachable;
use sfinder_lib::sfinder_core::action::reachable::last_softdrop_reachable::LastSoftdropReachable;
use sfinder_lib::sfinder_core::action::reachable::reachable::{Reachable, ReachableForCover};
use sfinder_lib::sfinder_core::action::reachable::reachable_facade;
use sfinder_lib::sfinder_core::action::reachable::softdrop_t_only_reachable::SoftdropTOnlyReachable;
use sfinder_lib::sfinder_core::field::field::Field;
use sfinder_lib::sfinder_core::field::field_factory;
use sfinder_lib::sfinder_core::field::field_view;
use sfinder_lib::sfinder_core::mino::mino_factory::MinoFactory;
use sfinder_lib::sfinder_core::mino::mino_shifter::MinoShifter;
use sfinder_lib::sfinder_core::mino::piece::Piece::{self, I, O, S, T};
use sfinder_lib::sfinder_core::srs::rotate::Rotate::{self, Left, Reverse, Right, Spawn};
use sfinder_lib::sfinder_core::srs::srs_mino_rotation_factory;

fn test_wrapper(marks: String, test_cases: &[(bool, Piece, Rotate, u8, u8)]) {
    let mino_factory = MinoFactory::new();
    let mino_shifter = MinoShifter::new();
    let mino_rotation = srs_mino_rotation_factory::create();

    let field = field_factory::create_field_with_marks(marks);

    let mut reachable = reachable_facade::create_90_locked(&mino_factory, &mino_shifter, &mino_rotation, 8);

    for (expected, piece, rotate, x, y) in test_cases {
        let mino = mino_factory.get(*piece, *rotate);
        assert!(field.can_put(mino, *x, *y));
        let mino = mino_factory.get(*piece, *rotate);
        assert_eq!(reachable.check(&field, mino, *x, *y, 8), *expected, "{piece:?} {rotate:?} {x} {y}")
    }
}

#[test]
fn debug() {
    let mut field = field_factory::create_field(4);
    field.put(MinoFactory::new().get(I, Right), 1, 2);
    println!("{}", field_view::to_string(&field));
}

#[test]
fn locked_reachable_checks1ok1() {
                test_wrapper(
                    String::new()
                        + "XX________"
                        + "X_________"
                        + "X_XXXXXXXX"
                        + "X_XXXXXXXX"
                        + "X_XXXXXXXX",
                    &[(false, I, Left, 1, 1), (true, I, Right, 1, 2)],
                );
                                test_wrapper(
                    String::new()
                        + "X__XXXXXXX"
                        + "X___XXXXXX"
                        + "XX__XXXXXX",
                    &[
                        (true, O, Spawn, 1, 1),
                        (false, O, Spawn, 2, 0),
                        (false, O, Right, 2, 1),
                        (false, O, Reverse, 3, 1),
                        (false, O, Left, 3, 0),
                    ],
                );
                                test_wrapper(
                    String::new()
                        + "XX__XXXXXX"
                        + "X__XXXXXXX",
                    &[
                        (true, S, Reverse, 2, 1),
                        (false, S, Spawn, 2, 0),
                    ],
                );
}

#[test]
fn locked_reachable_checks1ng1() {
                test_wrapper(
                    String::new()
                        + "XX________"
                        + "X_________"
                        + "X_X_XXXXXX"
                        + "X_X_XXXXXX"
                        + "X_XXXXXXXX",
                    &[(false, I, Left, 1, 1), (false, I, Right, 1, 2)],
                );
}

#[test]
fn locked_reachable_checks1ng2() {
                test_wrapper(
                    String::new()
                        + "XX________"
                        + "X_________"
                        + "X_XX_XXXXX"
                        + "X_XX_XXXXX"
                        + "X_XXXXXXXX",
                    &[(false, I, Left, 1, 1), (false, I, Right, 1, 2)],
                );
}

#[test]
fn locked_reachable_checks2ok1() {
                test_wrapper(
                    String::new()
                        + "________XX"
                        + "_________X"
                        + "XXXXXXXX_X"
                        + "XXXXXXXX_X"
                        + "XXXXXXXX_X",
                    &[(true, I, Right, 8, 2), (false, I, Left, 8, 1)],
                );
}

#[test]
fn locked_reachable_checks2ng1() {
                test_wrapper(
                    String::new()
                        + "________XX"
                        + "_________X"
                        + "XXXXXXX__X"
                        + "XXXXXXXX_X"
                        + "XXXXXXXX_X",
                    &[(false, I, Right, 8, 2), (false, I, Left, 8, 1)],
                );
}

#[test]
fn locked_reachable_checks2ng2() {
                test_wrapper(
                    String::new()
                        + "________XX"
                        + "_________X"
                        + "XXXXX_XX_X"
                        + "XXXXXXXX_X"
                        + "XXXXXXXX_X",
                    &[(false, I, Right, 8, 2), (false, I, Left, 8, 1)],
                );
}

#[test]
fn locked_reachable_checks3ok1() {
                                test_wrapper(
                    String::new()
                        + "XXX_______"
                        + "XXX_______"
                        + "XXX_XXXXXX"
                        + "XXX____XXX",
                    &[(true, I, Reverse, 5, 0), (false, I, Spawn, 4, 0)],
                );
}

#[test]
fn locked_reachable_checks3ng1() {
                                test_wrapper(
                    String::new()
                        + "__________"
                        + "XXX_______"
                        + "XXX_XXXXXX"
                        + "XXX____XXX",
                    &[(false, I, Reverse, 5, 0), (false, I, Spawn, 4, 0)],
                );
}

#[test]
fn locked_reachable_checks3ok2() {
                                test_wrapper(
                    String::new()
                        + "__________"
                        + "XXX_______"
                        + "X____XXXXX"
                        + "XXX____XXX",
                    &[
                        (true, I, Reverse, 3, 1),
                        (false, I, Spawn, 2, 1), 
                        (false, I, Reverse, 5, 0),
                        (false, I, Spawn, 4, 0)
                    ],
                );
}

#[test]
fn locked_reachable_checks3ok3() {
                                test_wrapper(
                    String::new()
                        + "X_________"
                        + "XXX___XXXX"
                        + "XXX_XXXXXX"
                        + "XXX____XXX",
                    &[(true, I, Reverse, 5, 0), (true, I, Spawn, 4, 0)],
                );
}

#[test]
fn locked_reachable_checks4ok1() {
                                test_wrapper(
                    String::new()
                        + "_______XXX"
                        + "_______XXX"
                        + "XXXXXX_XXX"
                        + "XXX____XXX",
                    &[(true, I, Reverse, 5, 0), (false, I, Spawn, 4, 0)],
                );
}

#[test]
fn locked_reachable_checks4ok2() {
                                test_wrapper(
                    String::new()
                        + "__________"
                        + "_______XXX"
                        + "XXXXXX_XXX"
                        + "XXX____XXX",
                    &[(true, I, Reverse, 5, 0), (false, I, Spawn, 4, 0)],
                );
}

#[test]
fn locked_reachable_checks4ok3() {
                                test_wrapper(
                    String::new()
                        + "__________"
                        + "_______XXX"
                        + "XXXXX____X"
                        + "XXX____XXX",
                    &[
                        (true, I, Reverse, 7, 1),
                        (false, I, Spawn, 6, 1),
                        (false, I, Reverse, 5, 0),
                        (false, I, Spawn, 4, 0)
                    ],
                );
}

#[test]
fn locked_reachable_checks4ok4() {
                                test_wrapper(
                    String::new()
                        + "_______XXX"
                        + "XXXX___XXX"
                        + "XXXXXX_XXX"
                        + "XXX____XXX",
                    &[(true, I, Reverse, 5, 0), (true, I, Spawn, 4, 0)],
                );
}

#[test]
fn locked_reachable_checks4ok5() {
                                test_wrapper(
                    String::new()
                        + "_________X"
                        + "XXXX___XXX"
                        + "XXXXXX_XXX"
                        + "XXX____XXX",
                    &[(true, I, Reverse, 5, 0), (true, I, Spawn, 4, 0)],
                );
}

#[test]
fn checks() {
    let mino_factory = MinoFactory::new();
    let mut reachable = HarddropReachable::new(4);
    let field = field_factory::create_field_with_marks(
        String::new()
            + "_XX_____XX"
            + "__XX____XX"
            + "X_XX____XX"
            + "XXXXX___XX"
    );

    assert!(reachable.checks(&field, mino_factory.get(Piece::I, Rotate::Spawn), 5, 1, 4));
    assert!(!reachable.checks(&field, mino_factory.get(Piece::I, Rotate::Spawn), 5, 2, 4));
    assert!(!reachable.checks(&field, mino_factory.get(Piece::S, Rotate::Left), 1, 2, 4));
}

#[test]
fn deepdrop_takes_placements_below_the_valid_height() {
    let mino_factory = MinoFactory::new();
    let field = field_factory::create_field(4);
    let mut reachable = deepdrop_reachable::HarddropReachable::new();
    assert!(reachable.check(&field, mino_factory.get(T, Spawn), 4, 2, 4));
    assert!(!reachable.check(&field, mino_factory.get(T, Spawn), 4, 3, 4));
    assert!(reachable.checks(&field, mino_factory.get(I, Right), 0, 2, 4));
}

#[test]
fn softdrop_t_only_drops_other_pieces() {
    let mino_factory = MinoFactory::new();
    let mino_shifter = MinoShifter::new();
    let mino_rotation = srs_mino_rotation_factory::create();
    let field = field_factory::create_field_with_marks(
        String::new() + "XXXX______" + "XXX___XXXX" + "XXXX_XXXXX",
    );
    let mut reachable = SoftdropTOnlyReachable::new(&mino_factory, &mino_shifter, &mino_rotation, 8, false);
    // a T spin into the slot is reachable; other pieces only land where a drop ends
    assert!(reachable.check(&field, mino_factory.get(T, Reverse), 4, 1, 8));
    assert!(reachable.check(&field, mino_factory.get(O, Spawn), 6, 2, 8));
    assert!(!reachable.check(&field, mino_factory.get(O, Spawn), 6, 3, 8));
}

#[test]
fn last_softdrop_switches_search_by_depth() {
    let mino_factory = MinoFactory::new();
    let mino_shifter = MinoShifter::new();
    let mino_rotation = srs_mino_rotation_factory::create();
    let field = field_factory::create_field_with_marks(
        String::new() + "XXXX______" + "XXX___XXXX" + "XXXX_XXXXX",
    );
    let mut reachable = LastSoftdropReachable::new(
        &mino_factory,
        &mino_shifter,
        HarddropReachable::new(8),
        &mino_rotation,
        8,
        1,
        false,
    );
    let mino = mino_factory.get(T, Reverse);
    assert!(ReachableForCover::checks(&mut reachable, &field, mino, 4, 1, 8, 1));
    assert!(!ReachableForCover::checks(&mut reachable, &field, mino, 4, 1, 8, 2));
}

// `locked_reachable_checks1ok1` asks different answers of `check` for two placements covering
// the same cells, so `check` follows the exact orientation and kick; and
// `mino_rotation_checks3ok4` fixes the first fitting clockwise kick from I Right at (3, 2) on this
// field as (-1, 1), to (2, 3). With both, no walk reaches I Reverse at (5, 0), so `check` answers
// false there, while the congruent I Spawn at (4, 0) is reachable.
#[test]
fn kick_order_decides_reachability_on_an_open_top_row() {
    let mino_factory = MinoFactory::new();
    let mino_shifter = MinoShifter::new();
    let mino_rotation = srs_mino_rotation_factory::create();
    let field = field_factory::create_field_with_marks(
        String::new() + "__________" + "XXX___XXXX" + "XXX_XXXXXX" + "XXX____XXX",
    );
    let mut reachable = reachable_facade::create_90_locked(&mino_factory, &mino_shifter, &mino_rotation, 8);
    assert!(!reachable.check(&field, mino_factory.get(I, Reverse), 5, 0, 8));
    assert!(reachable.check(&field, mino_factory.get(I, Spawn), 4, 0, 8));
    assert!(reachable.checks(&field, mino_factory.get(I, Reverse), 5, 0, 8));
}

#[test]
fn search_above_half_a_byte_of_rows() {
    let mino_factory = MinoFactory::new();
    let mino_shifter = MinoShifter::new();
    let mino_rotation = srs_mino_rotation_factory::create();
    let field = field_factory::create_field_with_marks(String::new() + "XXXX______" + "XXX___XXXX" + "XXXX_XXXXX");
    let mut reachable = reachable_facade::create_90_locked(&mino_factory, &mino_shifter, &mino_rotation, 200);
    assert!(reachable.check(&field, mino_factory.get(T, Reverse), 4, 1, 200));
    assert!(reachable.check(&field, mino_factory.get(T, Spawn), 4, 150, 200));
}
