use sfinder_lib::sfinder_core::mino::mino_factory::MinoFactory;
use sfinder_lib::common::datastore::action::minimal_action::MinimalAction;
use sfinder_lib::sfinder_core::mino::mino_shifter::{IMinoShifter, MinoShifter};
use sfinder_lib::sfinder_core::mino::passed_mino_shifter::PassedMinoShifter;
use sfinder_lib::sfinder_core::mino::piece::Piece;
use sfinder_lib::sfinder_core::srs::rotate::Rotate;

#[test]
fn unique_rotates_are_canonical() {
    let shifter = MinoShifter::new();

    for &piece in Piece::value_list().iter() {
        let unique = shifter.get_unique_rotates(piece);
        let canonical = Rotate::value_list()
            .iter()
            .map(|rotate| shifter.create_canonical_rotate(piece, *rotate))
            .collect::<Vec<_>>();

        assert!(
            unique.iter().all(|rotate| canonical.contains(rotate)),
            "{unique:?} does not contain all of {canonical:?}"
        );
    }
}

fn check_transformed_action(input: Vec<((Piece, Rotate, u8, u8), MinimalAction)>) {
    let shifter = MinoShifter::new();

    for ((piece, rotate, x, y), expected) in input {
        assert_eq!(
            shifter.create_canonical_action(piece, rotate, x, y),
            expected
        );
    }
}

fn check_transformed_rotate(input: Vec<((Piece, Rotate), Rotate)>) {
    let shifter = MinoShifter::new();

    for ((piece, rotate), expected) in input {
        assert_eq!(shifter.create_canonical_rotate(piece, rotate), expected);
    }
}

fn check_same_other_actions(input: Vec<((Piece, Rotate, u8, u8), Vec<MinimalAction>)>) {
    let shifter = MinoShifter::new();

    for ((piece, rotate, x, y), expected_others) in input {
        let result = shifter.congruent_actions(piece, rotate, x, y);

        assert_eq!(
            expected_others.len() + 1,
            result.len(),
            "expected: {expected_others:?}, result: {result:?}",
        );
        assert!(
            expected_others.iter().all(|action| result.contains(action)),
            "{result:?} does not contain all of {expected_others:?}",
        );
        assert!(result.contains(&MinimalAction::new(x, y, rotate)));
    }
}

#[test]
fn mino_shifter_create_transformed_action() {
    // I
    check_transformed_action(vec![
        (
            (Piece::I, Rotate::Spawn, 1, 0),
            MinimalAction::new(1, 0, Rotate::Spawn),
        ),
        (
            (Piece::I, Rotate::Reverse, 2, 0),
            MinimalAction::new(1, 0, Rotate::Spawn),
        ),
        (
            (Piece::I, Rotate::Left, 0, 1),
            MinimalAction::new(0, 1, Rotate::Left),
        ),
        (
            (Piece::I, Rotate::Right, 0, 2),
            MinimalAction::new(0, 1, Rotate::Left),
        ),
    ]);
    // S
    check_transformed_action(vec![
        (
            (Piece::S, Rotate::Spawn, 1, 0),
            MinimalAction::new(1, 0, Rotate::Spawn),
        ),
        (
            (Piece::S, Rotate::Reverse, 1, 1),
            MinimalAction::new(1, 0, Rotate::Spawn),
        ),
        (
            (Piece::S, Rotate::Left, 1, 1),
            MinimalAction::new(1, 1, Rotate::Left),
        ),
        (
            (Piece::S, Rotate::Right, 0, 1),
            MinimalAction::new(1, 1, Rotate::Left),
        ),
    ]);
    // Z
    check_transformed_action(vec![
        (
            (Piece::Z, Rotate::Spawn, 1, 0),
            MinimalAction::new(1, 0, Rotate::Spawn),
        ),
        (
            (Piece::Z, Rotate::Reverse, 1, 1),
            MinimalAction::new(1, 0, Rotate::Spawn),
        ),
        (
            (Piece::Z, Rotate::Left, 1, 1),
            MinimalAction::new(0, 1, Rotate::Right),
        ),
        (
            (Piece::Z, Rotate::Right, 0, 1),
            MinimalAction::new(0, 1, Rotate::Right),
        ),
    ]);
    // O
    check_transformed_action(vec![
        (
            (Piece::O, Rotate::Spawn, 0, 0),
            MinimalAction::new(0, 0, Rotate::Spawn),
        ),
        (
            (Piece::O, Rotate::Reverse, 1, 1),
            MinimalAction::new(0, 0, Rotate::Spawn),
        ),
        (
            (Piece::O, Rotate::Left, 1, 0),
            MinimalAction::new(0, 0, Rotate::Spawn),
        ),
        (
            (Piece::O, Rotate::Right, 0, 1),
            MinimalAction::new(0, 0, Rotate::Spawn),
        ),
    ]);
    // T
    check_transformed_action(vec![
        (
            (Piece::T, Rotate::Spawn, 1, 0),
            MinimalAction::new(1, 0, Rotate::Spawn),
        ),
        (
            (Piece::T, Rotate::Reverse, 1, 1),
            MinimalAction::new(1, 1, Rotate::Reverse),
        ),
        (
            (Piece::T, Rotate::Left, 1, 1),
            MinimalAction::new(1, 1, Rotate::Left),
        ),
        (
            (Piece::T, Rotate::Right, 0, 1),
            MinimalAction::new(0, 1, Rotate::Right),
        ),
    ]);
    // L
    check_transformed_action(vec![
        (
            (Piece::L, Rotate::Spawn, 1, 0),
            MinimalAction::new(1, 0, Rotate::Spawn),
        ),
        (
            (Piece::L, Rotate::Reverse, 1, 1),
            MinimalAction::new(1, 1, Rotate::Reverse),
        ),
        (
            (Piece::L, Rotate::Left, 1, 1),
            MinimalAction::new(1, 1, Rotate::Left),
        ),
        (
            (Piece::L, Rotate::Right, 0, 1),
            MinimalAction::new(0, 1, Rotate::Right),
        ),
    ]);
    // J
    check_transformed_action(vec![
        (
            (Piece::J, Rotate::Spawn, 1, 0),
            MinimalAction::new(1, 0, Rotate::Spawn),
        ),
        (
            (Piece::J, Rotate::Reverse, 1, 1),
            MinimalAction::new(1, 1, Rotate::Reverse),
        ),
        (
            (Piece::J, Rotate::Left, 1, 1),
            MinimalAction::new(1, 1, Rotate::Left),
        ),
        (
            (Piece::J, Rotate::Right, 0, 1),
            MinimalAction::new(0, 1, Rotate::Right),
        ),
    ]);
}

#[test]
fn mino_shifter_create_transformed_rotate() {
    // I
    check_transformed_rotate(vec![
        ((Piece::I, Rotate::Spawn), Rotate::Spawn),
        ((Piece::I, Rotate::Reverse), Rotate::Spawn),
        ((Piece::I, Rotate::Left), Rotate::Left),
        ((Piece::I, Rotate::Right), Rotate::Left),
    ]);
    // S
    check_transformed_rotate(vec![
        ((Piece::S, Rotate::Spawn), Rotate::Spawn),
        ((Piece::S, Rotate::Reverse), Rotate::Spawn),
        ((Piece::S, Rotate::Left), Rotate::Left),
        ((Piece::S, Rotate::Right), Rotate::Left),
    ]);
    // Z
    check_transformed_rotate(vec![
        ((Piece::Z, Rotate::Spawn), Rotate::Spawn),
        ((Piece::Z, Rotate::Reverse), Rotate::Spawn),
        ((Piece::Z, Rotate::Left), Rotate::Right),
        ((Piece::Z, Rotate::Right), Rotate::Right),
    ]);
    // O
    check_transformed_rotate(vec![
        ((Piece::O, Rotate::Spawn), Rotate::Spawn),
        ((Piece::O, Rotate::Reverse), Rotate::Spawn),
        ((Piece::O, Rotate::Left), Rotate::Spawn),
        ((Piece::O, Rotate::Right), Rotate::Spawn),
    ]);
    // T
    check_transformed_rotate(vec![
        ((Piece::T, Rotate::Spawn), Rotate::Spawn),
        ((Piece::T, Rotate::Reverse), Rotate::Reverse),
        ((Piece::T, Rotate::Left), Rotate::Left),
        ((Piece::T, Rotate::Right), Rotate::Right),
    ]);
    // L
    check_transformed_rotate(vec![
        ((Piece::L, Rotate::Spawn), Rotate::Spawn),
        ((Piece::L, Rotate::Reverse), Rotate::Reverse),
        ((Piece::L, Rotate::Left), Rotate::Left),
        ((Piece::L, Rotate::Right), Rotate::Right),
    ]);
    // J
    check_transformed_rotate(vec![
        ((Piece::J, Rotate::Spawn), Rotate::Spawn),
        ((Piece::J, Rotate::Reverse), Rotate::Reverse),
        ((Piece::J, Rotate::Left), Rotate::Left),
        ((Piece::J, Rotate::Right), Rotate::Right),
    ]);
}

#[test]
fn mino_shifter_enumerate_same_other_actions() {
    // I
    check_same_other_actions(vec![
        (
            (Piece::I, Rotate::Spawn, 1, 0),
            vec![MinimalAction::new(2, 0, Rotate::Reverse)],
        ),
        (
            (Piece::I, Rotate::Reverse, 2, 0),
            vec![MinimalAction::new(1, 0, Rotate::Spawn)],
        ),
        (
            (Piece::I, Rotate::Left, 0, 1),
            vec![MinimalAction::new(0, 2, Rotate::Right)],
        ),
        (
            (Piece::I, Rotate::Right, 0, 2),
            vec![MinimalAction::new(0, 1, Rotate::Left)],
        ),
    ]);
    // S
    check_same_other_actions(vec![
        (
            (Piece::S, Rotate::Spawn, 1, 0),
            vec![MinimalAction::new(1, 1, Rotate::Reverse)],
        ),
        (
            (Piece::S, Rotate::Reverse, 1, 1),
            vec![MinimalAction::new(1, 0, Rotate::Spawn)],
        ),
        (
            (Piece::S, Rotate::Left, 1, 1),
            vec![MinimalAction::new(0, 1, Rotate::Right)],
        ),
        (
            (Piece::S, Rotate::Right, 0, 1),
            vec![MinimalAction::new(1, 1, Rotate::Left)],
        ),
    ]);
    // Z
    check_same_other_actions(vec![
        (
            (Piece::Z, Rotate::Spawn, 1, 0),
            vec![MinimalAction::new(1, 1, Rotate::Reverse)],
        ),
        (
            (Piece::Z, Rotate::Reverse, 1, 1),
            vec![MinimalAction::new(1, 0, Rotate::Spawn)],
        ),
        (
            (Piece::Z, Rotate::Left, 1, 1),
            vec![MinimalAction::new(0, 1, Rotate::Right)],
        ),
        (
            (Piece::Z, Rotate::Right, 0, 1),
            vec![MinimalAction::new(1, 1, Rotate::Left)],
        ),
    ]);
    // O
    check_same_other_actions(vec![
        (
            (Piece::O, Rotate::Spawn, 0, 0),
            vec![
                MinimalAction::new(1, 1, Rotate::Reverse),
                MinimalAction::new(1, 0, Rotate::Left),
                MinimalAction::new(0, 1, Rotate::Right),
            ],
        ),
        (
            (Piece::O, Rotate::Reverse, 1, 1),
            vec![
                MinimalAction::new(0, 0, Rotate::Spawn),
                MinimalAction::new(1, 0, Rotate::Left),
                MinimalAction::new(0, 1, Rotate::Right),
            ],
        ),
        (
            (Piece::O, Rotate::Left, 1, 0),
            vec![
                MinimalAction::new(0, 0, Rotate::Spawn),
                MinimalAction::new(1, 1, Rotate::Reverse),
                MinimalAction::new(0, 1, Rotate::Right),
            ],
        ),
        (
            (Piece::O, Rotate::Right, 0, 1),
            vec![
                MinimalAction::new(0, 0, Rotate::Spawn),
                MinimalAction::new(1, 1, Rotate::Reverse),
                MinimalAction::new(1, 0, Rotate::Left),
            ],
        ),
    ]);
    // T
    check_same_other_actions(vec![
        ((Piece::T, Rotate::Spawn, 1, 0), vec![]),
        ((Piece::T, Rotate::Reverse, 1, 1), vec![]),
        ((Piece::T, Rotate::Left, 1, 1), vec![]),
        ((Piece::T, Rotate::Right, 0, 1), vec![]),
    ]);
    // L
    check_same_other_actions(vec![
        ((Piece::L, Rotate::Spawn, 1, 0), vec![]),
        ((Piece::L, Rotate::Reverse, 1, 1), vec![]),
        ((Piece::L, Rotate::Left, 1, 1), vec![]),
        ((Piece::L, Rotate::Right, 0, 1), vec![]),
    ]);
    // J
    check_same_other_actions(vec![
        ((Piece::J, Rotate::Spawn, 1, 0), vec![]),
        ((Piece::J, Rotate::Reverse, 1, 1), vec![]),
        ((Piece::J, Rotate::Left, 1, 1), vec![]),
        ((Piece::J, Rotate::Right, 0, 1), vec![]),
    ]);
}

#[test]
fn canonical_action_of_canonical_is_unchanged() {
    let shifter = MinoShifter::new();
    for &piece in Piece::value_list().iter() {
        for &rotate in Rotate::value_list().iter() {
            let action = shifter.create_canonical_action(piece, rotate, 4, 4);
            let again = shifter.create_canonical_action(piece, action.get_rotate(), action.get_x(), action.get_y());
            assert_eq!(action, again);
        }
    }
}

#[test]
fn unique_rotates_in_order() {
    let shifter = MinoShifter::new();
    assert_eq!(shifter.get_unique_rotates(Piece::O), vec![Rotate::Spawn]);
    assert_eq!(shifter.get_unique_rotates(Piece::I), vec![Rotate::Spawn, Rotate::Left]);
    assert_eq!(shifter.get_unique_rotates(Piece::Z), vec![Rotate::Spawn, Rotate::Right]);
    assert_eq!(
        shifter.get_unique_rotates(Piece::T),
        vec![Rotate::Spawn, Rotate::Right, Rotate::Reverse, Rotate::Left]
    );
}

#[test]
fn passed_shifter_keeps_everything() {
    let shifter = PassedMinoShifter::new();
    assert_eq!(shifter.create_canonical_rotate(Piece::O, Rotate::Left), Rotate::Left);
    assert_eq!(
        shifter.create_canonical_action(Piece::I, Rotate::Right, 3, 2),
        MinimalAction::new(3, 2, Rotate::Right)
    );
    assert_eq!(
        shifter.congruent_actions(Piece::S, Rotate::Reverse, 1, 1),
        vec![MinimalAction::new(1, 1, Rotate::Reverse)]
    );
    assert_eq!(shifter.get_unique_rotates(Piece::O).len(), 4);
}

#[test]
fn piece_and_shape_hash_codes() {
    assert_eq!(Piece::I.hash_code(), 1);
    assert_eq!(Piece::O.hash_code(), 6);
    let factory = MinoFactory::new();
    assert_eq!(factory.get(Piece::I, Rotate::Right).hash_code(), 0);
    assert_eq!(factory.get(Piece::O, Rotate::Left).hash_code(), 5);
}
