use sfinder_lib::common::datastore::action::minimal_action::MinimalAction;
use sfinder_lib::common::datastore::coordinate::Coordinate;
use sfinder_lib::sfinder_core::action::candidate::harddrop_candidate::HarddropCandidate;
use sfinder_lib::sfinder_core::action::candidate::candidate::Candidate;
use sfinder_lib::sfinder_core::action::candidate::locked_180_candidate::Locked180Candidate;
use sfinder_lib::sfinder_core::action::candidate::softdrop_t_only_candidate::SoftdropTOnlyCandidate;
use sfinder_lib::sfinder_core::field::field_factory;
use sfinder_lib::sfinder_core::mino::mino_factory::MinoFactory;
use sfinder_lib::sfinder_core::mino::mino_shifter::{IMinoShifter, MinoShifter};
use sfinder_lib::sfinder_core::mino::piece::Piece;
use sfinder_lib::sfinder_core::srs::mino_rotation_impl::MinoRotationImpl;
use sfinder_lib::sfinder_core::srs::pattern::Pattern;
use sfinder_lib::sfinder_core::srs::rotate::Rotate;

fn decode(actions: &nohash::IntSet<u32>) -> Vec<MinimalAction> {
    actions.iter().map(|&key| MinimalAction::from_key(key)).collect()
}

fn no_kicks_map() -> Vec<Pattern> {
    (0..28).map(|_| Pattern::with_no_privilege_spins(vec![Coordinate::new(0, 0)])).collect()
}

#[test]
fn harddrop_candidate_test_search1() {
    let mino_factory = MinoFactory::new();
    let mino_shifter = MinoShifter::new();
    let mut candidate = HarddropCandidate::new(&mino_factory, &mino_shifter);

            let field = field_factory::create_field_with_marks(
        String::new()
            + "__________"
            + "__________"
            + "____X_____",  
    );

    let actions = candidate.search(&field, Piece::T, 4);
    assert_eq!(actions.len(), 34);
            {
        assert_eq!(decode(&actions).iter().filter(|e| e.get_rotate() == Rotate::Spawn).count(), 8);
        assert_eq!(decode(&actions).iter().filter(|e| e.get_rotate() == Rotate::Right).count(), 9);
        assert_eq!(decode(&actions).iter().filter(|e| e.get_rotate() == Rotate::Reverse).count(), 8);
        assert_eq!(decode(&actions).iter().filter(|e| e.get_rotate() == Rotate::Left).count(), 9);
    };
}

#[test]
fn harddrop_candidate_test_search2() {
    let mino_factory = MinoFactory::new();
    let mino_shifter = MinoShifter::new();
    let mut candidate = HarddropCandidate::new(&mino_factory, &mino_shifter);
            let field = field_factory::create_field_with_marks(
        String::new()
            + "XXXX______"
            + "XXXXX_____"
            + "X___X_____"
            + "XX_XX_____",  
    );

    let actions = candidate.search(&field, Piece::T, 4);
    assert_eq!(actions.len(), 15);
            {
        assert_eq!(decode(&actions).iter().filter(|e| e.get_rotate() == Rotate::Spawn).count(), 3);
        assert_eq!(decode(&actions).iter().filter(|e| e.get_rotate() == Rotate::Right).count(), 4);
        assert_eq!(decode(&actions).iter().filter(|e| e.get_rotate() == Rotate::Reverse).count(), 4);
        assert_eq!(decode(&actions).iter().filter(|e| e.get_rotate() == Rotate::Left).count(), 4);
    };
}

#[test]
fn harddrop_candidate_test_search3() {
    let mino_factory = MinoFactory::new();
    let mino_shifter = MinoShifter::new();
    let mut candidate = HarddropCandidate::new(&mino_factory, &mino_shifter);
            let field = field_factory::create_field_with_marks(
        String::new()
            + "XXXX______"
            + "XX_XXXXX__"
            + "X___X_____"
            + "XX_XX_____",  
    );

    let actions = candidate.search(&field, Piece::T, 4);
    assert_eq!(actions.len(), 3);
    assert!(actions.contains(&MinimalAction::new(9, 1, Rotate::Left).key()));
    assert!(actions.contains(&MinimalAction::new(8, 3, Rotate::Reverse).key()));
    assert!(actions.contains(&MinimalAction::new(8, 1, Rotate::Right).key()));
}

#[test]
fn harddrop_candidate_test_search4() {
    let mino_factory = MinoFactory::new();
    let mino_shifter = MinoShifter::new();
    let mut candidate = HarddropCandidate::new(&mino_factory, &mino_shifter);
            let field = field_factory::create_field_with_marks(
        String::new()
            + "_______XXX"
            + "_________X",  
    );

    let actions = candidate.search(&field, Piece::T, 2);
    assert!(actions.contains(&MinimalAction::new(5, 0, Rotate::Spawn).key()));
    assert!(!actions.contains(&MinimalAction::new(6, 0, Rotate::Spawn).key()));
}

#[test]
fn harddrop_candidate_gives_canonical_placements() {
    let mino_factory = MinoFactory::new();
    let mino_shifter = MinoShifter::new();
    let mut candidate = HarddropCandidate::new(&mino_factory, &mino_shifter);
    let field = field_factory::create_field_with_marks(String::new() + "XX______XX" + "X_______XX");
    for &piece in Piece::value_list().iter() {
        let actions = candidate.search(&field, piece, 4);
        for action in decode(&actions) {
            assert_eq!(
                action,
                mino_shifter.create_canonical_action(piece, action.get_rotate(), action.get_x(), action.get_y())
            );
        }
    }
}

#[test]
fn locked_180_candidate_without_kicks() {
    let mino_factory = MinoFactory::new();
    let mino_shifter = MinoShifter::new();
    let field = field_factory::create_field_with_marks(
        String::new() + "XXXXXX____" + "XXXXXX__X_" + "XXXXXXX__X",
    );
    let mino_rotation = MinoRotationImpl::new(no_kicks_map(), no_kicks_map(), no_kicks_map());
    let mut candidate = Locked180Candidate::new(&mino_factory, &mino_shifter, &mino_rotation, 24);
    let actions = candidate.search(&field, Piece::L, 24);
    assert_eq!(actions.len(), 35);
    assert!(actions.contains(&MinimalAction::new(7, 1, Rotate::Right).key()));
}

#[test]
fn locked_180_candidate_on_empty_field() {
    let mino_factory = MinoFactory::new();
    let mino_shifter = MinoShifter::new();
    let field = field_factory::create_field(4);
    let mino_rotation = MinoRotationImpl::new(no_kicks_map(), no_kicks_map(), no_kicks_map());
    let mut candidate = Locked180Candidate::new(&mino_factory, &mino_shifter, &mino_rotation, 8);
    let actions = candidate.search(&field, Piece::O, 4);
    let decoded = decode(&actions);
    assert_eq!(decoded.len(), 9);
    assert!(decoded.iter().all(|a| a.get_rotate() == Rotate::Spawn && a.get_y() == 0));
}

#[test]
fn softdrop_t_only_candidate_splits_by_piece() {
    let mino_factory = MinoFactory::new();
    let mino_shifter = MinoShifter::new();
    let mino_rotation = MinoRotationImpl::new(no_kicks_map(), no_kicks_map(), no_kicks_map());
    let field = field_factory::create_field_with_marks(String::new() + "XXXX______" + "XXX___XXXX" + "XXXX_XXXXX");
    let mut candidate = SoftdropTOnlyCandidate::new(
        HarddropCandidate::new(&mino_factory, &mino_shifter),
        Locked180Candidate::new(&mino_factory, &mino_shifter, &mino_rotation, 8),
    );
    let mut drops = HarddropCandidate::new(&mino_factory, &mino_shifter);
    assert_eq!(Candidate::search(&mut candidate, &field, Piece::O, 4), drops.search(&field, Piece::O, 4));
    let mut locked = Locked180Candidate::new(&mino_factory, &mino_shifter, &mino_rotation, 8);
    assert_eq!(Candidate::search(&mut candidate, &field, Piece::T, 4), locked.search(&field, Piece::T, 4));
}
