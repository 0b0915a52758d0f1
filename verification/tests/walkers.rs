use sfinder_lib::sfinder_core::mino::mino_factory::MinoFactory;
use sfinder_lib::sfinder_core::mino::piece::Piece;
use sfinder_lib::sfinder_core::srs::rotate::Rotate;
use sfinder_lib::sfinder_lib::boolean_walker;
use sfinder_lib::sfinder_lib::coordinate_walker::walk;
use std::collections::HashSet;

// Spawn, Right, Reverse, Left
fn test_wrapper(piece: Piece, sizes: [usize; 4]) {
    let mino_factory = MinoFactory::new();

    for (&size, &rotate) in sizes.iter().zip(Rotate::value_list().iter()) {
        let mino = mino_factory.get(piece, rotate);
        assert_eq!(walk(mino, 4).len(), size);
    }
}

#[test]
fn walk_size_with_i() {
    test_wrapper(Piece::I, [28, 10, 28, 10]);
    
}

#[test]
fn walk_size_with_j() {
    test_wrapper(Piece::J, [24, 18, 24, 18]);
    
}

#[test]
fn walk_size_with_l() {
    test_wrapper(Piece::L, [24, 18, 24, 18]);
    
}

#[test]
fn walk_size_with_o() {
    test_wrapper(Piece::O, [27, 27, 27, 27]);
    
}

#[test]
fn walk_size_with_s() {
    test_wrapper(Piece::S, [24, 18, 24, 18]);
    
}

#[test]
fn walk_size_with_z() {
    test_wrapper(Piece::Z, [24, 18, 24, 18]);
    
}

#[test]
fn walk_size_with_t() {
    test_wrapper(Piece::T, [24, 18, 24, 18]);
    
}

#[test]
fn walk_contains_with_i() {
    let mino_factory = MinoFactory::new();
    let coordinates =
        walk(mino_factory.get(Piece::I, Rotate::Spawn), 4).into_iter().collect::<HashSet<_>>();

    for coord in &[(1, 0), (7, 0), (1, 3), (7, 3)] {
        assert!(coordinates.contains(coord));
    }

    for coord in &[
        (0, 0),
        (8, 0),
        (0, 3),
        (8, 3),
        // impossible by type
        // (1, -1),
        // (7, -1),
        (1, 4),
        (7, 4),
    ] {
        assert!(!coordinates.contains(coord));
    }
    
}

#[test]
fn walk_has_size() {
    for size in 1..=12 {
        assert_eq!(boolean_walker::walk(size).len(), 2usize.pow(size as u32));
    }
    
}

#[test]
fn walk_4() {
    let walk = boolean_walker::walk(4).into_iter().collect::<HashSet<_>>();

    assert_eq!(walk.len(), 16);
    for item in [
        vec![true, true, true, true],
        vec![true, true, true, false],
        vec![true, true, false, true],
        vec![true, true, false, false],
        vec![true, false, true, true],
        vec![true, false, true, false],
        vec![true, false, false, true],
        vec![true, false, false, false],
        vec![false, true, true, true],
        vec![false, true, true, false],
        vec![false, true, false, true],
        vec![false, true, false, false],
        vec![false, false, true, true],
        vec![false, false, true, false],
        vec![false, false, false, true],
        vec![false, false, false, false],
    ] {
        assert!(walk.contains(&item));
    }
    
}
