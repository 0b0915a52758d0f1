use rand::{thread_rng, Rng};
use sfinder_lib::sfinder_core::field::bit_operators;
use sfinder_lib::sfinder_core::mino::piece::Piece;
use sfinder_lib::sfinder_core::srs::rotate::Rotate;
use sfinder_lib::sfinder_lib::randoms::{block_11_in_cycle, gen_char, gen_key, gen_piece, gen_pieces, gen_rotate, STRINGS};
use sfinder_lib::sfinder_core::field::field::Field;
use sfinder_lib::sfinder_lib::randoms::build_field_from_counts;
use std::collections::HashSet;

fn assert_unique(slices: &[&[Piece]]) {
    for &slice in slices {
        assert_eq!(HashSet::<&Piece>::from_iter(slice).len(), slice.len());
    }
}

#[test]
fn gen_piece_random() {
    let mut rngs = thread_rng();
    for _ in 0..10000 {
        let piece = gen_piece(&mut rngs);
        assert!(Piece::value_list().contains(&piece), "{piece:?}");
    }
    
}

#[test]
fn gen_pieces_random() {
    let mut rngs = thread_rng();
    for _ in 0..10000 {
        let size = rngs.gen_range(3..19);
        let pieces = gen_pieces(&mut rngs, size);
        assert_eq!(pieces.len(), size);
    }
    
}

#[test]
fn gen_rotate_random() {
    let mut rngs = thread_rng();
    for _ in 0..10000 {
        let rotate = gen_rotate(&mut rngs);
        assert!(Rotate::value_list().contains(&rotate), "{rotate:?}");
    }
    
}

#[test]
fn gen_key_random() {
    let mut rngs = thread_rng();
    let mask = bit_operators::repeat_rows(0b1111111110);
    for _ in 0..10000 {
        let key = gen_key(&mut rngs);
        assert_eq!(key & mask, 0);
    }
    
}

#[test]
fn first() {
    let mut rngs = thread_rng();
    for _ in 0..100000 {
        let pieces = block_11_in_cycle(&mut rngs, 0);
        assert_eq!(pieces.len(), 11);
        assert_unique(&[&pieces[0..7], &pieces[7..11]]);
    }
        
}

#[test]
fn second() {
    let mut rngs = thread_rng();
    for _ in 0..100000 {
        let pieces = block_11_in_cycle(&mut rngs, 1);
        assert_eq!(pieces.len(), 11);
        assert_unique(&[&pieces[0..1], &pieces[1..4], &pieces[4..11]]);
    }
        
}

#[test]
fn third() {
    let mut rngs = thread_rng();
    for _ in 0..100000 {
        let pieces = block_11_in_cycle(&mut rngs, 2);
        assert_eq!(pieces.len(), 11);
        assert_unique(&[&pieces[0..1], &pieces[1..8], &pieces[8..11]]);
    }
        
}

#[test]
fn fourth() {
    let mut rngs = thread_rng();
    for _ in 0..100000 {
        let pieces = block_11_in_cycle(&mut rngs, 3);
        assert_eq!(pieces.len(), 11);
        assert_unique(&[&pieces[0..1], &pieces[1..5], &pieces[5..11]]);
    }
        
}

#[test]
fn fifth() {
    let mut rngs = thread_rng();
    for _ in 0..100000 {
        let pieces = block_11_in_cycle(&mut rngs, 4);
        assert_eq!(pieces.len(), 11);
        assert_unique(&[&pieces[0..1], &pieces[1..2], &pieces[2..9], &pieces[9..11]]);
    }
        
}

#[test]
fn sixth() {
    let mut rngs = thread_rng();
    for _ in 0..100000 {
        let pieces = block_11_in_cycle(&mut rngs, 5);
        assert_eq!(pieces.len(), 11);
        assert_unique(&[&pieces[0..1], &pieces[1..6], &pieces[6..11]]);
    }
        
}

#[test]
fn seventh() {
    let mut rngs = thread_rng();
    for _ in 0..100000 {
        let pieces = block_11_in_cycle(&mut rngs, 6);
        assert_eq!(pieces.len(), 11);
        assert_unique(&[
            &pieces[0..1],
            &pieces[1..3],
            &pieces[3..10],
            &pieces[10..11],
        ]);
    }
        
}

#[test]
fn eighth() {
    let mut rngs = thread_rng();
    for _ in 0..100000 {
        let pieces = block_11_in_cycle(&mut rngs, 7);
        assert_eq!(pieces.len(), 11);
        assert_unique(&[&pieces[0..1], &pieces[1..7], &pieces[7..11]]);
    }
        
}

#[test]
fn gen_char_from_list() {
    let mut rngs = thread_rng();
    for _ in 0..1000 {
        let c = gen_char(&mut rngs, 1);
        assert!(STRINGS.contains(&c));
    }
}

#[test]
fn build_field_puts_one_run_per_row() {
    let mut rngs = thread_rng();
    for _ in 0..1000 {
        let counts = vec![0u8, 3, 10, 5, 1, 9];
        let field = build_field_from_counts(&mut rngs, 6, &counts);
        for (y, &count) in counts.iter().enumerate() {
            let empty: Vec<u8> = (0..10).filter(|&x| field.is_empty_block(x, y as u8)).collect();
            assert_eq!(empty.len(), count as usize);
            if let (Some(first), Some(last)) = (empty.first(), empty.last()) {
                assert_eq!((last - first + 1) as usize, empty.len());
                if count < 10 {
                    assert!(*last < 9);
                }
            }
        }
    }
}
