use vstd::prelude::*;
use super::{mino::Mino, piece::Piece};
use crate::sfinder_core::srs::rotate::Rotate;

verus! {

/// Holds the shape of every piece in every orientation.
pub struct MinoFactory {
    map: Vec<Mino>,
}

impl MinoFactory {
    #[verifier::type_invariant]
    spec fn inv(self) -> bool {
        &&& self.map.len() == 28
        &&& forall|i: int| 0 <= i < 28 ==> (#[trigger] self.map@[i]).piece_of().index() == i / 4
            && self.map@[i].rotate_of().index() == i % 4
    }

    fn into_val(piece: Piece, rotate: Rotate) -> (r: usize)
        ensures
            r == piece.index() * 4 + rotate.index(),
    {
        piece.number() as usize * 4 + rotate.number() as usize
    }

    /// Builds the shapes of all 7 pieces in all 4 orientations.
    pub fn new() -> (r: Self) {
        let mut map: Vec<Mino> = Vec::new();
        let mut i: u8 = 0;
        while i < 28
            invariant
                i <= 28,
                map.len() == i,
                forall|j: int| 0 <= j < i ==> (#[trigger] map@[j]).piece_of().index() == j / 4
                    && map@[j].rotate_of().index() == j % 4,
            decreases 28 - i,
        {
            let mino = Mino::new(Piece::new(i / 4), Rotate::new(i % 4));
            map.push(mino);
            i = i + 1;
        }
        MinoFactory { map }
    }

    /// Number of shapes held: one per piece and orientation.
    pub fn len(&self) -> (r: usize)
        ensures
            r == 28,
    {
        proof {
            use_type_invariant(self);
        }
        self.map.len()
    }

    /// The shape of `piece` in orientation `rotate`.
    pub fn get(&self, piece: Piece, rotate: Rotate) -> (r: &Mino)
        ensures
            r.piece_of() == piece,
            r.rotate_of() == rotate,
    {
        proof {
            use_type_invariant(self);
        }
        let index = Self::into_val(piece, rotate);
        let r = &self.map[index];
        proof {
            assert(r.piece_of().index() == piece.index());
            assert(r.rotate_of().index() == rotate.index());
        }
        r
    }
}

} // verus!
