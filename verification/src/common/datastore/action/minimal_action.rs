use vstd::prelude::*;
use crate::sfinder_core::srs::rotate::Rotate;

verus! {

/// A placement of a piece: position and orientation.
#[derive(Debug, Clone, Copy, PartialEq, Eq, Hash, Structural)]
pub struct MinimalAction {
    pub x: u8,
    pub y: u8,
    pub rotate: Rotate,
}

impl MinimalAction {
    pub fn new(x: u8, y: u8, rotate: Rotate) -> (r: Self)
        ensures
            r.x == x,
            r.y == y,
            r.rotate == rotate,
    {
        MinimalAction { x, y, rotate }
    }

    pub fn get_x(&self) -> (r: u8)
        ensures
            r == self.x,
    {
        self.x
    }

    pub fn get_y(&self) -> (r: u8)
        ensures
            r == self.y,
    {
        self.y
    }

    pub fn get_rotate(&self) -> (r: Rotate)
        ensures
            r == self.rotate,
    {
        self.rotate
    }

    /// A number that tells placements apart: `x`, then `y` times 256, then the orientation's
    /// number times 65536.
    pub open spec fn spec_key(self) -> int {
        self.x + 256 * self.y + 65536 * self.rotate.index()
    }

    /// The number of this placement, by which sets of placements hold it.
    pub fn key(&self) -> (r: u32)
        ensures
            r == self.spec_key(),
    {
        self.x as u32 + 256 * self.y as u32 + 65536 * self.rotate.number() as u32
    }

    /// The placement of a number made by `key`.
    pub fn from_key(key: u32) -> (r: Self)
        requires
            key < 4 * 65536,
        ensures
            r.spec_key() == key,
    {
        let x = (key % 256) as u8;
        let y = ((key / 256) % 256) as u8;
        let rotate = Rotate::new((key / 65536) as u8);
        MinimalAction { x, y, rotate }
    }

    /// Two placements with the same number are the same placement.
    pub proof fn lemma_key_injective(a: Self, b: Self)
        requires
            a.spec_key() == b.spec_key(),
        ensures
            a == b,
    {
        assert(a.rotate.index() == b.rotate.index());
        assert(Rotate::from_index(a.rotate.index()) == a.rotate);
        assert(Rotate::from_index(b.rotate.index()) == b.rotate);
    }
}

} // verus!
