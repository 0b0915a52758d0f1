use vstd::prelude::*;
use super::rotate_direction::RotateDirection;

verus! {

/// Orientation of a piece.
#[derive(Debug, Clone, Copy, PartialEq, Eq, PartialOrd, Ord, Hash, Structural)]
pub enum Rotate {
    Spawn,
    Right,
    Reverse,
    Left,
}

impl Rotate {
    /// Number of quarter turns clockwise from `Spawn`.
    pub open spec fn index(self) -> int {
        match self {
            Rotate::Spawn => 0,
            Rotate::Right => 1,
            Rotate::Reverse => 2,
            Rotate::Left => 3,
        }
    }

    pub open spec fn from_index(n: int) -> Rotate {
        if n % 4 == 0 {
            Rotate::Spawn
        } else if n % 4 == 1 {
            Rotate::Right
        } else if n % 4 == 2 {
            Rotate::Reverse
        } else {
            Rotate::Left
        }
    }

    /// Number of quarter turns clockwise from `Spawn`.
    pub fn number(self) -> (r: u8)
        ensures
            r == self.index(),
    {
        match self {
            Rotate::Spawn => 0,
            Rotate::Right => 1,
            Rotate::Reverse => 2,
            Rotate::Left => 3,
        }
    }

    /// The orientation with the given number of quarter turns clockwise from `Spawn`.
    pub fn new(number: u8) -> (r: Self)
        requires
            number < 4,
        ensures
            r.index() == number,
    {
        match number {
            0 => Rotate::Spawn,
            1 => Rotate::Right,
            2 => Rotate::Reverse,
            _ => Rotate::Left,
        }
    }

    /// All orientations in quarter-turn order.
    pub fn value_list() -> (r: Vec<Rotate>)
        ensures
            r@ == seq![Rotate::Spawn, Rotate::Right, Rotate::Reverse, Rotate::Left],
            forall|i: int| 0 <= i < 4 ==> (#[trigger] r@[i]).index() == i,
    {
        vec![Rotate::Spawn, Rotate::Right, Rotate::Reverse, Rotate::Left]
    }

    pub fn get_size() -> (r: usize)
        ensures
            r == 4,
    {
        4
    }

    pub open spec fn turned(self, quarter_turns: int) -> Rotate {
        Rotate::from_index(self.index() + quarter_turns)
    }

    pub open spec fn spec_apply(self, rotation: RotateDirection) -> Rotate {
        match rotation {
            RotateDirection::Clockwise => self.turned(1),
            RotateDirection::CounterClockwise => self.turned(3),
            RotateDirection::Rotate180 => self.turned(2),
        }
    }

    /// The orientation after rotating in the given direction.
    pub fn apply(self, rotation: RotateDirection) -> (r: Self)
        ensures
            r == self.spec_apply(rotation),
    {
        match rotation {
            RotateDirection::Clockwise => self.get_cw_rotate(),
            RotateDirection::CounterClockwise => self.get_ccw_rotate(),
            RotateDirection::Rotate180 => self.get_180_rotate(),
        }
    }

    /// The orientation one quarter turn counterclockwise.
    pub fn get_ccw_rotate(self) -> (r: Self)
        ensures
            r == self.turned(3),
    {
        match self {
            Rotate::Spawn => Rotate::Left,
            Rotate::Left => Rotate::Reverse,
            Rotate::Reverse => Rotate::Right,
            Rotate::Right => Rotate::Spawn,
        }
    }

    /// The orientation one quarter turn clockwise.
    pub fn get_cw_rotate(self) -> (r: Self)
        ensures
            r == self.turned(1),
    {
        match self {
            Rotate::Spawn => Rotate::Right,
            Rotate::Right => Rotate::Reverse,
            Rotate::Reverse => Rotate::Left,
            Rotate::Left => Rotate::Spawn,
        }
    }

    /// The orientation half a turn away.
    pub fn get_180_rotate(self) -> (r: Self)
        ensures
            r == self.turned(2),
    {
        match self {
            Rotate::Spawn => Rotate::Reverse,
            Rotate::Right => Rotate::Left,
            Rotate::Reverse => Rotate::Spawn,
            Rotate::Left => Rotate::Right,
        }
    }

    /// Rotating in a direction and then in the reverse direction gives back the orientation.
    pub proof fn lemma_apply_reverse(self, rotation: RotateDirection)
        ensures
            self.spec_apply(rotation).spec_apply(rotation.spec_reverse()) == self,
    {
    }

    /// Two quarter turns in one direction make a half turn, and four make a full turn.
    pub proof fn lemma_quarter_turns(self)
        ensures
            self.spec_apply(RotateDirection::Clockwise).spec_apply(RotateDirection::Clockwise)
                == self.spec_apply(RotateDirection::Rotate180),
            self.spec_apply(RotateDirection::CounterClockwise).spec_apply(
                RotateDirection::CounterClockwise,
            ) == self.spec_apply(RotateDirection::Rotate180),
            self.spec_apply(RotateDirection::Rotate180).spec_apply(RotateDirection::Rotate180)
                == self,
    {
    }
}

} // verus!
