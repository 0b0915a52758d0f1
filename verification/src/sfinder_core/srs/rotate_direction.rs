use vstd::prelude::*;

verus! {

/// Direction of a rotation input.
#[derive(Debug, Clone, Copy, PartialEq, Eq, Hash, Structural)]
pub enum RotateDirection {
    Clockwise,
    CounterClockwise,
    Rotate180,
}

impl RotateDirection {
    pub open spec fn spec_reverse(self) -> Self {
        match self {
            RotateDirection::Clockwise => RotateDirection::CounterClockwise,
            RotateDirection::CounterClockwise => RotateDirection::Clockwise,
            RotateDirection::Rotate180 => RotateDirection::Rotate180,
        }
    }

    /// The direction that undoes this one.
    pub fn reverse(self) -> (r: Self)
        ensures
            r == self.spec_reverse(),
    {
        match self {
            RotateDirection::Clockwise => RotateDirection::CounterClockwise,
            RotateDirection::CounterClockwise => RotateDirection::Clockwise,
            RotateDirection::Rotate180 => RotateDirection::Rotate180,
        }
    }

    /// Reversing a direction twice gives it back.
    pub proof fn lemma_reverse_involution(self)
        ensures
            self.spec_reverse().spec_reverse() == self,
    {
    }

    /// The two quarter-turn directions.
    pub fn values_no_180() -> (r: Vec<RotateDirection>)
        ensures
            r@ == seq![RotateDirection::Clockwise, RotateDirection::CounterClockwise],
    {
        vec![RotateDirection::Clockwise, RotateDirection::CounterClockwise]
    }

    /// All three directions.
    pub fn values_with_180() -> (r: Vec<RotateDirection>)
        ensures
            r@ == seq![
                RotateDirection::Clockwise,
                RotateDirection::CounterClockwise,
                RotateDirection::Rotate180,
            ],
    {
        vec![RotateDirection::Clockwise, RotateDirection::CounterClockwise, RotateDirection::Rotate180]
    }
}

} // verus!
