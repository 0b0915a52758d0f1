use vstd::prelude::*;
use vstd::string::{StringExecFns, StringSliceAdditionalSpecFns};
use crate::common::datastore::coordinate::Coordinate;

verus! {

/// The seven tetromino kinds.
#[derive(Debug, Clone, Copy, PartialEq, Eq, PartialOrd, Ord, Hash, Structural)]
pub enum Piece {
    T,
    I,
    L,
    J,
    S,
    Z,
    O,
}

/// The four cells of a piece in spawn orientation, relative to its rotation center.
pub open spec fn piece_cells(p: Piece) -> Seq<(int, int)> {
    match p {
        Piece::T => seq![(0, 0), (-1, 0), (1, 0), (0, 1)],
        Piece::I => seq![(0, 0), (-1, 0), (1, 0), (2, 0)],
        Piece::L => seq![(0, 0), (-1, 0), (1, 0), (1, 1)],
        Piece::J => seq![(0, 0), (-1, 0), (1, 0), (-1, 1)],
        Piece::S => seq![(0, 0), (-1, 0), (0, 1), (1, 1)],
        Piece::Z => seq![(0, 0), (1, 0), (0, 1), (-1, 1)],
        Piece::O => seq![(0, 0), (1, 0), (0, 1), (1, 1)],
    }
}

impl Piece {
    pub open spec fn index(self) -> int {
        match self {
            Piece::T => 0,
            Piece::I => 1,
            Piece::L => 2,
            Piece::J => 3,
            Piece::S => 4,
            Piece::Z => 5,
            Piece::O => 6,
        }
    }

    /// The piece numbered `n` (0 to 6, in `T I L J S Z O` order).
    pub open spec fn from_index(n: int) -> Piece {
        if n == 0 {
            Piece::T
        } else if n == 1 {
            Piece::I
        } else if n == 2 {
            Piece::L
        } else if n == 3 {
            Piece::J
        } else if n == 4 {
            Piece::S
        } else if n == 5 {
            Piece::Z
        } else {
            Piece::O
        }
    }

    pub open spec fn spec_min_x(self) -> int {
        match self {
            Piece::O => 0,
            _ => -1,
        }
    }

    pub open spec fn spec_max_x(self) -> int {
        match self {
            Piece::I => 2,
            _ => 1,
        }
    }

    pub open spec fn spec_min_y(self) -> int {
        0
    }

    pub open spec fn spec_max_y(self) -> int {
        match self {
            Piece::I => 0,
            _ => 1,
        }
    }

    /// The piece numbered `number` (0 to 6, in `T I L J S Z O` order).
    pub fn new(number: u8) -> (r: Self)
        requires
            number < 7,
        ensures
            r.index() == number,
    {
        match number {
            0 => Piece::T,
            1 => Piece::I,
            2 => Piece::L,
            3 => Piece::J,
            4 => Piece::S,
            5 => Piece::Z,
            _ => Piece::O,
        }
    }

    /// The number of this piece (0 to 6).
    pub fn number(self) -> (r: u8)
        ensures
            r == self.index(),
    {
        match self {
            Piece::T => 0,
            Piece::I => 1,
            Piece::L => 2,
            Piece::J => 3,
            Piece::S => 4,
            Piece::Z => 5,
            Piece::O => 6,
        }
    }

    /// All pieces in numbering order.
    pub fn value_list() -> (r: Vec<Piece>)
        ensures
            r@ == seq![Piece::T, Piece::I, Piece::L, Piece::J, Piece::S, Piece::Z, Piece::O],
            forall|i: int| 0 <= i < 7 ==> (#[trigger] r@[i]).index() == i,
    {
        vec![Piece::T, Piece::I, Piece::L, Piece::J, Piece::S, Piece::Z, Piece::O]
    }

    /// A number that tells pieces apart: the piece's number.
    pub fn hash_code(&self) -> (r: u8)
        ensures
            r == self.index(),
    {
        self.number()
    }

    pub fn get_size() -> (r: usize)
        ensures
            r == 7,
    {
        7
    }

    /// The four cells of the piece in spawn orientation.
    pub fn get_positions(self) -> (r: [Coordinate; 4])
        ensures
            forall|i: int| 0 <= i < 4 ==> (#[trigger] r@[i]).x == piece_cells(self)[i].0 && r@[i].y == piece_cells(self)[i].1,
    {
        match self {
            Piece::T => [Coordinate::new(0, 0), Coordinate::new(-1, 0), Coordinate::new(1, 0), Coordinate::new(0, 1)],
            Piece::I => [Coordinate::new(0, 0), Coordinate::new(-1, 0), Coordinate::new(1, 0), Coordinate::new(2, 0)],
            Piece::L => [Coordinate::new(0, 0), Coordinate::new(-1, 0), Coordinate::new(1, 0), Coordinate::new(1, 1)],
            Piece::J => [Coordinate::new(0, 0), Coordinate::new(-1, 0), Coordinate::new(1, 0), Coordinate::new(-1, 1)],
            Piece::S => [Coordinate::new(0, 0), Coordinate::new(-1, 0), Coordinate::new(0, 1), Coordinate::new(1, 1)],
            Piece::Z => [Coordinate::new(0, 0), Coordinate::new(1, 0), Coordinate::new(0, 1), Coordinate::new(-1, 1)],
            Piece::O => [Coordinate::new(0, 0), Coordinate::new(1, 0), Coordinate::new(0, 1), Coordinate::new(1, 1)],
        }
    }

    /// The spawn-orientation bounds are the extremes of the piece's cells.
    pub proof fn lemma_bounds(self)
        ensures
            forall|i: int| 0 <= i < 4 ==> self.spec_min_x() <= (#[trigger] piece_cells(self)[i]).0 <= self.spec_max_x()
                && self.spec_min_y() <= piece_cells(self)[i].1 <= self.spec_max_y(),
            exists|i: int| 0 <= i < 4 && (#[trigger] piece_cells(self)[i]).0 == self.spec_min_x(),
            exists|i: int| 0 <= i < 4 && (#[trigger] piece_cells(self)[i]).0 == self.spec_max_x(),
            exists|i: int| 0 <= i < 4 && (#[trigger] piece_cells(self)[i]).1 == self.spec_min_y(),
            exists|i: int| 0 <= i < 4 && (#[trigger] piece_cells(self)[i]).1 == self.spec_max_y(),
    {
        let c = piece_cells(self);
        assert(c[0].0 == 0 && c[0].1 == 0);
        assert(c[1] == c[1] && c[2] == c[2] && c[3] == c[3]);
    }

    pub fn min_x(self) -> (r: i8)
        ensures
            r == self.spec_min_x(),
    {
        match self {
            Piece::O => 0,
            _ => -1,
        }
    }

    pub fn max_x(self) -> (r: i8)
        ensures
            r == self.spec_max_x(),
    {
        match self {
            Piece::I => 2,
            _ => 1,
        }
    }

    pub fn min_y(self) -> (r: i8)
        ensures
            r == self.spec_min_y(),
    {
        0
    }

    pub fn max_y(self) -> (r: i8)
        ensures
            r == self.spec_max_y(),
    {
        match self {
            Piece::I => 0,
            _ => 1,
        }
    }

    pub open spec fn spec_mirror(self) -> Piece {
        match self {
            Piece::J => Piece::L,
            Piece::L => Piece::J,
            Piece::S => Piece::Z,
            Piece::Z => Piece::S,
            _ => self,
        }
    }

    /// The piece whose shape is this piece's mirror image.
    pub fn mirror(self) -> (r: Self)
        ensures
            r == self.spec_mirror(),
    {
        match self {
            Piece::J => Piece::L,
            Piece::L => Piece::J,
            Piece::S => Piece::Z,
            Piece::Z => Piece::S,
            _ => self,
        }
    }

    /// Mirroring twice gives the piece back.
    pub proof fn lemma_mirror_involution(self)
        ensures
            self.spec_mirror().spec_mirror() == self,
    {
    }

    pub open spec fn name(self) -> Seq<char> {
        match self {
            Piece::T => seq!['T'],
            Piece::I => seq!['I'],
            Piece::L => seq!['L'],
            Piece::J => seq!['J'],
            Piece::S => seq!['S'],
            Piece::Z => seq!['Z'],
            Piece::O => seq!['O'],
        }
    }

    /// The one-letter name of the piece.
    pub fn to_string(&self) -> (r: String)
        ensures
            r@ == self.name(),
    {
        let s = match self {
            Piece::T => "T",
            Piece::I => "I",
            Piece::L => "L",
            Piece::J => "J",
            Piece::S => "S",
            Piece::Z => "Z",
            Piece::O => "O",
        };
        proof {
            reveal_strlit("T");
            reveal_strlit("I");
            reveal_strlit("L");
            reveal_strlit("J");
            reveal_strlit("S");
            reveal_strlit("Z");
            reveal_strlit("O");
        }
        String::from_str(s)
    }

    /// The one-letter name of the piece as text bytes.
    pub open spec fn name_bytes(self) -> Seq<u8> {
        match self {
            Piece::T => seq![84u8],
            Piece::I => seq![73u8],
            Piece::L => seq![76u8],
            Piece::J => seq![74u8],
            Piece::S => seq![83u8],
            Piece::Z => seq![90u8],
            Piece::O => seq![79u8],
        }
    }

    /// The piece named by a one-letter name, or an error message for any other text.
    pub fn from_str(s: &str) -> (r: Result<Piece, String>)
        ensures
            r matches Ok(p) ==> p.name_bytes() == s.spec_bytes(),
            (exists|p: Piece| #[trigger] p.name_bytes() == s.spec_bytes()) ==> r is Ok,
    {
        let bytes = s.as_bytes();
        if bytes.len() == 1 {
            let result = match bytes[0] {
                84u8 => Some(Piece::T),
                73u8 => Some(Piece::I),
                76u8 => Some(Piece::L),
                74u8 => Some(Piece::J),
                83u8 => Some(Piece::S),
                90u8 => Some(Piece::Z),
                79u8 => Some(Piece::O),
                _ => None,
            };
            if let Some(p) = result {
                assert(p.name_bytes() =~= bytes@);
                return Ok(p);
            }
        }
        proof {
            if exists|p: Piece| #[trigger] p.name_bytes() == s.spec_bytes() {
                let p = choose|p: Piece| #[trigger] p.name_bytes() == s.spec_bytes();
                assert(bytes@.len() == 1);
                assert(bytes@[0] == p.name_bytes()[0]);
            }
        }
        Err(String::from_str("Invalid piece: ").concat(s))
    }
}

} // verus!
