//! Squares of the board, numbered 0 to 63 rank by rank from a1.
use vstd::prelude::*;
use crate::bits::lemma_byte_ops;
use crate::text::push_char;

verus! {

/// A square, by its index: `rank * 8 + file`.
#[derive(Clone, Copy, Debug, PartialEq, Eq, Structural)]
pub struct Square(pub u8);

impl Square {
    /// A square of the board has an index below 64.
    pub open spec fn valid(self) -> bool {
        self.0 < 64
    }

    /// The index as a mathematical integer.
    pub open spec fn idx(self) -> int {
        self.0 as int
    }

    pub open spec fn spec_rank(self) -> int {
        self.0 as int / 8
    }

    pub open spec fn spec_file(self) -> int {
        self.0 as int % 8
    }

    /// The square `direction` indices further on; indices wrap at 256 as
    /// bytes do, so a step off the board gives a square that is not valid
    /// or lies elsewhere on it.
    pub fn shift(&self, direction: i8) -> (res: Square)
        ensures
            res.0 as int == (self.0 as int + direction as int) % 256,
            0 <= self.0 + direction < 64 ==> res.valid() && res.0 == self.0 + direction,
    {
        let sum: i16 = self.0 as i16 + direction as i16;
        if sum < 0 {
            Square((sum + 256) as u8)
        } else if sum >= 256 {
            Square((sum - 256) as u8)
        } else {
            Square(sum as u8)
        }
    }

    #[verifier::when_used_as_spec(spec_rank_u8)]
    pub fn rank(&self) -> (res: u8)
        ensures
            res == self.spec_rank(),
            res == self.spec_rank_u8(),
            self.valid() ==> res < 8,
    {
        proof {
            lemma_byte_ops();
        }
        self.0 >> 3
    }

    #[verifier::when_used_as_spec(spec_file_u8)]
    pub fn file(&self) -> (res: u8)
        ensures
            res == self.spec_file(),
            res == self.spec_file_u8(),
            res < 8,
    {
        proof {
            lemma_byte_ops();
        }
        self.0 & 7
    }

    pub open spec fn spec_rank_u8(&self) -> u8 {
        self.0 / 8
    }

    pub open spec fn spec_file_u8(&self) -> u8 {
        self.0 % 8
    }

    /// The square on the given file and rank, both counted from 0.
    pub fn from_coords(file: u8, rank: u8) -> (res: Square)
        requires
            file < 8,
            rank < 8,
        ensures
            res.valid(),
            res.0 == rank * 8 + file,
            res.spec_file() == file,
            res.spec_rank() == rank,
    {
        proof {
            lemma_byte_ops();
        }
        Square(file + (rank << 3))
    }

    pub fn as_byte(&self) -> (res: u8)
        ensures
            res == self.0,
    {
        self.0
    }

    /// The name of the square: the letter of its file, then the digit of
    /// its rank.
    pub open spec fn name(self) -> Seq<char> {
        seq![(97 + self.0 % 8) as u8 as char, (49 + self.0 / 8) as u8 as char]
    }

    /// The name of the square, such as `e4`.
    pub fn to_string(&self) -> (res: String)
        ensures
            res@ == self.name(),
    {
        let mut s = String::new();
        push_char(&mut s, (97 + self.file()) as char);
        push_char(&mut s, (49 + self.rank()) as char);
        proof {
            assert(s@ =~= self.name());
        }
        s
    }

    /// The square of the name that `value` begins with.
    pub fn from(value: &str) -> (res: Square)
        requires
            value@.len() >= 2,
            'a' <= value@[0] <= 'h',
            '1' <= value@[1] <= '8',
        ensures
            res.valid(),
            res.spec_file() == value@[0] as u8 - 97,
            res.spec_rank() == value@[1] as u8 - 49,
    {
        let file = value.get_char(0) as u8 - 97;
        let rank = value.get_char(1) as u8 - 49;
        Square::from_coords(file, rank)
    }
}

pub open spec fn abs_diff(a: int, b: int) -> int {
    if a < b {
        b - a
    } else {
        a - b
    }
}

/// How many ranks apart two squares are.
pub fn rank_dist(sq1: Square, sq2: Square) -> (res: u8)
    ensures
        res == abs_diff(sq1.spec_rank(), sq2.spec_rank()),
{
    let r1 = sq1.rank();
    let r2 = sq2.rank();
    if r1 < r2 {
        r2 - r1
    } else {
        r1 - r2
    }
}

/// How many files apart two squares are.
pub fn file_dist(sq1: Square, sq2: Square) -> (res: u8)
    ensures
        res == abs_diff(sq1.spec_file(), sq2.spec_file()),
{
    let f1 = sq1.file();
    let f2 = sq2.file();
    if f1 < f2 {
        f2 - f1
    } else {
        f1 - f2
    }
}

/// Two squares share a diagonal when they are as many files apart as ranks.
pub open spec fn spec_same_diag(sq1: Square, sq2: Square) -> bool {
    abs_diff(sq1.spec_file(), sq2.spec_file()) == abs_diff(sq1.spec_rank(), sq2.spec_rank())
}

pub fn same_diag(sq1: Square, sq2: Square) -> (res: bool)
    ensures
        res == spec_same_diag(sq1, sq2),
{
    file_dist(sq1, sq2) == rank_dist(sq1, sq2)
}

} // verus!
