//! Sets of squares held as 64-bit words: bit `i` is set exactly when square
//! `i` is a member.
use vstd::prelude::*;
use vstd::std_specs::bits::u64_trailing_zeros;
use vstd::std_specs::bits::axiom_u64_trailing_zeros;
use vstd::std_specs::ops::BitAndSpecImpl;
use vstd::std_specs::ops::BitOrSpecImpl;
use vstd::std_specs::ops::BitXorSpecImpl;
use vstd::std_specs::ops::NotSpecImpl;
use vstd::std_specs::ops::AddSpecImpl;
use vstd::std_specs::ops::SubSpecImpl;
use vstd::std_specs::ops::MulSpecImpl;
use vstd::std_specs::convert::FromSpecImpl;
use crate::bits::bit;
use crate::bits::count_bits;
use crate::bits::lemma_bit_ops;
use crate::bits::lemma_nonzero_bit;
use crate::bits::lemma_pop_lowest;
use crate::square::Square;
use crate::text::digit;
use crate::text::digit_char;
use crate::text::push_char;

verus! {

/// A set of squares.
#[derive(Copy, Clone, Eq, PartialEq, Debug, Structural)]
pub struct BitBoard(pub u64);

impl View for BitBoard {
    type V = Set<int>;

    /// The indices of the member squares.
    open spec fn view(&self) -> Set<int> {
        Set::new(|i: int| 0 <= i < 64 && bit(self.0, i as u64))
    }
}

/// The operations on the words are the operations on the sets of squares
/// that the words stand for: intersection, union, difference, symmetric
/// difference and complement within the board; the word 0 is the empty
/// set, and two words meet exactly when their sets do.
pub proof fn lemma_set_algebra(a: BitBoard, b: BitBoard)
    ensures
        BitBoard(a.0 & b.0)@ == a@.intersect(b@),
        BitBoard(a.0 | b.0)@ == a@.union(b@),
        BitBoard(a.0 & !b.0)@ == a@.difference(b@),
        BitBoard(a.0 ^ b.0)@ == a@.difference(b@).union(b@.difference(a@)),
        BitBoard(!a.0)@ == Set::new(|i: int| 0 <= i < 64).difference(a@),
        (a.0 == 0) == (a@ == Set::<int>::empty()),
        (a.0 & b.0 != 0) == !a@.disjoint(b@),
{
    lemma_bit_ops();
    assert(BitBoard(a.0 & b.0)@ =~= a@.intersect(b@));
    assert(BitBoard(a.0 | b.0)@ =~= a@.union(b@));
    assert(BitBoard(a.0 & !b.0)@ =~= a@.difference(b@));
    assert(BitBoard(a.0 ^ b.0)@ =~= a@.difference(b@).union(b@.difference(a@)));
    assert(BitBoard(!a.0)@ =~= Set::new(|i: int| 0 <= i < 64).difference(a@));
    lemma_nonzero_bit(a.0);
    lemma_nonzero_bit(a.0 & b.0);
    if a.0 != 0 {
        let i = choose|i: u64| i < 64 && bit(a.0, i);
        assert(a@.contains(i as int));
    } else {
        assert(a@ =~= Set::<int>::empty());
    }
    if a.0 & b.0 != 0 {
        let i = choose|i: u64| i < 64 && bit(a.0 & b.0, i);
        assert(a@.contains(i as int) && b@.contains(i as int));
    } else {
        assert forall|i: int| !(a@.contains(i) && b@.contains(i)) by {
            if a@.contains(i) && b@.contains(i) {
                assert(bit(a.0 & b.0, i as u64));
            }
        }
    }
}

/// `u64::count_ones` of std: the number of bits that are set in the word.
pub assume_specification[ u64::count_ones ](x: u64) -> (r: u32)
    ensures
        r == count_bits(x, 64),
;

impl BitBoard {
    /// Whether `sq` is a member.
    pub open spec fn has(self, sq: Square) -> bool {
        bit(self.0, sq.0 as u64)
    }

    /// The number of members.
    pub fn num_squares(self) -> (res: u32)
        ensures
            res == count_bits(self.0, 64),
    {
        self.0.count_ones()
    }

    pub fn intersects(self, other: BitBoard) -> (res: bool)
        ensures
            res == (self.0 & other.0 != 0),
    {
        self.intersection(other).0 != 0
    }

    pub fn intersects2(self, other: BitBoard, other2: BitBoard) -> (res: bool)
        ensures
            res == (self.0 & other.0 & other2.0 != 0),
    {
        self.intersection(other).intersection(other2).0 != 0
    }

    pub fn intersection(self, other: BitBoard) -> (res: BitBoard)
        ensures
            res.0 == self.0 & other.0,
    {
        BitBoard(self.0 & other.0)
    }

    pub fn empty(self) -> (res: bool)
        ensures
            res == (self.0 == 0),
    {
        self.0 == 0
    }

    /// What shifting by `amount` does to a word: towards higher indices when
    /// positive, towards lower ones when negative.
    pub open spec fn spec_shift(self, amount: int) -> BitBoard {
        if amount > 0 {
            BitBoard(self.0 << (amount as u64))
        } else if amount < 0 {
            BitBoard(self.0 >> ((-amount) as u64))
        } else {
            self
        }
    }

    /// Slides every member by `amount` indices; members that would leave the
    /// range 0 to 63 are dropped.
    pub fn shift(self, amount: i8) -> (res: BitBoard)
        requires
            -64 < amount < 64,
        ensures
            res == self.spec_shift(amount as int),
            forall|i: u64|
                i < 64 ==> #[trigger] bit(res.0, i) == (0 <= i - amount < 64 && bit(
                    self.0,
                    (i - amount) as u64,
                )),
    {
        proof {
            lemma_bit_ops();
        }
        if amount > 0 {
            BitBoard(self.0 << amount)
        } else if amount < 0 {
            BitBoard(self.0 >> -amount)
        } else {
            self
        }
    }

    pub fn iter(self) -> (res: BitBoardIterator)
        ensures
            res.0 == self,
    {
        BitBoardIterator(self)
    }

    /// Takes out the member with the lowest index and returns it. On the
    /// empty set nothing changes and the square returned, index 64, is not
    /// on the board.
    pub fn pop_lsb(&mut self) -> (sq: Square)
        ensures
            sq.0 == u64_trailing_zeros(old(self).0),
            old(self).0 != 0 ==> final(self).0 == old(self).0 & (old(self).0 - 1) as u64,
            old(self).0 == 0 ==> sq.0 == 64 && final(self).0 == 0,
            old(self).0 != 0 ==> sq.valid() && old(self).has(sq) && !final(self).has(sq),
            forall|i: u64| i < sq.0 ==> !#[trigger] bit(old(self).0, i),
            forall|i: u64| i != sq.0 ==> #[trigger] bit(final(self).0, i) == bit(old(self).0, i),
    {
        let word = self.0;
        proof {
            axiom_u64_trailing_zeros(word);
            if word != 0 {
                lemma_pop_lowest(word);
            } else {
                lemma_bit_ops();
            }
        }
        let sq = Square(word.trailing_zeros() as u8);
        if word != 0 {
            self.0 = word & (word - 1);
        }
        sq
    }

    /// The set whose only member is the square on the given file and rank.
    pub fn from_coords(file: u8, rank: u8) -> (res: BitBoard)
        requires
            file < 8,
            rank < 8,
        ensures
            res.0 == 1u64 << ((8 * rank + file) as u64),
            forall|i: u64| #[trigger] bit(res.0, i) == (i == 8 * rank + file),
    {
        proof {
            lemma_bit_ops();
        }
        BitBoard(1u64 << (8 * rank + file))
    }

    /// The set whose only member is `square`.
    pub fn from_square(square: Square) -> (res: BitBoard)
        requires
            square.valid(),
        ensures
            res.0 == 1u64 << (square.0 as u64),
            forall|i: u64| #[trigger] bit(res.0, i) == (i == square.0),
    {
        proof {
            lemma_bit_ops();
        }
        BitBoard(1u64 << square.0)
    }
}

/// The picture of the squares of rank `y` from file `x` on: ` x` for a
/// member and ` .` for another square.
pub open spec fn picture_cells(bits: u64, y: int, x: int) -> Seq<char>
    decreases 8 - x,
{
    if x >= 8 {
        Seq::empty()
    } else {
        seq![' ', if bit(bits, (8 * y + x) as u64) {
            'x'
        } else {
            '.'
        }] + picture_cells(bits, y, x + 1)
    }
}

/// The picture of the ranks from `y` down to the first, each on a line
/// that begins with its number.
pub open spec fn picture_rows(bits: u64, y: int) -> Seq<char>
    decreases y + 1,
{
    if y < 0 {
        Seq::empty()
    } else {
        seq![' ', digit_char(y + 1), ' '] + picture_cells(bits, y, 0) + seq!['\n'] + picture_rows(
            bits,
            y - 1,
        )
    }
}

/// The line of the letters of the files under a picture.
pub open spec fn picture_foot() -> Seq<char> {
    seq![
        '\n',
        ' ',
        ' ',
        ' ',
        ' ',
        'a',
        ' ',
        'b',
        ' ',
        'c',
        ' ',
        'd',
        ' ',
        'e',
        ' ',
        'f',
        ' ',
        'g',
        ' ',
        'h',
        '\n',
    ]
}

impl BitBoard {
    /// A picture of the set: the board seen from white's side, with `x` on
    /// the members.
    pub fn to_string(&self) -> (res: String)
        ensures
            res@ == picture_rows(self.0, 7) + picture_foot(),
    {
        let mut s = String::new();
        let mut r: u8 = 8;
        while r > 0
            invariant
                r <= 8,
                s@ + picture_rows(self.0, r - 1) == picture_rows(self.0, 7),
            decreases r,
        {
            let y = r - 1;
            let ghost at_row = s@;
            push_char(&mut s, ' ');
            push_char(&mut s, digit(y + 1));
            push_char(&mut s, ' ');
            let mut x: u8 = 0;
            while x < 8
                invariant
                    x <= 8,
                    y < 8,
                    s@ + picture_cells(self.0, y as int, x as int) == at_row + seq![
                        ' ',
                        digit_char(y + 1),
                        ' ',
                    ] + picture_cells(self.0, y as int, 0),
                decreases 8 - x,
            {
                let sq = BitBoard::from_coords(x, y);
                proof {
                    crate::bits::lemma_single_bit();
                }
                let ghost before = s@;
                push_char(&mut s, ' ');
                if sq.0 & self.0 != 0 {
                    push_char(&mut s, 'x');
                } else {
                    push_char(&mut s, '.');
                }
                proof {
                    assert(s@ + picture_cells(self.0, y as int, x + 1) =~= before + picture_cells(
                        self.0,
                        y as int,
                        x as int,
                    ));
                }
                x += 1;
            }
            push_char(&mut s, '\n');
            proof {
                assert(s@ + picture_rows(self.0, y - 1) =~= at_row + picture_rows(self.0, y as int));
            }
            r -= 1;
        }
        let foot = ['\n', ' ', ' ', ' ', ' ', 'a', ' ', 'b', ' ', 'c', ' ', 'd', ' ', 'e', ' ', 'f', ' ', 'g', ' ', 'h', '\n'];
        let ghost rows = s@;
        let mut i: usize = 0;
        while i < 21
            invariant
                i <= 21,
                foot@ == picture_foot(),
                s@ == rows + picture_foot().subrange(0, i as int),
            decreases 21 - i,
        {
            push_char(&mut s, foot[i]);
            proof {
                assert(s@ =~= rows + picture_foot().subrange(0, i + 1));
            }
            i += 1;
        }
        proof {
            assert(s@ =~= picture_rows(self.0, 7) + picture_foot());
        }
        s
    }
}

/// Walks the members of a set in ascending order of index.
pub struct BitBoardIterator(pub BitBoard);

impl BitBoardIterator {
    /// The next member as a set of its own, or `None` when all were given.
    pub fn next(&mut self) -> (res: Option<BitBoard>)
        ensures
            old(self).0.0 == 0 ==> res is None && final(self).0.0 == 0,
            old(self).0.0 != 0 ==> res == Some(
                BitBoard(1u64 << (u64_trailing_zeros(old(self).0.0) as u64)),
            ) && final(self).0.0 == old(self).0.0 & (old(self).0.0 - 1) as u64,
    {
        if self.0.0 == 0 {
            None
        } else {
            let word = self.0.0;
            proof {
                axiom_u64_trailing_zeros(word);
            }
            let ans = BitBoard(1u64 << word.trailing_zeros());
            self.0 = BitBoard(word & (word - 1));
            Some(ans)
        }
    }
}

impl core::ops::Not for BitBoard {
    type Output = BitBoard;

    /// The complement.
    fn not(self) -> (res: BitBoard) {
        BitBoard(!self.0)
    }
}

impl NotSpecImpl for BitBoard {
    open spec fn obeys_not_spec() -> bool {
        true
    }

    open spec fn not_req(self) -> bool {
        true
    }

    open spec fn not_spec(self) -> BitBoard {
        BitBoard(!self.0)
    }
}

impl core::ops::BitAnd for BitBoard {
    type Output = BitBoard;

    /// The intersection.
    fn bitand(self, rhs: BitBoard) -> (res: BitBoard) {
        BitBoard(self.0 & rhs.0)
    }
}

impl BitAndSpecImpl for BitBoard {
    open spec fn obeys_bitand_spec() -> bool {
        true
    }

    open spec fn bitand_req(self, rhs: BitBoard) -> bool {
        true
    }

    open spec fn bitand_spec(self, rhs: BitBoard) -> BitBoard {
        BitBoard(self.0 & rhs.0)
    }
}

impl core::ops::BitOr for BitBoard {
    type Output = BitBoard;

    /// The union.
    fn bitor(self, rhs: BitBoard) -> (res: BitBoard) {
        BitBoard(self.0 | rhs.0)
    }
}

impl BitOrSpecImpl for BitBoard {
    open spec fn obeys_bitor_spec() -> bool {
        true
    }

    open spec fn bitor_req(self, rhs: BitBoard) -> bool {
        true
    }

    open spec fn bitor_spec(self, rhs: BitBoard) -> BitBoard {
        BitBoard(self.0 | rhs.0)
    }
}

impl core::ops::BitOr<Square> for BitBoard {
    type Output = BitBoard;

    /// The set with the square added.
    fn bitor(self, rhs: Square) -> (res: BitBoard) {
        BitBoard(self.0 | (1u64 << rhs.0))
    }
}

impl BitOrSpecImpl<Square> for BitBoard {
    open spec fn obeys_bitor_spec() -> bool {
        true
    }

    open spec fn bitor_req(self, rhs: Square) -> bool {
        rhs.valid()
    }

    open spec fn bitor_spec(self, rhs: Square) -> BitBoard {
        BitBoard(self.0 | (1u64 << (rhs.0 as u64)))
    }
}

impl core::ops::BitXor for BitBoard {
    type Output = BitBoard;

    /// The symmetric difference.
    fn bitxor(self, rhs: BitBoard) -> (res: BitBoard) {
        BitBoard(self.0 ^ rhs.0)
    }
}

impl BitXorSpecImpl for BitBoard {
    open spec fn obeys_bitxor_spec() -> bool {
        true
    }

    open spec fn bitxor_req(self, rhs: BitBoard) -> bool {
        true
    }

    open spec fn bitxor_spec(self, rhs: BitBoard) -> BitBoard {
        BitBoard(self.0 ^ rhs.0)
    }
}

impl core::ops::Add for BitBoard {
    type Output = BitBoard;

    /// The union.
    fn add(self, rhs: BitBoard) -> (res: BitBoard) {
        BitBoard(self.0 | rhs.0)
    }
}

impl AddSpecImpl for BitBoard {
    open spec fn obeys_add_spec() -> bool {
        true
    }

    open spec fn add_req(self, rhs: BitBoard) -> bool {
        true
    }

    open spec fn add_spec(self, rhs: BitBoard) -> BitBoard {
        BitBoard(self.0 | rhs.0)
    }
}

impl core::ops::Add<Square> for BitBoard {
    type Output = BitBoard;

    /// The set with the square added.
    fn add(self, rhs: Square) -> (res: BitBoard) {
        BitBoard(self.0 | (1u64 << rhs.0))
    }
}

impl AddSpecImpl<Square> for BitBoard {
    open spec fn obeys_add_spec() -> bool {
        true
    }

    open spec fn add_req(self, rhs: Square) -> bool {
        rhs.valid()
    }

    open spec fn add_spec(self, rhs: Square) -> BitBoard {
        BitBoard(self.0 | (1u64 << (rhs.0 as u64)))
    }
}

impl core::ops::Sub for BitBoard {
    type Output = BitBoard;

    /// The difference: the members of `self` that are not in `rhs`.
    fn sub(self, rhs: BitBoard) -> (res: BitBoard) {
        BitBoard(self.0 & !rhs.0)
    }
}

impl SubSpecImpl for BitBoard {
    open spec fn obeys_sub_spec() -> bool {
        true
    }

    open spec fn sub_req(self, rhs: BitBoard) -> bool {
        true
    }

    open spec fn sub_spec(self, rhs: BitBoard) -> BitBoard {
        BitBoard(self.0 & !rhs.0)
    }
}

impl core::ops::Sub<Square> for BitBoard {
    type Output = BitBoard;

    /// The set without the square.
    fn sub(self, rhs: Square) -> (res: BitBoard) {
        BitBoard(self.0 & !(1u64 << rhs.0))
    }
}

impl SubSpecImpl<Square> for BitBoard {
    open spec fn obeys_sub_spec() -> bool {
        true
    }

    open spec fn sub_req(self, rhs: Square) -> bool {
        rhs.valid()
    }

    open spec fn sub_spec(self, rhs: Square) -> BitBoard {
        BitBoard(self.0 & !(1u64 << (rhs.0 as u64)))
    }
}

impl core::ops::Mul for BitBoard {
    type Output = bool;

    /// Whether the two sets share a member.
    fn mul(self, rhs: BitBoard) -> (res: bool) {
        (self.0 & rhs.0) != 0
    }
}

impl MulSpecImpl for BitBoard {
    open spec fn obeys_mul_spec() -> bool {
        true
    }

    open spec fn mul_req(self, rhs: BitBoard) -> bool {
        true
    }

    open spec fn mul_spec(self, rhs: BitBoard) -> bool {
        (self.0 & rhs.0) != 0
    }
}

impl core::ops::Mul<Square> for BitBoard {
    type Output = bool;

    /// Whether the square is a member.
    fn mul(self, rhs: Square) -> (res: bool) {
        (self.0 & (1u64 << rhs.0)) != 0
    }
}

impl MulSpecImpl<Square> for BitBoard {
    open spec fn obeys_mul_spec() -> bool {
        true
    }

    open spec fn mul_req(self, rhs: Square) -> bool {
        rhs.valid()
    }

    open spec fn mul_spec(self, rhs: Square) -> bool {
        (self.0 & (1u64 << (rhs.0 as u64))) != 0
    }
}

impl core::ops::Mul<BitBoard> for Square {
    type Output = bool;

    /// Whether the square is a member.
    fn mul(self, rhs: BitBoard) -> (res: bool) {
        ((1u64 << self.0) & rhs.0) != 0
    }
}

impl MulSpecImpl<BitBoard> for Square {
    open spec fn obeys_mul_spec() -> bool {
        true
    }

    open spec fn mul_req(self, rhs: BitBoard) -> bool {
        self.valid()
    }

    open spec fn mul_spec(self, rhs: BitBoard) -> bool {
        ((1u64 << (self.0 as u64)) & rhs.0) != 0
    }
}

impl From<Square> for BitBoard {
    /// The set whose only member is the square; the empty set when the
    /// square is not on the board.
    fn from(value: Square) -> (res: BitBoard) {
        if value.0 < 64 {
            BitBoard(1u64 << value.0)
        } else {
            BitBoard(0)
        }
    }
}

impl FromSpecImpl<Square> for BitBoard {
    open spec fn obeys_from_spec() -> bool {
        true
    }

    open spec fn from_spec(value: Square) -> BitBoard {
        if value.0 < 64 {
            BitBoard(1u64 << (value.0 as u64))
        } else {
            BitBoard(0)
        }
    }
}

} // verus!
