//! A set of squares held in one 64-bit word.
//!
//! Bit `i` of the word is set exactly when square `i` is a member. In
//! contracts a bitboard is viewed as the set of its members' indices.

use crate::boardstructs::{lemma_step_offsets, step, Direction, File, Rank, Shiftable, Square};
use crate::words::{
    all_squares, count_ones, has_bit, lemma_bitwise, lemma_count_below, lemma_line_bits,
    lemma_members_below, lemma_shift_bits, lemma_single_bit, lemma_squares_of_injective,
    lemma_squares_of_ops, lemma_squares_of_single, lemma_word_laws, members_below, squares_of,
};
use vstd::prelude::*;
use vstd::std_specs::bits::axiom_u64_trailing_zeros;
use vstd::std_specs::convert::FromSpecImpl;
use vstd::std_specs::ops::{BitAndSpecImpl, BitOrSpecImpl, BitXorSpecImpl};

verus! {

/// Where each member of `squares` lands after one step in `direction`;
/// members that would leave the board are dropped.
pub open spec fn shifted(squares: Set<int>, direction: Direction) -> Set<int> {
    Set::new(
        |target: int|
            exists|origin: int|
                squares.contains(origin) && #[trigger] step(origin, direction) == Some(target),
    )
}

/// A set of squares, one bit for each square of the board.
#[derive(PartialEq, Eq, Structural, Debug, Clone, Copy)]
pub struct Bitboard(u64);

impl View for Bitboard {
    type V = Set<int>;

    open spec fn view(&self) -> Set<int> {
        squares_of(self.bits())
    }
}

impl Bitboard {
    /// The 64-bit word behind the set.
    pub closed spec fn bits(self) -> u64 {
        self.0
    }

    /// The bitboard whose word is `bits`.
    pub closed spec fn of_bits(bits: u64) -> Bitboard {
        Bitboard(bits)
    }

    /// A bitboard is its word and nothing more.
    pub broadcast proof fn lemma_of_bits(self)
        ensures
            #[trigger] Bitboard::of_bits(self.bits()) == self,
    {
    }

    /// The word of a bitboard made from a word is that word.
    pub broadcast proof fn lemma_bits_of_bits(bits: u64)
        ensures
            #[trigger] Bitboard::of_bits(bits).bits() == bits,
    {
    }

    /// Every bitboard is a finite set of at most 64 squares, all on the
    /// board.
    pub proof fn lemma_view_bounds(self)
        ensures
            self@.finite(),
            self@.len() <= 64,
            self@.subset_of(all_squares()),
    {
        lemma_count_below(self.bits(), 64);
        assert(self@ =~= self@.filter(|i: int| i < 64));
    }

    /// Two bitboards with the same members are equal.
    pub proof fn lemma_view_injective(self, other: Bitboard)
        requires
            self@ == other@,
        ensures
            self == other,
    {
        lemma_squares_of_injective(self.bits(), other.bits());
    }

    /// The empty bitboard.
    pub closed spec fn spec_new() -> Bitboard {
        Bitboard(0)
    }

    /// The empty bitboard.
    #[verifier::when_used_as_spec(spec_new)]
    pub fn new() -> (empty: Bitboard)
        ensures
            empty == Bitboard::spec_new(),
            empty@ == Set::<int>::empty(),
            empty.bits() == 0,
    {
        proof {
            lemma_squares_of_ops(0, 0);
        }
        Self(0)
    }

    /// The number of squares in the set.
    pub fn len(self) -> (count: u8)
        ensures
            count == self@.len(),
            count <= 64,
    {
        proof {
            lemma_count_below(self.0, 64);
            assert(self@ =~= self@.filter(|i: int| i < 64));
        }
        count_ones(self.0) as u8
    }

    /// True when the set has no members.
    pub fn is_empty(self) -> (empty: bool)
        ensures
            empty == (self@ == Set::<int>::empty()),
            empty == (self@.len() == 0),
            empty == (self == Bitboard::new()),
    {
        proof {
            lemma_squares_of_ops(0, 0);
            if self@ == Set::<int>::empty() {
                lemma_squares_of_injective(self.0, 0);
            }
            self.lemma_view_bounds();
            if self@.len() == 0 {
                self@.lemma_len0_is_empty();
            }
        }
        self.0 == 0
    }

    /// The squares of the board that are not in `self`.
    pub closed spec fn spec_invert(self) -> Bitboard {
        Bitboard(!self.0)
    }

    /// The squares of the board that are not in `self`.
    #[verifier::when_used_as_spec(spec_invert)]
    pub fn invert(self) -> (inverted: Bitboard)
        ensures
            inverted == self.spec_invert(),
            inverted@ == all_squares() - self@,
            inverted.bits() == !self.bits(),
    {
        proof {
            lemma_squares_of_ops(self.0, 0);
        }
        Self(!self.0)
    }

    /// The members of `self` that are not in `other`.
    pub closed spec fn spec_difference(self, other: Bitboard) -> Bitboard {
        Bitboard(self.0 & !other.0)
    }

    /// The members of `self` that are not in `other`.
    #[verifier::when_used_as_spec(spec_difference)]
    pub fn difference(self, other: Bitboard) -> (rest: Bitboard)
        ensures
            rest == self.spec_difference(other),
            rest@ == self@ - other@,
            rest.bits() == self.bits() & !other.bits(),
    {
        proof {
            lemma_squares_of_ops(self.0, other.0);
        }
        Self(self.0 & !other.0)
    }

    /// The squares that are in exactly one of `self` and `other`.
    pub closed spec fn spec_symmetric_difference(self, other: Bitboard) -> Bitboard {
        Bitboard(self.0 ^ other.0)
    }

    /// The squares that are in exactly one of `self` and `other`.
    #[verifier::when_used_as_spec(spec_symmetric_difference)]
    pub fn symmetric_difference(self, other: Bitboard) -> (either: Bitboard)
        ensures
            either == self.spec_symmetric_difference(other),
            either@ == (self@ - other@) + (other@ - self@),
            either.bits() == self.bits() ^ other.bits(),
    {
        proof {
            lemma_squares_of_ops(self.0, other.0);
        }
        Self(self.0 ^ other.0)
    }

    /// The squares that are in both `self` and `other`.
    pub closed spec fn spec_intersection(self, other: Bitboard) -> Bitboard {
        Bitboard(self.0 & other.0)
    }

    /// The squares that are in both `self` and `other`.
    #[verifier::when_used_as_spec(spec_intersection)]
    pub fn intersection(self, other: Bitboard) -> (both: Bitboard)
        ensures
            both == self.spec_intersection(other),
            both@ == self@ * other@,
            both.bits() == self.bits() & other.bits(),
    {
        proof {
            lemma_squares_of_ops(self.0, other.0);
        }
        Self(self.0 & other.0)
    }

    /// The squares that are in `self`, in `other`, or in both.
    pub closed spec fn spec_union(self, other: Bitboard) -> Bitboard {
        Bitboard(self.0 | other.0)
    }

    /// The squares that are in `self`, in `other`, or in both.
    #[verifier::when_used_as_spec(spec_union)]
    pub fn union(self, other: Bitboard) -> (joined: Bitboard)
        ensures
            joined == self.spec_union(other),
            joined@ == self@ + other@,
            joined.bits() == self.bits() | other.bits(),
    {
        proof {
            lemma_squares_of_ops(self.0, other.0);
        }
        Self(self.0 | other.0)
    }

    /// True when `sqr` is a member.
    pub fn contains(self, sqr: Square) -> (found: bool)
        ensures
            found == self@.contains(sqr@),
    {
        let sqrbb = Self::from(sqr);
        proof {
            use_type_invariant(sqr);
            lemma_single_bit(self.0, sqr@ as u64, sqr@ as u64);
        }
        self.intersection(sqrbb) == sqrbb
    }

    /// True when `self` and `other` share no square.
    pub closed spec fn spec_is_disjoint(self, other: Bitboard) -> bool {
        self.0 & other.0 == 0
    }

    /// True when `self` and `other` share no square.
    #[verifier::when_used_as_spec(spec_is_disjoint)]
    pub fn is_disjoint(self, other: Bitboard) -> (apart: bool)
        ensures
            apart == self.spec_is_disjoint(other),
            apart == self@.disjoint(other@),
    {
        proof {
            Bitboard(self.0 & other.0).lemma_empty_word();
            lemma_squares_of_ops(self.0, other.0);
            if self@.disjoint(other@) {
                assert(self@ * other@ =~= Set::<int>::empty());
            }
            if self@ * other@ =~= Set::<int>::empty() {
                assert forall|i: int| self@.contains(i) implies !other@.contains(i) by {
                    assert(!(self@ * other@).contains(i));
                }
            }
        }
        (self.0 & other.0) == 0
    }

    /// True when every member of `self` is a member of `other`.
    pub closed spec fn spec_is_subset(self, other: Bitboard) -> bool {
        self.0 & other.0 == self.0
    }

    /// True when every member of `self` is a member of `other`.
    #[verifier::when_used_as_spec(spec_is_subset)]
    pub fn is_subset(self, other: Bitboard) -> (inside: bool)
        ensures
            inside == self.spec_is_subset(other),
            inside == self@.subset_of(other@),
    {
        proof {
            self.lemma_subset_word(other);
        }
        (self.0 & other.0) == self.0
    }

    /// True when every member of `other` is a member of `self`.
    pub closed spec fn spec_is_supset(self, other: Bitboard) -> bool {
        self.0 & other.0 == other.0
    }

    /// True when every member of `other` is a member of `self`.
    #[verifier::when_used_as_spec(spec_is_supset)]
    pub fn is_supset(self, other: Bitboard) -> (around: bool)
        ensures
            around == self.spec_is_supset(other),
            around == other@.subset_of(self@),
    {
        proof {
            other.lemma_subset_word(self);
            lemma_bitwise(self.0, other.0, 0);
        }
        (self.0 & other.0) == other.0
    }

    /// Adds `sqr` to the set and tells whether it was a member before.
    pub fn insert(&mut self, sqr: Square) -> (was_member: bool)
        ensures
            was_member == old(self)@.contains(sqr@),
            final(self)@ == old(self)@.insert(sqr@),
    {
        let contains = self.contains(sqr);
        *self = self.union(Self::from(sqr));
        proof {
            assert(self@ =~= old(self)@.insert(sqr@));
        }
        contains
    }

    /// Takes `sqr` out of the set and tells whether it was a member before.
    pub fn remove(&mut self, sqr: Square) -> (was_member: bool)
        ensures
            was_member == old(self)@.contains(sqr@),
            final(self)@ == old(self)@.remove(sqr@),
    {
        let contains = self.contains(sqr);
        *self = self.difference(Self::from(sqr));
        proof {
            assert(self@ =~= old(self)@.remove(sqr@));
        }
        contains
    }

    proof fn lemma_empty_word(self)
        ensures
            self.0 == 0 <==> self@ =~= Set::<int>::empty(),
    {
        lemma_squares_of_ops(0, 0);
        if self@ =~= Set::<int>::empty() {
            lemma_squares_of_injective(self.0, 0);
        }
    }

    proof fn lemma_subset_word(self, other: Bitboard)
        ensures
            self.0 & other.0 == self.0 <==> self@.subset_of(other@),
    {
        lemma_squares_of_ops(self.0, other.0);
        if self@.subset_of(other@) {
            assert(self@ * other@ =~= self@);
            lemma_squares_of_injective(self.0 & other.0, self.0);
        }
        if self.0 & other.0 == self.0 {
            assert(self@ =~= self@ * other@);
        }
    }
}

impl From<Bitboard> for u64 {
    fn from(bitboard: Bitboard) -> (bits: u64) {
        bitboard.0
    }
}

impl FromSpecImpl<Bitboard> for u64 {
    open spec fn obeys_from_spec() -> bool {
        true
    }

    open spec fn from_spec(bitboard: Bitboard) -> u64 {
        bitboard.bits()
    }
}

impl From<u64> for Bitboard {
    fn from(value: u64) -> (bitboard: Bitboard)
        ensures
            bitboard.bits() == value,
    {
        Bitboard(value)
    }
}

impl FromSpecImpl<u64> for Bitboard {
    open spec fn obeys_from_spec() -> bool {
        true
    }

    open spec fn from_spec(value: u64) -> Bitboard {
        Bitboard::of_bits(value)
    }
}

impl From<Square> for Bitboard {
    /// The set that holds `sqr` alone.
    fn from(sqr: Square) -> (bitboard: Bitboard)
        ensures
            bitboard@ == set![sqr@],
            bitboard.bits() == 1u64 << (sqr@ as u64),
    {
        proof {
            use_type_invariant(sqr);
            lemma_squares_of_single(sqr@ as u64);
        }
        let index: u8 = u8::from(sqr);
        Bitboard(1u64 << (index as u64))
    }
}

impl FromSpecImpl<Square> for Bitboard {
    open spec fn obeys_from_spec() -> bool {
        true
    }

    open spec fn from_spec(sqr: Square) -> Bitboard {
        Bitboard::of_bits(1u64 << (sqr@ as u64))
    }
}

/// The squares of rank `rank`.
pub open spec fn rank_squares(rank: int) -> Set<int> {
    Set::new(|index: int| 0 <= index < 64 && index / 8 == rank)
}

/// The squares of file `file`.
pub open spec fn file_squares(file: int) -> Set<int> {
    Set::new(|index: int| 0 <= index < 64 && index % 8 == file)
}

impl From<Rank> for Bitboard {
    /// All eight squares of `rank`.
    fn from(rank: Rank) -> (bitboard: Bitboard)
        ensures
            bitboard@ == rank_squares(rank@),
    {
        proof {
            use_type_invariant(rank);
        }
        let line: u8 = u8::from(rank);
        let amount: u64 = (line as u64) * 8;
        let bits: u64 = 0xffu64 << amount;
        proof {
            assert forall|i: int| has_bit(bits, i) == (0 <= i < 64 && i / 8 == rank@) by {
                if 0 <= i < 64 {
                    lemma_line_bits(line as u64, amount, i as u64);
                }
            }
            assert(squares_of(bits) =~= rank_squares(rank@));
        }
        Bitboard(bits)
    }
}

impl FromSpecImpl<Rank> for Bitboard {
    open spec fn obeys_from_spec() -> bool {
        true
    }

    open spec fn from_spec(rank: Rank) -> Bitboard {
        Bitboard::of_bits(0xffu64 << ((rank@ * 8) as u64))
    }
}

impl From<File> for Bitboard {
    /// All eight squares of `file`.
    fn from(file: File) -> (bitboard: Bitboard)
        ensures
            bitboard@ == file_squares(file@),
    {
        proof {
            use_type_invariant(file);
        }
        let line: u8 = u8::from(file);
        let amount: u64 = line as u64;
        let bits: u64 = 0x0101_0101_0101_0101u64 << amount;
        proof {
            assert forall|i: int| has_bit(bits, i) == (0 <= i < 64 && i % 8 == file@) by {
                if 0 <= i < 64 {
                    lemma_line_bits(line as u64, amount, i as u64);
                }
            }
            assert(squares_of(bits) =~= file_squares(file@));
        }
        Bitboard(bits)
    }
}

impl FromSpecImpl<File> for Bitboard {
    open spec fn obeys_from_spec() -> bool {
        true
    }

    open spec fn from_spec(file: File) -> Bitboard {
        Bitboard::of_bits(0x0101_0101_0101_0101u64 << (file@ as u64))
    }
}

impl core::ops::BitAnd for Bitboard {
    type Output = Bitboard;

    fn bitand(self, rhs: Bitboard) -> (both: Bitboard)
        ensures
            both@ == self@ * rhs@,
    {
        self.intersection(rhs)
    }
}

impl BitAndSpecImpl for Bitboard {
    open spec fn obeys_bitand_spec() -> bool {
        true
    }

    open spec fn bitand_req(self, rhs: Bitboard) -> bool {
        true
    }

    open spec fn bitand_spec(self, rhs: Bitboard) -> Bitboard {
        self.spec_intersection(rhs)
    }
}

impl core::ops::BitOr for Bitboard {
    type Output = Bitboard;

    fn bitor(self, rhs: Bitboard) -> (joined: Bitboard)
        ensures
            joined@ == self@ + rhs@,
    {
        self.union(rhs)
    }
}

impl BitOrSpecImpl for Bitboard {
    open spec fn obeys_bitor_spec() -> bool {
        true
    }

    open spec fn bitor_req(self, rhs: Bitboard) -> bool {
        true
    }

    open spec fn bitor_spec(self, rhs: Bitboard) -> Bitboard {
        self.spec_union(rhs)
    }
}

impl core::ops::BitXor for Bitboard {
    type Output = Bitboard;

    fn bitxor(self, rhs: Bitboard) -> (either: Bitboard)
        ensures
            either@ == (self@ - rhs@) + (rhs@ - self@),
    {
        self.symmetric_difference(rhs)
    }
}

impl BitXorSpecImpl for Bitboard {
    open spec fn obeys_bitxor_spec() -> bool {
        true
    }

    open spec fn bitxor_req(self, rhs: Bitboard) -> bool {
        true
    }

    open spec fn bitxor_spec(self, rhs: Bitboard) -> Bitboard {
        self.spec_symmetric_difference(rhs)
    }
}

impl core::ops::BitAndAssign for Bitboard {
    fn bitand_assign(&mut self, rhs: Bitboard)
        ensures
            final(self)@ == old(self)@ * rhs@,
    {
        *self = *self & rhs
    }
}

impl core::ops::BitOrAssign for Bitboard {
    fn bitor_assign(&mut self, rhs: Bitboard)
        ensures
            final(self)@ == old(self)@ + rhs@,
    {
        *self = *self | rhs
    }
}

impl core::ops::BitXorAssign for Bitboard {
    fn bitxor_assign(&mut self, rhs: Bitboard)
        ensures
            final(self)@ == (old(self)@ - rhs@) + (rhs@ - old(self)@),
    {
        *self = *self ^ rhs
    }
}

/// Hands out the members of a bitboard one by one, lowest index first.
///
/// The iterator owns a copy of the set and uses it up; the bitboard it was
/// made from stays as it was. In contracts it is viewed as the set of
/// squares still to come.
pub struct BitboardIntoIterator {
    bb: Bitboard,
}

impl View for BitboardIntoIterator {
    type V = Set<int>;

    closed spec fn view(&self) -> Set<int> {
        self.bb@
    }
}

impl Bitboard {
    /// An iterator over the members, in ascending order of index.
    pub fn into_iter(self) -> (iter: BitboardIntoIterator)
        ensures
            iter@ == self@,
    {
        BitboardIntoIterator { bb: self }
    }

    /// The members in ascending order of index.
    pub open spec fn members(self) -> Seq<int> {
        members_below(self.bits(), 64)
    }

    /// The list of members holds exactly the members of the set, each
    /// once, lowest index first.
    pub proof fn lemma_members(self)
        ensures
            self.members().len() == self@.len(),
            self.members().len() <= 64,
            forall|place: int|
                0 <= place < self.members().len() ==> self@.contains(
                    #[trigger] self.members()[place],
                ),
            forall|lower: int, higher: int|
                0 <= lower < higher < self.members().len() ==> self.members()[lower]
                    < self.members()[higher],
            forall|square: int| self@.contains(square) ==> self.members().contains(square),
    {
        lemma_members_below(self.bits(), 64);
        lemma_count_below(self.bits(), 64);
        assert(self@ =~= self@.filter(|i: int| i < 64));
    }

    /// The members as a vector of squares, in ascending order of index.
    pub fn squares(self) -> (list: Vec<Square>)
        ensures
            list@.map_values(|sqr: Square| sqr@) == self.members(),
    {
        let mut list: Vec<Square> = Vec::new();
        let mut index: u8 = 0;
        while index < 64
            invariant
                index <= 64,
                list@.map_values(|sqr: Square| sqr@) == members_below(self.0, index as int),
            decreases 64 - index,
        {
            let sqr = Square::new(index);
            if self.contains(sqr) {
                list.push(sqr);
                proof {
                    assert(list@.map_values(|sqr: Square| sqr@) =~= members_below(
                        self.0,
                        index as int,
                    ).push(index as int));
                }
            }
            index = index + 1;
        }
        list
    }
}

impl BitboardIntoIterator {
    /// The lowest square still to come, which is then taken out; `None`
    /// once no square is left.
    pub fn next(&mut self) -> (item: Option<Square>)
        ensures
            match item {
                Some(sqr) => {
                    &&& old(self)@.contains(sqr@)
                    &&& forall|other: int| old(self)@.contains(other) ==> sqr@ <= other
                    &&& final(self)@ == old(self)@.remove(sqr@)
                },
                None => old(self)@ == Set::<int>::empty() && final(self)@ == old(self)@,
            },
    {
        if self.bb.is_empty() {
            return None;
        }
        let idx = self.bb.0.trailing_zeros();
        proof {
            axiom_u64_trailing_zeros(self.bb.0);
            assert forall|other: int| old(self)@.contains(other) implies idx <= other by {
                if other < idx {
                    assert((self.bb.0 >> (other as u64)) & 1 == 0);
                }
            }
        }
        let sqr = Square::new(idx as u8);
        self.bb.remove(sqr);
        Some(sqr)
    }
}

/// The edge that a step in a straight `direction` would cross: the squares
/// that cannot take the step.
spec fn edge_squares(direction: Direction) -> Set<int> {
    match direction {
        Direction::Up => rank_squares(7),
        Direction::Down => rank_squares(0),
        Direction::Right => file_squares(7),
        Direction::Left => file_squares(0),
        _ => Set::empty(),
    }
}

/// By how much a step in a straight `direction` changes a square's index.
spec fn index_step(direction: Direction) -> int {
    direction.rank_step() * 8 + direction.file_step()
}

/// Moving the bits of a word, once its edge is cleared, moves the squares
/// one step.
proof fn lemma_raw_shift(source: Bitboard, masked: Bitboard, moved: Bitboard, direction: Direction)
    requires
        direction.rank_step() == 0 || direction.file_step() == 0,
        masked@ == source@ - edge_squares(direction),
        moved.0 == match direction {
            Direction::Up => masked.0 << 8,
            Direction::Down => masked.0 >> 8,
            Direction::Right => masked.0 << 1,
            _ => masked.0 >> 1,
        },
    ensures
        moved@ == shifted(source@, direction),
{
    let delta = index_step(direction);
    let image = shifted(source@, direction);
    assert forall|target: int| 0 <= target < 64 implies (has_bit(moved.0, target) <==> has_bit(
        masked.0,
        target - delta,
    )) by {
        lemma_shift_bits(masked.0, 8, target as u64);
        lemma_shift_bits(masked.0, 1, target as u64);
    }
    assert forall|target: int| moved@.contains(target) implies image.contains(target) by {
        let origin = target - delta;
        assert(masked@.contains(origin));
        lemma_step_offsets(origin);
        assert(step(origin, direction) == Some(target));
    }
    assert forall|target: int| image.contains(target) implies moved@.contains(target) by {
        let origin = choose|origin: int|
            source@.contains(origin) && #[trigger] step(origin, direction) == Some(target);
        lemma_step_offsets(origin);
        assert(masked@.contains(origin));
        assert(target - delta == origin);
    }
    assert(moved@ =~= image);
}

/// A diagonal step is a step along the rank's direction followed by a
/// step along the file's direction.
pub proof fn lemma_shifted_twice(squares: Set<int>, first: Direction, second: Direction, both: Direction)
    requires
        squares.subset_of(all_squares()),
        first.file_step() == 0,
        second.rank_step() == 0,
        both.rank_step() == first.rank_step(),
        both.file_step() == second.file_step(),
    ensures
        shifted(shifted(squares, first), second) == shifted(squares, both),
{
    let once = shifted(squares, first);
    let twice = shifted(once, second);
    let direct = shifted(squares, both);
    assert forall|target: int| twice.contains(target) implies direct.contains(target) by {
        let middle = choose|middle: int|
            once.contains(middle) && #[trigger] step(middle, second) == Some(target);
        let origin = choose|origin: int|
            squares.contains(origin) && #[trigger] step(origin, first) == Some(middle);
        assert(step(origin, both) == Some(target));
    }
    assert forall|target: int| direct.contains(target) implies twice.contains(target) by {
        let origin = choose|origin: int|
            squares.contains(origin) && #[trigger] step(origin, both) == Some(target);
        let middle = (origin / 8 + first.rank_step()) * 8 + origin % 8;
        assert(step(origin, first) == Some(middle));
        assert(once.contains(middle));
        assert(step(middle, second) == Some(target));
    }
    assert(twice =~= direct);
}

impl Bitboard {
    /// Moves every member one step up, down, right or left: the members
    /// on the edge ahead are taken out, and the rest of the word is moved.
    fn shift_straight(self, direction: Direction) -> (moved: Bitboard)
        requires
            direction.rank_step() == 0 || direction.file_step() == 0,
        ensures
            moved@ == shifted(self@, direction),
    {
        let (masked, moved) = match direction {
            Direction::Up => {
                let masked = self.difference(Bitboard::from(Rank::new(7)));
                (masked, Bitboard(masked.0 << 8))
            },
            Direction::Down => {
                let masked = self.difference(Bitboard::from(Rank::new(0)));
                (masked, Bitboard(masked.0 >> 8))
            },
            Direction::Right => {
                let masked = self.difference(Bitboard::from(File::new(7)));
                (masked, Bitboard(masked.0 << 1))
            },
            _ => {
                let masked = self.difference(Bitboard::from(File::new(0)));
                (masked, Bitboard(masked.0 >> 1))
            },
        };
        proof {
            lemma_raw_shift(self, masked, moved, direction);
        }
        moved
    }
}

impl Shiftable for Bitboard {
    type ShiftType = Bitboard;

    /// Moves every member one step in `direction`. A member on the edge
    /// that the step would cross is dropped: nothing wraps round to the
    /// other side of the board.
    ///
    /// A diagonal shift is the vertical shift followed by the horizontal
    /// one, so down-left is down, then left.
    fn shift(&self, direction: Direction) -> (moved: Bitboard)
        ensures
            moved@ == shifted(self@, direction),
    {
        proof {
            self.lemma_view_bounds();
        }
        match direction {
            Direction::Up | Direction::Right | Direction::Down | Direction::Left => {
                self.shift_straight(direction)
            },
            Direction::UpRight => {
                proof {
                    lemma_shifted_twice(self@, Direction::Up, Direction::Right, direction);
                }
                self.shift_straight(Direction::Up).shift_straight(Direction::Right)
            },
            Direction::DownRight => {
                proof {
                    lemma_shifted_twice(self@, Direction::Down, Direction::Right, direction);
                }
                self.shift_straight(Direction::Down).shift_straight(Direction::Right)
            },
            Direction::DownLeft => {
                proof {
                    lemma_shifted_twice(self@, Direction::Down, Direction::Left, direction);
                }
                self.shift_straight(Direction::Down).shift_straight(Direction::Left)
            },
            Direction::UpLeft => {
                proof {
                    lemma_shifted_twice(self@, Direction::Up, Direction::Left, direction);
                }
                self.shift_straight(Direction::Up).shift_straight(Direction::Left)
            },
        }
    }
}

impl Bitboard {
    /// What the set operations do to the members, and what the tests on
    /// two sets mean.
    pub proof fn lemma_operation_views(self, other: Bitboard)
        ensures
            Bitboard::new()@ == Set::<int>::empty(),
            self.union(other)@ == self@ + other@,
            self.intersection(other)@ == self@ * other@,
            self.difference(other)@ == self@ - other@,
            self.symmetric_difference(other)@ == (self@ - other@) + (other@ - self@),
            self.invert()@ == all_squares() - self@,
            self.is_subset(other) == self@.subset_of(other@),
            self.is_supset(other) == other@.subset_of(self@),
            self.is_disjoint(other) == self@.disjoint(other@),
            self.intersection(other).bits() == self.bits() & other.bits(),
    {
        lemma_squares_of_ops(self.0, other.0);
        self.lemma_subset_word(other);
        other.lemma_subset_word(self);
        lemma_bitwise(self.0, other.0, 0);
        Bitboard(self.0 & other.0).lemma_empty_word();
        if self@.disjoint(other@) {
            assert(self@ * other@ =~= Set::<int>::empty());
        }
        if self@ * other@ =~= Set::<int>::empty() {
            assert forall|i: int| self@.contains(i) implies !other@.contains(i) by {
                assert(!(self@ * other@).contains(i));
            }
        }
    }

    /// Union and intersection are commutative, associative and idempotent.
    pub proof fn lemma_union_intersection_laws(self, b: Bitboard, c: Bitboard)
        ensures
            self.union(b) == b.union(self),
            self.intersection(b) == b.intersection(self),
            self.union(b).union(c) == self.union(b.union(c)),
            self.intersection(b).intersection(c) == self.intersection(b.intersection(c)),
            self.union(self) == self,
            self.intersection(self) == self,
    {
        lemma_word_laws(self.0, b.0, c.0);
    }

    /// Taking `other` away is intersecting with what `other` leaves out.
    pub proof fn lemma_difference_by_inversion(self, other: Bitboard)
        ensures
            self.difference(other) == self.intersection(other.invert()),
    {
    }

    /// Two sets that are subsets of each other are equal.
    pub proof fn lemma_mutual_subsets(self, other: Bitboard)
        requires
            self.is_subset(other),
            other.is_subset(self),
        ensures
            self == other,
    {
        lemma_word_laws(self.0, other.0, 0);
    }

    /// Taking a square out and putting it back, or the other way round,
    /// changes the membership of no other square; and it restores the set
    /// where it undoes itself.
    pub proof fn lemma_insert_remove(self, sqr: Square, other: int)
        requires
            sqr.wf(),
            other != sqr@,
        ensures
            self@.remove(sqr@).insert(sqr@).contains(other) == self@.contains(other),
            self@.insert(sqr@).remove(sqr@).contains(other) == self@.contains(other),
            self@.contains(sqr@) ==> self@.remove(sqr@).insert(sqr@) == self@,
            !self@.contains(sqr@) ==> self@.insert(sqr@).remove(sqr@) == self@,
    {
        if self@.contains(sqr@) {
            assert(self@.remove(sqr@).insert(sqr@) =~= self@);
        } else {
            assert(self@.insert(sqr@).remove(sqr@) =~= self@);
        }
    }

    /// Squares on an edge do not survive a shift across that edge: they
    /// are dropped, and none comes back on the opposite side.
    pub proof fn lemma_shift_clips(self)
        ensures
            self@.subset_of(file_squares(0)) ==> shifted(self@, Direction::Left) == Set::<
                int,
            >::empty(),
            self@.subset_of(file_squares(7)) ==> shifted(self@, Direction::Right) == Set::<
                int,
            >::empty(),
            self@.subset_of(rank_squares(0)) ==> shifted(self@, Direction::Down) == Set::<
                int,
            >::empty(),
            self@.subset_of(rank_squares(7)) ==> shifted(self@, Direction::Up) == Set::<
                int,
            >::empty(),
    {
        if self@.subset_of(file_squares(0)) {
            assert forall|origin: int| self@.contains(origin) implies (#[trigger] step(
                origin,
                Direction::Left,
            )) is None by {
                assert(file_squares(0).contains(origin));
            }
            lemma_shifted_from_the_edge(self@, Direction::Left);
        }
        if self@.subset_of(file_squares(7)) {
            assert forall|origin: int| self@.contains(origin) implies (#[trigger] step(
                origin,
                Direction::Right,
            )) is None by {
                assert(file_squares(7).contains(origin));
            }
            lemma_shifted_from_the_edge(self@, Direction::Right);
        }
        if self@.subset_of(rank_squares(0)) {
            assert forall|origin: int| self@.contains(origin) implies (#[trigger] step(
                origin,
                Direction::Down,
            )) is None by {
                assert(rank_squares(0).contains(origin));
            }
            lemma_shifted_from_the_edge(self@, Direction::Down);
        }
        if self@.subset_of(rank_squares(7)) {
            assert forall|origin: int| self@.contains(origin) implies (#[trigger] step(
                origin,
                Direction::Up,
            )) is None by {
                assert(rank_squares(7).contains(origin));
            }
            lemma_shifted_from_the_edge(self@, Direction::Up);
        }
    }
}

/// A set none of whose members can take the step is shifted to nothing.
proof fn lemma_shifted_from_the_edge(squares: Set<int>, direction: Direction)
    requires
        forall|origin: int|
            squares.contains(origin) ==> (#[trigger] step(origin, direction)) is None,
    ensures
        shifted(squares, direction) == Set::<int>::empty(),
{
    assert(shifted(squares, direction) =~= Set::<int>::empty());
}

} // verus!
