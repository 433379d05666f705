//! Magic bitboards: attack tables for the sliding pieces, indexed by a
//! multiplicative hash of the blockers that matter.
//!
//! For one square, the *relevant mask* holds the squares whose occupancy
//! can change what the slider attacks. Every subset of the mask is a
//! blocker pattern; a *magic* multiplier sends each pattern to a slot of a
//! 4096-slot table so that two patterns share a slot only where they have
//! the same answer. Such multipliers are found by trying random candidates.

use crate::bitboard::Bitboard;
use crate::boardstructs::{Direction, File, Rank, Square};
use crate::moves::moveboards::{
    lemma_ray_squares, ray, slider_attacks, slider_move_board_slow, Slider,
};
use crate::words::{
    has_bit, lemma_small_word, lemma_squares_of_injective, lemma_word_where, squares_of,
    word_where,
};
use smallvec::SmallVec;
use vstd::arithmetic::power2::{lemma2_to64, pow2};
use vstd::bits::{lemma_u64_pow2_no_overflow, lemma_u64_shl_is_mul};
use vstd::prelude::*;
use vstd::set_lib::lemma_len_subset;

verus! {

/// The number of slots in every lookup table.
pub const TABLE_SIZE: usize = 4096;

/// The most squares a relevant mask may hold: with more, a pattern could
/// hash to a slot beyond the table.
pub const MAX_MASK_SQUARES: u8 = 12;

/// How many candidates the search for one square tries before it gives up.
pub const MAX_ATTEMPTS: u64 = 100_000_000;

/// The bits of the top byte of a word.
pub const HIGH_BYTE: u64 = 0xff00_0000_0000_0000;

/// How many bits of the top byte a candidate's product with the mask
/// must have set for the candidate to be tried on the table.
pub const MIN_HIGH_BITS: u8 = 6;

/// Why no magic was built.
#[derive(PartialEq, Eq, Structural, Debug, Clone, Copy)]
pub enum MagicError {
    /// The mask holds more than [`MAX_MASK_SQUARES`] squares.
    MaskTooLarge,
    /// No candidate among those tried was free of harmful collisions.
    Exhausted,
}

/// The table slot of the blocker pattern `key` under the multiplier
/// `magic`: the product's top `64 - shift` bits.
pub open spec fn hash_index(key: u64, magic: u64, shift: u8) -> int {
    if shift >= 64 {
        0
    } else {
        (key.wrapping_mul(magic) >> (shift as u64)) as int
    }
}

proof fn lemma_shifted_bound(word: u64, shift: u64)
    by (bit_vector)
    requires
        52 <= shift < 64,
    ensures
        word >> shift < 4096,
{
}

/// With a shift of 52 or more, every pattern lands inside the table.
pub proof fn lemma_hash_index_bound(key: u64, magic: u64, shift: u8)
    requires
        52 <= shift,
    ensures
        0 <= hash_index(key, magic, shift) < TABLE_SIZE,
{
    if shift < 64 {
        lemma_shifted_bound(key.wrapping_mul(magic), shift as u64);
    }
}

/// The table slot of the blocker pattern `key`: the product of pattern
/// and multiplier, shifted right so that its top bits give the slot.
pub fn magic_hash(key: Bitboard, magic: u64, shift: u8) -> (index: u64)
    ensures
        index == hash_index(key.bits(), magic, shift),
{
    if shift >= 64 {
        0
    } else {
        u64::from(key).wrapping_mul(magic) >> (shift as u64)
    }
}

/// How many bits of the top byte are set in the product of `magic` and
/// the mask word.
pub open spec fn high_bits(magic: u64, mask: u64) -> nat {
    squares_of(magic.wrapping_mul(mask) & HIGH_BYTE).len()
}

/// True when the product of `magic` and the mask has at least
/// [`MIN_HIGH_BITS`] of the eight bits of its top byte set. Multipliers
/// that push the mask's bits up like this make good hashes far more often
/// than others.
pub fn magic_pushes_up(magic: u64, mask: Bitboard) -> (pushes: bool)
    ensures
        pushes == (high_bits(magic, mask.bits()) >= MIN_HIGH_BITS),
{
    let prod = magic.wrapping_mul(u64::from(mask));
    let num_high_bits = Bitboard::from(prod & HIGH_BYTE).len();
    num_high_bits >= MIN_HIGH_BITS
}

/// A 64-bit word drawn at random.
///
/// Calls `rand::random::<u64>`, which draws from the thread's generator;
/// nothing is claimed about the word that comes back.
#[verifier::external_body]
fn random_word() -> (word: u64) {
    rand::random::<u64>()
}

/// The lookup table of one square for one kind of slider.
pub struct SquareMagic {
    table: Vec<Bitboard>,
    mask: Bitboard,
    magic_num: u64,
    shift: u8,
}

impl SquareMagic {
    /// The slots of the table.
    pub closed spec fn table(self) -> Seq<Bitboard> {
        self.table@
    }

    /// The relevant mask: the squares whose occupancy the lookup reads.
    pub closed spec fn mask(self) -> Bitboard {
        self.mask
    }

    /// The multiplier.
    pub closed spec fn magic_num(self) -> u64 {
        self.magic_num
    }

    /// How far the product is shifted down to give a slot.
    pub closed spec fn shift(self) -> u8 {
        self.shift
    }

    /// The table has all its slots, and the shift leaves as many bits of
    /// the product as the mask has squares, twelve at most.
    #[verifier::type_invariant]
    pub open spec fn wf(self) -> bool {
        &&& self.table().len() == TABLE_SIZE
        &&& self.mask()@.len() <= MAX_MASK_SQUARES
        &&& self.shift() == 64 - self.mask()@.len()
    }

    /// The slot that answers for `blockers`: only the blockers inside the
    /// mask count.
    pub open spec fn slot(self, blockers: Bitboard) -> int {
        hash_index(blockers.intersection(self.mask()).bits(), self.magic_num(), self.shift())
    }

    /// What the table holds for `blockers`.
    pub open spec fn answer(self, blockers: Bitboard) -> Bitboard {
        self.table()[self.slot(blockers)]
    }

    /// The attack set stored for `blockers`.
    pub fn lookup(&self, blockers: Bitboard) -> (moves: Bitboard)
        ensures
            moves == self.answer(blockers),
    {
        proof {
            use_type_invariant(self);
        }
        let relevant_blockers = blockers & self.mask;
        let idx = magic_hash(relevant_blockers, self.magic_num, self.shift);
        proof {
            lemma_hash_index_bound(relevant_blockers.bits(), self.magic_num, self.shift);
        }
        self.table[idx as usize]
    }
}

/// The subset of `members` that `index` picks: bit `i` of the index
/// decides whether the member at place `i` belongs to it.
pub open spec fn selection(members: Seq<int>, index: u64) -> Set<int> {
    Set::new(
        |square: int|
            exists|i: int|
                0 <= i < members.len() && has_bit(index, i) && #[trigger] members[i] == square,
    )
}

/// Taking one more member into account adds it to the selection where
/// its bit is set, and changes nothing else.
proof fn lemma_selection_grows(members: Seq<int>, index: u64, place: int)
    requires
        0 <= place < members.len(),
    ensures
        selection(members.take(place + 1), index) == if has_bit(index, place) {
            selection(members.take(place), index).insert(members[place])
        } else {
            selection(members.take(place), index)
        },
{
    let before = members.take(place);
    let after = members.take(place + 1);
    let grown = if has_bit(index, place) {
        selection(before, index).insert(members[place])
    } else {
        selection(before, index)
    };
    assert forall|square: int| selection(after, index).contains(square) implies grown.contains(
        square,
    ) by {
        let i = choose|i: int|
            0 <= i < after.len() && has_bit(index, i) && #[trigger] after[i] == square;
        if i < place {
            assert(before[i] == square);
        }
    }
    assert forall|square: int| grown.contains(square) implies selection(after, index).contains(
        square,
    ) by {
        if selection(before, index).contains(square) {
            let i = choose|i: int|
                0 <= i < before.len() && has_bit(index, i) && #[trigger] before[i] == square;
            assert(after[i] == square);
        } else {
            assert(after[place] == square);
        }
    }
    assert(selection(after, index) =~= grown);
}

/// Every subset of `bb`, each once: the subset at place `index` is the
/// one that `index` selects from the members of `bb` in ascending order.
pub fn bitboard_combinations(bb: Bitboard) -> (combinations: Vec<Bitboard>)
    requires
        bb@.len() < 64,
    ensures
        combinations.len() == pow2(bb@.len()),
        forall|index: int|
            0 <= index < combinations.len() ==> (#[trigger] combinations[index])@ == selection(
                bb.members(),
                index as u64,
            ),
{
    let mut combinations = Vec::<Bitboard>::new();
    let squares = bb.squares();
    proof {
        bb.lemma_members();
        assert(squares@.len() == squares@.map_values(|sqr: Square| sqr@).len());
        lemma_u64_pow2_no_overflow(squares.len() as nat);
        lemma_u64_shl_is_mul(1, squares.len() as u64);
    }
    let count: u64 = 1u64 << (squares.len() as u64);
    let mut combo_idx: u64 = 0;
    while combo_idx < count
        invariant
            combo_idx <= count,
            count == pow2(bb@.len()),
            squares@.len() == bb@.len(),
            squares@.len() < 64,
            squares@.map_values(|sqr: Square| sqr@) == bb.members(),
            combinations.len() == combo_idx,
            forall|index: int|
                0 <= index < combinations.len() ==> (#[trigger] combinations[index])@
                    == selection(bb.members(), index as u64),
        decreases count - combo_idx,
    {
        let mut subset = Bitboard::new();
        // The index is read as a set of places, not of squares.
        let combo_bb = Bitboard::from(combo_idx);
        let mut i: usize = 0;
        proof {
            assert(subset@ =~= selection(bb.members().take(0), combo_idx));
        }
        while i < squares.len()
            invariant
                i <= squares.len(),
                squares@.len() < 64,
                squares@.map_values(|sqr: Square| sqr@) == bb.members(),
                combo_bb.bits() == combo_idx,
                subset@ == selection(bb.members().take(i as int), combo_idx),
            decreases squares.len() - i,
        {
            proof {
                lemma_selection_grows(bb.members(), combo_idx, i as int);
                assert(bb.members()[i as int] == squares@[i as int]@);
            }
            if combo_bb.contains(Square::new(i as u8)) {
                subset.insert(squares[i]);
            }
            i = i + 1;
        }
        proof {
            assert(bb.members().take(i as int) =~= bb.members());
        }
        combinations.push(subset);
        combo_idx = combo_idx + 1;
    }
    combinations
}

/// The enumeration leaves no subset out: every subset of a bitboard is
/// selected by some index below two to the number of its members.
pub proof fn lemma_selection_exhaustive(bb: Bitboard, subset: Set<int>)
    requires
        bb@.len() < 64,
        subset.subset_of(bb@),
    ensures
        exists|index: u64|
            index < pow2(bb@.len()) && #[trigger] selection(bb.members(), index) == subset,
{
    let members = bb.members();
    bb.lemma_members();
    let index = word_where(|i: int| subset.contains(members[i]), members.len() as int);
    lemma_word_where(|i: int| subset.contains(members[i]), members.len() as int);
    assert forall|square: int| subset.contains(square) implies selection(
        members,
        index,
    ).contains(square) by {
        assert(bb@.contains(square));
        assert(has_bit(bb.bits(), square));
        let i = choose|i: int| 0 <= i < members.len() && members[i] == square;
        assert(has_bit(index, i));
    }
    assert(selection(members, index) =~= subset);
}

/// The enumeration repeats no subset: two different indices below two to
/// the number of members select different subsets.
pub proof fn lemma_selection_distinct(bb: Bitboard, first: u64, second: u64)
    requires
        bb@.len() < 64,
        first < pow2(bb@.len()),
        second < pow2(bb@.len()),
        first != second,
    ensures
        selection(bb.members(), first) != selection(bb.members(), second),
{
    let members = bb.members();
    bb.lemma_members();
    if forall|place: int| has_bit(first, place) == has_bit(second, place) {
        assert(squares_of(first) =~= squares_of(second));
        lemma_squares_of_injective(first, second);
    }
    let place = choose|place: int| has_bit(first, place) != has_bit(second, place);
    if place >= bb@.len() {
        lemma_small_word(first, bb@.len(), place);
        lemma_small_word(second, bb@.len(), place);
    }
    let (with, without) = if has_bit(first, place) {
        (first, second)
    } else {
        (second, first)
    };
    assert(selection(members, with).contains(members[place]));
    if selection(members, without).contains(members[place]) {
        let other = choose|other: int|
            0 <= other < members.len() && has_bit(without, other) && #[trigger] members[other]
                == members[place];
        assert(other == place);
    }
}

/// Whatever an index selects is a subset of the bitboard.
pub proof fn lemma_selection_within(bb: Bitboard, index: u64)
    ensures
        selection(bb.members(), index).subset_of(bb@),
{
    bb.lemma_members();
}

/// How many pairs of a blocker pattern and its answer two lists hold: a
/// pattern or an answer without a partner is not counted.
pub open spec fn pair_count(blockers: Seq<Bitboard>, moves: Seq<Bitboard>) -> int {
    if blockers.len() <= moves.len() {
        blockers.len() as int
    } else {
        moves.len() as int
    }
}

/// The slot that the pattern at place `i` hashes to.
pub open spec fn slot_of(blockers: Seq<Bitboard>, magic: u64, shift: u8, i: int) -> int {
    hash_index(blockers[i].bits(), magic, shift)
}

/// True when no two patterns with different answers hash to one slot.
pub open spec fn collision_free(
    magic: u64,
    shift: u8,
    blockers: Seq<Bitboard>,
    moves: Seq<Bitboard>,
) -> bool {
    forall|i: int, j: int|
        0 <= i < j < pair_count(blockers, moves) && #[trigger] slot_of(blockers, magic, shift, i)
            == #[trigger] slot_of(blockers, magic, shift, j) ==> moves[i] == moves[j]
}

/// True when some pattern hashes to `slot`.
pub open spec fn is_hit(
    slot: int,
    magic: u64,
    shift: u8,
    blockers: Seq<Bitboard>,
    moves: Seq<Bitboard>,
) -> bool {
    exists|i: int|
        0 <= i < pair_count(blockers, moves) && #[trigger] slot_of(blockers, magic, shift, i)
            == slot
}

/// True when `table` is what the pairs fill: each pattern's slot holds
/// its answer, and a slot that no pattern hashes to is empty.
pub open spec fn fills(
    table: Seq<Bitboard>,
    magic: u64,
    shift: u8,
    blockers: Seq<Bitboard>,
    moves: Seq<Bitboard>,
) -> bool {
    &&& table.len() == TABLE_SIZE
    &&& forall|i: int|
        0 <= i < pair_count(blockers, moves) ==> table[#[trigger] slot_of(
            blockers,
            magic,
            shift,
            i,
        )] == moves[i]
    &&& forall|slot: int|
        0 <= slot < TABLE_SIZE && !is_hit(slot, magic, shift, blockers, moves)
            ==> #[trigger] table[slot] == Bitboard::new()
}

/// True when the filter lets `candidate` through: its product with the
/// mask has enough bits of the top byte set. With an empty mask, whose
/// product is zero whatever the candidate, every candidate is let through.
pub open spec fn passes_filter(candidate: u64, mask: Bitboard) -> bool {
    mask@.len() == 0 || high_bits(candidate, mask.bits()) >= MIN_HIGH_BITS
}

/// True when `candidate` serves as the magic for `mask` and the pairs:
/// the mask is small enough for the table, the candidate passes the
/// filter, and no two patterns collide harmfully.
pub open spec fn accepted(
    candidate: u64,
    mask: Bitboard,
    blockers: Seq<Bitboard>,
    moves: Seq<Bitboard>,
) -> bool {
    &&& mask@.len() <= MAX_MASK_SQUARES
    &&& passes_filter(candidate, mask)
    &&& collision_free(candidate, (64 - mask@.len()) as u8, blockers, moves)
}

/// Hashes every pattern into the work table and tells whether that went
/// without a harmful collision.
///
/// A slot counts as filled in this attempt when its stamp is `attempt`,
/// so the slots need no clearing between attempts.
fn place_pairs(
    magic: u64,
    shift: u8,
    blockers: &[Bitboard],
    moves: &[Bitboard],
    work: &mut Vec<Bitboard>,
    stamps: &mut Vec<u64>,
    attempt: u64,
) -> (placed: bool)
    requires
        52 <= shift,
        old(work).len() == TABLE_SIZE,
        old(stamps).len() == TABLE_SIZE,
        forall|slot: int| 0 <= slot < TABLE_SIZE ==> old(stamps)[slot] < attempt,
    ensures
        final(work).len() == TABLE_SIZE,
        final(stamps).len() == TABLE_SIZE,
        forall|slot: int| 0 <= slot < TABLE_SIZE ==> final(stamps)[slot] <= attempt,
        placed == collision_free(magic, shift, blockers@, moves@),
        placed ==> forall|i: int|
            0 <= i < pair_count(blockers@, moves@) ==> {
                let slot = #[trigger] slot_of(blockers@, magic, shift, i);
                final(stamps)[slot] == attempt && final(work)[slot] == moves[i]
            },
        placed ==> forall|slot: int|
            0 <= slot < TABLE_SIZE && final(stamps)[slot] == attempt ==> is_hit(
                slot,
                magic,
                shift,
                blockers@,
                moves@,
            ),
{
    let count = if blockers.len() <= moves.len() {
        blockers.len()
    } else {
        moves.len()
    };
    let mut i: usize = 0;
    while i < count
        invariant
            52 <= shift,
            i <= count == pair_count(blockers@, moves@),
            work.len() == TABLE_SIZE,
            stamps.len() == TABLE_SIZE,
            forall|slot: int| 0 <= slot < TABLE_SIZE ==> stamps[slot] <= attempt,
            forall|j: int|
                0 <= j < i ==> {
                    let slot = #[trigger] slot_of(blockers@, magic, shift, j);
                    stamps[slot] == attempt && work[slot] == moves[j]
                },
            forall|slot: int|
                0 <= slot < TABLE_SIZE && stamps[slot] == attempt ==> exists|j: int|
                    0 <= j < i && #[trigger] slot_of(blockers@, magic, shift, j) == slot,
        decreases count - i,
    {
        let idx = magic_hash(blockers[i], magic, shift) as usize;
        proof {
            lemma_hash_index_bound(blockers[i as int].bits(), magic, shift);
            assert(idx == slot_of(blockers@, magic, shift, i as int));
        }
        if stamps[idx] != attempt {
            stamps.set(idx, attempt);
            work.set(idx, moves[i]);
            proof {
                assert forall|j: int| 0 <= j < i + 1 implies {
                    let slot = #[trigger] slot_of(blockers@, magic, shift, j);
                    stamps[slot] == attempt && work[slot] == moves[j]
                } by {
                    lemma_hash_index_bound(blockers[j].bits(), magic, shift);
                }
                assert forall|slot: int|
                    0 <= slot < TABLE_SIZE && stamps[slot] == attempt implies exists|j: int|
                    0 <= j < i + 1 && #[trigger] slot_of(blockers@, magic, shift, j) == slot by {
                    if slot == idx {
                        assert(slot_of(blockers@, magic, shift, i as int) == slot);
                    } else {
                        let j = choose|j: int|
                            0 <= j < i && #[trigger] slot_of(blockers@, magic, shift, j) == slot;
                        assert(slot_of(blockers@, magic, shift, j) == slot);
                    }
                }
            }
        } else if work[idx] == moves[i] {
            // Two patterns with the same answer in one slot do no harm.
        } else {
            proof {
                let j = choose|j: int|
                    0 <= j < i && #[trigger] slot_of(blockers@, magic, shift, j) == idx;
                assert(slot_of(blockers@, magic, shift, j) == slot_of(
                    blockers@,
                    magic,
                    shift,
                    i as int,
                ));
                assert(moves[j] != moves[i as int]);
            }
            return false;
        }
        i = i + 1;
    }
    proof {
        assert forall|slot: int|
            0 <= slot < TABLE_SIZE && stamps[slot] == attempt implies is_hit(
            slot,
            magic,
            shift,
            blockers@,
            moves@,
        ) by {
            let j = choose|j: int|
                0 <= j < i && #[trigger] slot_of(blockers@, magic, shift, j) == slot;
            assert(slot_of(blockers@, magic, shift, j) == slot);
        }
    }
    true
}

/// The table as the attempt leaves it: what was placed in this attempt,
/// and the empty bitboard in every other slot.
fn harvest(work: &Vec<Bitboard>, stamps: &Vec<u64>, attempt: u64) -> (table: Vec<Bitboard>)
    requires
        work.len() == TABLE_SIZE,
        stamps.len() == TABLE_SIZE,
    ensures
        table.len() == TABLE_SIZE,
        forall|slot: int|
            0 <= slot < TABLE_SIZE ==> #[trigger] table[slot] == if stamps[slot] == attempt {
                work[slot]
            } else {
                Bitboard::new()
            },
{
    let mut table: Vec<Bitboard> = Vec::with_capacity(TABLE_SIZE);
    let mut slot: usize = 0;
    while slot < TABLE_SIZE
        invariant
            slot <= TABLE_SIZE,
            work.len() == TABLE_SIZE,
            stamps.len() == TABLE_SIZE,
            table.len() == slot,
            forall|s: int|
                0 <= s < slot ==> #[trigger] table[s] == if stamps[s] == attempt {
                    work[s]
                } else {
                    Bitboard::new()
                },
        decreases TABLE_SIZE - slot,
    {
        if stamps[slot] == attempt {
            table.push(work[slot]);
        } else {
            table.push(Bitboard::new());
        }
        slot = slot + 1;
    }
    table
}

impl SquareMagic {
    /// True when this is the magic that `candidate` gives for `mask` and
    /// the pairs.
    pub open spec fn built_from(
        self,
        candidate: u64,
        mask: Bitboard,
        blockers: Seq<Bitboard>,
        moves: Seq<Bitboard>,
    ) -> bool {
        &&& self.wf()
        &&& self.mask() == mask
        &&& self.magic_num() == candidate
        &&& fills(self.table(), candidate, self.shift(), blockers, moves)
    }
}

/// Puts `candidate` to the test with work tables that earlier attempts
/// have used, and builds the magic where it passes.
fn attempt_candidate(
    candidate: u64,
    mask: Bitboard,
    blockers: &[Bitboard],
    moves: &[Bitboard],
    work: &mut Vec<Bitboard>,
    stamps: &mut Vec<u64>,
    attempt: u64,
) -> (found: Option<SquareMagic>)
    requires
        mask@.len() <= MAX_MASK_SQUARES,
        old(work).len() == TABLE_SIZE,
        old(stamps).len() == TABLE_SIZE,
        forall|slot: int| 0 <= slot < TABLE_SIZE ==> old(stamps)[slot] < attempt,
    ensures
        final(work).len() == TABLE_SIZE,
        final(stamps).len() == TABLE_SIZE,
        forall|slot: int| 0 <= slot < TABLE_SIZE ==> final(stamps)[slot] <= attempt,
        found is Some <==> accepted(candidate, mask, blockers@, moves@),
        match found {
            Some(magic) => magic.built_from(candidate, mask, blockers@, moves@),
            None => true,
        },
{
    let shift = 64 - mask.len();
    // The product of an empty mask is zero, and any multiplier serves it.
    if !mask.is_empty() && !magic_pushes_up(candidate, mask) {
        return None;
    }
    if !place_pairs(candidate, shift, blockers, moves, work, stamps, attempt) {
        return None;
    }
    let table = harvest(work, stamps, attempt);
    proof {
        assert forall|i: int| 0 <= i < pair_count(blockers@, moves@) implies table[#[trigger] slot_of(
            blockers@,
            candidate,
            shift,
            i,
        )] == moves[i] by {
            lemma_hash_index_bound(blockers[i].bits(), candidate, shift);
        }
    }
    Some(SquareMagic { table, mask, magic_num: candidate, shift })
}

/// Tells whether `candidate` serves as the magic for `mask` and the
/// pairs of `blockers` and `moves`, and builds the magic where it does.
///
/// The table is filled from empty: each pattern's answer goes to the
/// pattern's slot. Two patterns may share a slot only where they share
/// the answer; any other collision rejects the candidate.
pub fn try_candidate(candidate: u64, mask: Bitboard, blockers: &[Bitboard], moves: &[Bitboard]) -> (found:
    Option<SquareMagic>)
    ensures
        found is Some <==> accepted(candidate, mask, blockers@, moves@),
        match found {
            Some(magic) => magic.built_from(candidate, mask, blockers@, moves@),
            None => true,
        },
{
    if mask.len() > MAX_MASK_SQUARES {
        return None;
    }
    let mut work = vec![Bitboard::new(); TABLE_SIZE];
    let mut stamps = vec![0u64; TABLE_SIZE];
    attempt_candidate(candidate, mask, blockers, moves, &mut work, &mut stamps, 1)
}

/// Searches for a magic for `mask` and the pairs of `possible_blockers`
/// and `possible_moves`, trying at most `max_attempts` candidates.
///
/// Each candidate is the conjunction of three random words, which makes
/// for few set bits. The first candidate that [`try_candidate`] would
/// accept gives the result. The search gives up only after it has drawn
/// `max_attempts` candidates and rejected them all.
pub fn gen_square_magic(
    mask: Bitboard,
    possible_blockers: &[Bitboard],
    possible_moves: &[Bitboard],
    max_attempts: u64,
) -> (result: Result<SquareMagic, MagicError>)
    ensures
        match result {
            Ok(magic) => max_attempts > 0 && accepted(
                magic.magic_num(),
                mask,
                possible_blockers@,
                possible_moves@,
            ) && magic.built_from(magic.magic_num(), mask, possible_blockers@, possible_moves@),
            Err(MagicError::MaskTooLarge) => mask@.len() > MAX_MASK_SQUARES,
            Err(MagicError::Exhausted) => mask@.len() <= MAX_MASK_SQUARES && (max_attempts == 0
                || exists|candidate: u64|
                !#[trigger] accepted(candidate, mask, possible_blockers@, possible_moves@)),
        },
{
    if mask.len() > MAX_MASK_SQUARES {
        return Err(MagicError::MaskTooLarge);
    }
    let mut work = vec![Bitboard::new(); TABLE_SIZE];
    let mut stamps = vec![0u64; TABLE_SIZE];
    let mut attempt: u64 = 0;
    let ghost mut rejected: u64 = 0;
    while attempt < max_attempts
        invariant
            mask@.len() <= MAX_MASK_SQUARES,
            attempt <= max_attempts,
            work.len() == TABLE_SIZE,
            stamps.len() == TABLE_SIZE,
            forall|slot: int| 0 <= slot < TABLE_SIZE ==> stamps[slot] <= attempt,
            attempt > 0 ==> !accepted(rejected, mask, possible_blockers@, possible_moves@),
        decreases max_attempts - attempt,
    {
        attempt = attempt + 1;
        let magic_guess = random_word() & random_word() & random_word();
        if let Some(magic) = attempt_candidate(
            magic_guess,
            mask,
            possible_blockers,
            possible_moves,
            &mut work,
            &mut stamps,
            attempt,
        ) {
            return Ok(magic);
        }
        proof {
            rejected = magic_guess;
        }
    }
    Err(MagicError::Exhausted)
}

/// The squares that are not on the outer ring of the board.
pub open spec fn inner_squares() -> Set<int> {
    Set::new(|index: int| 0 <= index < 64 && 1 <= index / 8 <= 6 && 1 <= index % 8 <= 6)
}

/// The relevant mask of a slider on `origin`: the squares of its rays on
/// an empty board, without those on the outer ring.
pub open spec fn relevant_mask(slider: Slider, origin: int) -> Set<int> {
    slider_attacks(slider, origin, Set::empty()) * inner_squares()
}

/// The twelve squares, at most, that the relevant mask of a slider on
/// `origin` is drawn from: one for each inner file on each of the
/// slider's two lines.
spec fn mask_bounds(slider: Slider, origin: int) -> Set<int> {
    let rank = origin / 8;
    let file = origin % 8;
    match slider {
        Slider::Rook => set![
            rank * 8 + 1,
            rank * 8 + 2,
            rank * 8 + 3,
            rank * 8 + 4,
            rank * 8 + 5,
            rank * 8 + 6,
            8 + file,
            16 + file,
            24 + file,
            32 + file,
            40 + file,
            48 + file,
        ],
        Slider::Bishop => set![
            (rank + 1 - file) * 8 + 1,
            (rank + 2 - file) * 8 + 2,
            (rank + 3 - file) * 8 + 3,
            (rank + 4 - file) * 8 + 4,
            (rank + 5 - file) * 8 + 5,
            (rank + 6 - file) * 8 + 6,
            (rank - 1 + file) * 8 + 1,
            (rank - 2 + file) * 8 + 2,
            (rank - 3 + file) * 8 + 3,
            (rank - 4 + file) * 8 + 4,
            (rank - 5 + file) * 8 + 5,
            (rank - 6 + file) * 8 + 6,
        ],
    }
}

/// No relevant mask holds more squares than a table has room for.
pub proof fn lemma_relevant_mask_size(slider: Slider, origin: int)
    requires
        0 <= origin < 64,
    ensures
        relevant_mask(slider, origin).finite(),
        relevant_mask(slider, origin).len() <= MAX_MASK_SQUARES,
{
    let mask = relevant_mask(slider, origin);
    let bounds = mask_bounds(slider, origin);
    let nothing = Set::<int>::empty();
    assert forall|target: int| mask.contains(target) implies bounds.contains(target) by {
        let direction = match slider {
            Slider::Rook => if ray(origin, Direction::Up, nothing).contains(target) {
                Direction::Up
            } else if ray(origin, Direction::Right, nothing).contains(target) {
                Direction::Right
            } else if ray(origin, Direction::Down, nothing).contains(target) {
                Direction::Down
            } else {
                Direction::Left
            },
            Slider::Bishop => if ray(origin, Direction::UpRight, nothing).contains(target) {
                Direction::UpRight
            } else if ray(origin, Direction::DownRight, nothing).contains(target) {
                Direction::DownRight
            } else if ray(origin, Direction::DownLeft, nothing).contains(target) {
                Direction::DownLeft
            } else {
                Direction::UpLeft
            },
        };
        lemma_ray_squares(origin, direction, nothing, target);
        assert(inner_squares().contains(target));
    }
    assert(bounds.finite() && bounds.len() <= 12);
    lemma_len_subset(mask, bounds);
}

impl SquareMagic {
    /// True when this magic answers for a slider of the given kind on
    /// `origin`: its mask is the relevant mask, and every lookup gives
    /// the squares that the slider attacks when only the blockers inside
    /// the mask are taken into account.
    pub open spec fn serves(self, slider: Slider, origin: int) -> bool {
        &&& self.wf()
        &&& self.mask()@ == relevant_mask(slider, origin)
        &&& forall|blockers: Bitboard|
            (#[trigger] self.answer(blockers))@ == slider_attacks(
                slider,
                origin,
                blockers@ * relevant_mask(slider, origin),
            )
    }
}

impl SquareMagic {
    /// Blockers outside the mask never change an answer: two sets of
    /// blockers that agree inside the mask get the same one.
    pub proof fn lemma_answer_reads_mask(self, first: Bitboard, second: Bitboard)
        requires
            first@ * self.mask()@ == second@ * self.mask()@,
        ensures
            self.answer(first) == self.answer(second),
    {
        first.lemma_operation_views(self.mask());
        second.lemma_operation_views(self.mask());
        first.intersection(self.mask()).lemma_view_injective(second.intersection(self.mask()));
    }

    /// For blockers that all lie inside the relevant mask, the table gives
    /// exactly what walking the rays gives.
    pub proof fn lemma_answer_is_ray_cast(self, slider: Slider, origin: int, blockers: Bitboard)
        requires
            self.serves(slider, origin),
            blockers@.subset_of(relevant_mask(slider, origin)),
        ensures
            self.answer(blockers)@ == slider_attacks(slider, origin, blockers@),
    {
        assert(blockers@ * relevant_mask(slider, origin) =~= blockers@);
    }
}

/// A magic built for all the subsets of its mask answers a lookup with
/// the answer that was paired with the subset of the blockers that lies
/// in the mask.
pub proof fn lemma_lookup_finds_subset(
    magic: SquareMagic,
    combinations: Seq<Bitboard>,
    moves: Seq<Bitboard>,
    blockers: Bitboard,
)
    requires
        magic.built_from(magic.magic_num(), magic.mask(), combinations, moves),
        combinations.len() == pow2(magic.mask()@.len()),
        moves.len() == combinations.len(),
        forall|index: int|
            0 <= index < combinations.len() ==> (#[trigger] combinations[index])@ == selection(
                magic.mask().members(),
                index as u64,
            ),
    ensures
        exists|index: int|
            0 <= index < combinations.len() && (#[trigger] combinations[index])@ == blockers@
                * magic.mask()@ && magic.answer(blockers) == moves[index],
{
    let mask = magic.mask();
    let key = blockers.intersection(mask);
    blockers.lemma_operation_views(mask);
    lemma_selection_exhaustive(mask, key@);
    let picked = choose|picked: u64|
        picked < pow2(mask@.len()) && #[trigger] selection(mask.members(), picked) == key@;
    let index = picked as int;
    assert(combinations[index]@ == key@);
    combinations[index].lemma_view_injective(key);
    assert(slot_of(combinations, magic.magic_num(), magic.shift(), index) == magic.slot(blockers));
}

/// Searches for the magic of a slider of the given kind on `sqr`.
///
/// The patterns are all the subsets of the relevant mask, and the answer
/// to each is found by walking the rays. The search can fail only by
/// running out of attempts, and not at all where the mask is empty.
pub fn gen_magic_for_sqr(slider: Slider, sqr: Square) -> (result: Result<SquareMagic, MagicError>)
    ensures
        match result {
            Ok(magic) => magic.serves(slider, sqr@),
            Err(error) => error == MagicError::Exhausted && relevant_mask(slider, sqr@).len() > 0,
        },
{
    let mask = slider_move_board_slow(slider, sqr, Bitboard::new()) & Bitboard::from(
        Rank::new(0),
    ).invert() & Bitboard::from(Rank::new(7)).invert() & Bitboard::from(File::new(0)).invert()
        & Bitboard::from(File::new(7)).invert();
    proof {
        use_type_invariant(sqr);
        assert(mask@ =~= relevant_mask(slider, sqr@));
        lemma_relevant_mask_size(slider, sqr@);
    }
    let combinations = bitboard_combinations(mask);
    let mut moves: Vec<Bitboard> = Vec::new();
    let mut i: usize = 0;
    while i < combinations.len()
        invariant
            i <= combinations.len(),
            moves.len() == i,
            forall|j: int|
                0 <= j < i ==> (#[trigger] moves[j])@ == slider_attacks(
                    slider,
                    sqr@,
                    combinations[j]@,
                ),
        decreases combinations.len() - i,
    {
        moves.push(slider_move_board_slow(slider, sqr, combinations[i]));
        i = i + 1;
    }
    let result = gen_square_magic(mask, combinations.as_slice(), moves.as_slice(), MAX_ATTEMPTS);
    proof {
        if mask@.len() == 0 {
            lemma2_to64();
            assert forall|candidate: u64| #[trigger]
                accepted(candidate, mask, combinations@, moves@) by {}
        }
        if result is Ok {
            let magic = result->Ok_0;
            assert forall|blockers: Bitboard|
                (#[trigger] magic.answer(blockers))@ == slider_attacks(
                    slider,
                    sqr@,
                    blockers@ * relevant_mask(slider, sqr@),
                ) by {
                lemma_lookup_finds_subset(magic, combinations@, moves@, blockers);
            }
        }
    }
    result
}

/// Searches for the magic of a bishop on `sqr`.
pub fn gen_bishop_magic_for_sqr(sqr: Square) -> (result: Result<SquareMagic, MagicError>)
    ensures
        match result {
            Ok(magic) => magic.serves(Slider::Bishop, sqr@),
            Err(error) => error == MagicError::Exhausted && relevant_mask(Slider::Bishop, sqr@).len()
                > 0,
        },
{
    gen_magic_for_sqr(Slider::Bishop, sqr)
}

/// Searches for the magic of a rook on `sqr`.
pub fn gen_rook_magic_for_sqr(sqr: Square) -> (result: Result<SquareMagic, MagicError>)
    ensures
        match result {
            Ok(magic) => magic.serves(Slider::Rook, sqr@),
            Err(error) => error == MagicError::Exhausted && relevant_mask(Slider::Rook, sqr@).len()
                > 0,
        },
{
    gen_magic_for_sqr(Slider::Rook, sqr)
}

/// A buffer that collects the magics of the 64 squares in place.
///
/// It holds a `smallvec::SmallVec` with room for 64 magics, which keeps
/// its items in place until they outgrow that room and moves them to the
/// heap when they do.
#[verifier::external_body]
pub struct MagicBuffer {
    items: SmallVec<[SquareMagic; 64]>,
}

/// The magics that a buffer holds, in the order in which they were pushed.
pub uninterp spec fn held(buffer: MagicBuffer) -> Seq<SquareMagic>;

/// True once a buffer has moved its items to the heap.
pub uninterp spec fn spilled(buffer: MagicBuffer) -> bool;

/// An empty buffer.
///
/// Calls `SmallVec::new`, which makes an empty vector that has not
/// spilled.
#[verifier::external_body]
fn buffer_new() -> (buffer: MagicBuffer)
    ensures
        held(buffer) == Seq::<SquareMagic>::empty(),
        !spilled(buffer),
{
    MagicBuffer { items: SmallVec::new() }
}

/// Appends `magic` to `buffer`.
///
/// Calls `SmallVec::push`, which adds the item at the end; a vector that
/// has not spilled does so exactly when it is full, with 64 items, before
/// the push.
#[verifier::external_body]
fn buffer_push(buffer: &mut MagicBuffer, magic: SquareMagic)
    ensures
        held(*final(buffer)) == held(*old(buffer)).push(magic),
        spilled(*final(buffer)) == (spilled(*old(buffer)) || held(*old(buffer)).len() >= 64),
{
    buffer.items.push(magic)
}

/// The items of `buffer` as an array, if they fill one.
///
/// Calls `SmallVec::into_inner`, which hands out the array in place where
/// the vector has not spilled and holds exactly 64 items, and refuses
/// otherwise.
#[verifier::external_body]
fn buffer_into_array(buffer: MagicBuffer) -> (items: Option<[SquareMagic; 64]>)
    ensures
        items is Some <==> (!spilled(buffer) && held(buffer).len() == 64),
        items is Some ==> items.unwrap()@ == held(buffer),
{
    buffer.items.into_inner().ok()
}

/// The magics of a slider of the given kind for all 64 squares, in the
/// order of the squares.
fn create_sqr_array(slider: Slider) -> (result: Result<[SquareMagic; 64], MagicError>)
    ensures
        match result {
            Ok(magics) => forall|origin: int|
                0 <= origin < 64 ==> (#[trigger] magics[origin]).serves(slider, origin),
            Err(error) => error == MagicError::Exhausted,
        },
{
    let mut buffer = buffer_new();
    let mut i: u8 = 0;
    while i < 64
        invariant
            i <= 64,
            !spilled(buffer),
            held(buffer).len() == i,
            forall|origin: int|
                0 <= origin < i ==> (#[trigger] held(buffer)[origin]).serves(slider, origin),
        decreases 64 - i,
    {
        match gen_magic_for_sqr(slider, Square::new(i)) {
            Ok(magic) => {
                buffer_push(&mut buffer, magic);
            },
            Err(error) => {
                return Err(error);
            },
        }
        i = i + 1;
    }
    let array = buffer_into_array(buffer);
    Ok(array.unwrap())
}

/// The bishop's magic for every square.
pub fn gen_bishop_magics() -> (result: Result<[SquareMagic; 64], MagicError>)
    ensures
        match result {
            Ok(magics) => forall|origin: int|
                0 <= origin < 64 ==> (#[trigger] magics[origin]).serves(Slider::Bishop, origin),
            Err(error) => error == MagicError::Exhausted,
        },
{
    create_sqr_array(Slider::Bishop)
}

/// The rook's magic for every square.
pub fn gen_rook_magics() -> (result: Result<[SquareMagic; 64], MagicError>)
    ensures
        match result {
            Ok(magics) => forall|origin: int|
                0 <= origin < 64 ==> (#[trigger] magics[origin]).serves(Slider::Rook, origin),
            Err(error) => error == MagicError::Exhausted,
        },
{
    create_sqr_array(Slider::Rook)
}

} // verus!
