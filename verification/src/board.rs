//! The board in its two forms, an array of sixteen tiles and a packed word,
//! and the two conversions between them.

use crate::bitset::{
    count_below, free_below, free_count, get_nth_unused_val, is_nth_free, lemma_count_bound,
    lemma_count_empty, lemma_count_insert, lemma_free_below_grows, lemma_lowest_free,
    lemma_nth_free_unique, lemma_symbols_none, lemma_symbols_set, nth_free,
    num_previous_vals_used, symbols,
};
use crate::layout::{field, field_shift, shift, width_mask, HASH_LIMIT};
use crate::round_trip::{lemma_pack_last_fields, lemma_start_board, lemma_start_is_gap_free};
use vstd::prelude::*;

verus! {

/// A board packed into a word. The fields lie in bits 0 to 48; the field of
/// the last position has no width.
pub type BoardHash = u64;

/// A board as the tiles at its sixteen positions.
pub type BoardArray = [i8; 16];

/// The board on which every tile is at its own position.
pub const START_BOARD: BoardArray = [0, 1, 2, 3, 4, 5, 6, 7, 8, 9, 10, 11, 12, 13, 14, 15];

/// Why a conversion was refused.
#[derive(Debug, Copy, Clone, PartialEq, Eq, Structural)]
pub enum BoardError {
    /// The array holds a value outside `0..16`, or holds a value twice.
    InvalidPermutation,
    /// A field of the word asks for a later free symbol than there is.
    InvalidHash,
}

/// The forms in which a board is held.
#[derive(Debug, Copy, Clone)]
pub enum SomeBoard {
    /// Both forms of one board.
    Complete { bh: BoardHash, ba: BoardArray },
}

/// A board of the puzzle.
#[derive(Debug)]
pub struct Board {
    pub myboard: SomeBoard,
}

/// Every symbol of `0..16` is on the board exactly once.
pub open spec fn is_permutation(s: Seq<i8>) -> bool {
    &&& s.len() == 16
    &&& forall|i: int| 0 <= i < 16 ==> 0 <= #[trigger] s[i] < 16
    &&& forall|i: int, j: int| 0 <= i < j < 16 ==> s[i] != s[j]
}

/// The symbols at the positions before `i`: what a pass over `s` has placed
/// when it reaches position `i`.
pub open spec fn placed(s: Seq<i8>, i: int) -> Set<int> {
    Set::new(|v: int| exists|j: int| 0 <= j < i && j < s.len() && #[trigger] s[j] == v)
}

/// The rank of the tile at position `i` among the symbols that are free when
/// the pass reaches it: how many free symbols are smaller.
pub open spec fn rank_at(s: Seq<i8>, i: int) -> int {
    free_below(placed(s, i), s[i] as int)
}

/// What the packing stores for position `i`: how far the tile lies above the
/// lowest symbol that is free when the pass reaches it.
pub open spec fn packed_rank(s: Seq<i8>, i: int) -> int {
    s[i] - nth_free(placed(s, i), 0)
}

/// The word that holds the stored values of the first `n` positions, each
/// shifted to the start of its field and joined to the rest by bitwise or.
pub open spec fn pack(s: Seq<i8>, n: int) -> u64
    decreases n,
{
    if n <= 0 {
        0
    } else {
        pack(s, n - 1) | ((packed_rank(s, n - 1) as u64) << (field_shift(n - 1) as u64))
    }
}

/// No field of `h` asks for more free symbols than its position has left.
pub open spec fn fields_in_range(h: u64) -> bool {
    forall|i: int| 0 <= i < 16 ==> #[trigger] field(h, i) < 16 - i
}

/// `s` is the board that `h` unpacks to: at each position stands the free
/// symbol that has as many free symbols below it as the field says.
pub open spec fn decodes_to(h: u64, s: Seq<i8>) -> bool {
    &&& s.len() == 16
    &&& forall|i: int| 0 <= i < 16 ==> is_nth_free(placed(s, i), #[trigger] field(h, i), s[i] as int)
}

/// Before the first position nothing is placed.
pub proof fn lemma_placed_none(s: Seq<i8>)
    ensures
        placed(s, 0) == Set::<int>::empty(),
{
    assert(placed(s, 0) =~= Set::<int>::empty());
}

/// One position further, the tile of that position is placed too.
pub proof fn lemma_placed_next(s: Seq<i8>, i: int)
    requires
        0 <= i < s.len(),
    ensures
        placed(s, i + 1) == placed(s, i).insert(s[i] as int),
{
    let wider = placed(s, i + 1);
    let grown = placed(s, i).insert(s[i] as int);
    assert forall|v: int| wider.contains(v) == grown.contains(v) by {
        if wider.contains(v) {
            let j = choose|j: int| 0 <= j < i + 1 && j < s.len() && #[trigger] s[j] == v;
            if j < i {
                assert(placed(s, i).contains(v));
            }
        }
        if placed(s, i).contains(v) {
            let j = choose|j: int| 0 <= j < i && j < s.len() && #[trigger] s[j] == v;
            assert(0 <= j < i + 1 && s[j] == v);
        }
        if v == s[i] {
            assert(0 <= i < i + 1 && s[i] == v);
        }
    }
    assert(wider =~= grown);
}

/// What is placed before position `i` depends on the tiles before `i` alone.
pub proof fn lemma_placed_prefix(s: Seq<i8>, t: Seq<i8>, i: int)
    requires
        i <= s.len(),
        i <= t.len(),
        forall|j: int| 0 <= j < i ==> s[j] == t[j],
    ensures
        placed(s, i) == placed(t, i),
{
    assert forall|v: int| placed(s, i).contains(v) == placed(t, i).contains(v) by {
        if placed(s, i).contains(v) {
            let j = choose|j: int| 0 <= j < i && j < s.len() && #[trigger] s[j] == v;
            assert(t[j] == v);
        }
        if placed(t, i).contains(v) {
            let j = choose|j: int| 0 <= j < i && j < t.len() && #[trigger] t[j] == v;
            assert(s[j] == v);
        }
    }
    assert(placed(s, i) =~= placed(t, i));
}

/// A board that a word unpacks to holds every symbol once.
pub proof fn lemma_decoded_is_permutation(h: u64, s: Seq<i8>)
    requires
        decodes_to(h, s),
    ensures
        is_permutation(s),
        fields_in_range(h),
{
    assert forall|i: int| 0 <= i < 16 implies 0 <= #[trigger] s[i] < 16 by {
        assert(is_nth_free(placed(s, i), field(h, i), s[i] as int));
    }
    assert forall|i: int, j: int| 0 <= i < j < 16 implies s[i] != s[j] by {
        assert(is_nth_free(placed(s, j), field(h, j), s[j] as int));
        if s[i] == s[j] {
            assert(placed(s, j).contains(s[i] as int));
        }
    }
    assert forall|i: int| 0 <= i < 16 implies #[trigger] field(h, i) < 16 - i by {
        assert(is_nth_free(placed(s, i), field(h, i), s[i] as int));
        lemma_rank_bound(s, i);
        lemma_placed_count(s, i);
    }
}

/// On a board without repeats, `i` symbols are placed before position `i`.
pub proof fn lemma_placed_count(s: Seq<i8>, i: int)
    requires
        0 <= i <= s.len(),
        forall|j: int| 0 <= j < i ==> 0 <= #[trigger] s[j] < 16,
        forall|j: int, k: int| 0 <= j < k < i ==> s[j] != s[k],
    ensures
        count_below(placed(s, i), 16) == i,
    decreases i,
{
    if i == 0 {
        lemma_placed_none(s);
        lemma_count_empty(16);
    } else {
        lemma_placed_count(s, i - 1);
        lemma_placed_next(s, i - 1);
        assert(!placed(s, i - 1).contains(s[i - 1] as int)) by {
            if placed(s, i - 1).contains(s[i - 1] as int) {
                let j = choose|j: int| 0 <= j < i - 1 && j < s.len() && #[trigger] s[j] == s[i - 1];
                assert(s[j] != s[i - 1]);
            }
        }
        lemma_count_insert(placed(s, i - 1), s[i - 1] as int, 16);
    }
}

/// The rank of a free tile is less than the number of free symbols.
pub proof fn lemma_rank_bound(s: Seq<i8>, i: int)
    requires
        0 <= i < 16 <= s.len(),
        0 <= s[i] < 16,
        !placed(s, i).contains(s[i] as int),
    ensures
        0 <= rank_at(s, i) < free_count(placed(s, i)),
{
    let p = placed(s, i);
    lemma_count_bound(p, s[i] as int);
    lemma_free_below_grows(p, s[i] as int, 16);
}

/// The board that `h` unpacks to, where there is one.
pub open spec fn unpack(h: u64) -> Seq<i8> {
    choose|s: Seq<i8>| decodes_to(h, s)
}

/// Two boards that one word unpacks to agree on their first `n` positions.
proof fn lemma_decoding_agrees(h: u64, s: Seq<i8>, t: Seq<i8>, n: int)
    requires
        decodes_to(h, s),
        decodes_to(h, t),
        0 <= n <= 16,
    ensures
        forall|j: int| 0 <= j < n ==> s[j] == t[j],
    decreases n,
{
    if n > 0 {
        lemma_decoding_agrees(h, s, t, n - 1);
        lemma_placed_prefix(s, t, n - 1);
        assert(is_nth_free(placed(s, n - 1), field(h, n - 1), s[n - 1] as int));
        assert(is_nth_free(placed(t, n - 1), field(h, n - 1), t[n - 1] as int));
        lemma_nth_free_unique(placed(s, n - 1), field(h, n - 1), s[n - 1] as int, t[n - 1] as int);
    }
}

/// A word unpacks to one board at most, and `unpack` names it.
pub proof fn lemma_decoding_unique(h: u64, s: Seq<i8>, t: Seq<i8>)
    requires
        decodes_to(h, s),
        t == unpack(h) || decodes_to(h, t),
    ensures
        s == t,
{
    lemma_decoding_agrees(h, s, t, 16);
    assert(s =~= t);
}

proof fn lemma_masked_fits(x: u64, m: u64)
    by (bit_vector)
    ensures
        x & m <= m,
{
}

impl Board {
    /// The two forms held are forms of one board: the array is a board, the
    /// word is what it packs to, and the word unpacks to it.
    pub open spec fn consistent(&self) -> bool {
        match self.myboard {
            SomeBoard::Complete { bh, ba } => {
                &&& is_permutation(ba@)
                &&& bh == pack(ba@, 16)
                &&& decodes_to(bh, ba@)
            },
        }
    }

    /// The start board in both forms: the word 0 and the array `START_BOARD`.
    pub fn start() -> (b: Board)
        ensures
            b.myboard == (SomeBoard::Complete { bh: 0, ba: START_BOARD }),
            b.consistent(),
    {
        proof {
            lemma_start_board();
            lemma_start_is_gap_free();
        }
        Board { myboard: SomeBoard::Complete { bh: 0, ba: START_BOARD } }
    }

    /// Unpacks a word into the board that it stands for, or refuses it where
    /// one of its fields asks for more free symbols than are left. Bits 49
    /// and above belong to no field and are not looked at.
    pub fn hash_to_array(bh: &BoardHash) -> (r: Result<BoardArray, BoardError>)
        ensures
            r is Ok <==> fields_in_range(*bh),
            r matches Ok(ba) ==> decodes_to(*bh, ba@) && ba@ == unpack(*bh) && is_permutation(ba@),
            r matches Err(e) ==> e == BoardError::InvalidHash,
    {
        let mut rv: BoardArray = [0;16];
        let mut val_used: u32 = 0;
        let mut i: usize = 0;
        proof {
            lemma_symbols_none();
            lemma_placed_none(rv@);
            lemma_count_empty(16);
        }
        while i < 16
            invariant
                0 <= i <= 16,
                symbols(val_used) == placed(rv@, i as int),
                count_below(symbols(val_used), 16) == i,
                forall|j: int| 0 <= j < i ==> #[trigger] field(*bh, j) < 16 - j,
                forall|j: int|
                    0 <= j < i ==> is_nth_free(
                        placed(rv@, j),
                        #[trigger] field(*bh, j),
                        rv@[j] as int,
                    ),
            decreases 16 - i,
        {
            let at: u64 = shift(i);
            let mask: u64 = width_mask(i);
            proof {
                lemma_masked_fits(*bh >> at, mask);
            }
            let hf: i8 = ((*bh >> at) & mask) as i8;
            assert(hf == field(*bh, i as int));
            if hf >= 16 - (i as i8) {
                return Err(BoardError::InvalidHash);
            }
            let code: i8 = get_nth_unused_val(hf, val_used);
            let ghost before = rv@;
            rv[i] = code;
            proof {
                lemma_symbols_set(val_used, code as u32);
                lemma_count_insert(symbols(val_used), code as int, 16);
                lemma_placed_prefix(before, rv@, i as int);
                lemma_placed_next(rv@, i as int);
                assert forall|j: int| 0 <= j < i + 1 implies is_nth_free(
                    placed(rv@, j),
                    #[trigger] field(*bh, j),
                    rv@[j] as int,
                ) by {
                    lemma_placed_prefix(before, rv@, j);
                }
            }
            val_used = val_used | (1u32 << (code as u32));
            i = i + 1;
        }
        proof {
            lemma_decoded_is_permutation(*bh, rv@);
            lemma_decoding_unique(*bh, rv@, unpack(*bh));
        }
        Ok(rv)
    }

    /// Packs a board into a word, or refuses an array that is no board. At
    /// each position it stores how far the tile lies above the lowest symbol
    /// that is still free, in the field of that position. The word stays
    /// below `HASH_LIMIT` unless the tile before the last is four or more
    /// above the last.
    pub fn array_to_hash(ba: &BoardArray) -> (r: Result<BoardHash, BoardError>)
        ensures
            r is Ok <==> is_permutation(ba@),
            r matches Ok(bh) ==> bh == pack(ba@, 16) && (bh < HASH_LIMIT <==> ba@[14] < ba@[15] + 4),
            r matches Err(e) ==> e == BoardError::InvalidPermutation,
    {
        let mut rv: BoardHash = 0;
        let mut val_used: u32 = 0;
        let mut i: usize = 0;
        proof {
            lemma_symbols_none();
            lemma_placed_none(ba@);
        }
        while i < 16
            invariant
                0 <= i <= 16,
                symbols(val_used) == placed(ba@, i as int),
                forall|j: int| 0 <= j < i ==> 0 <= #[trigger] ba@[j] < 16,
                forall|j: int, k: int| 0 <= j < k < i ==> ba@[j] != ba@[k],
                rv == pack(ba@, i as int),
            decreases 16 - i,
        {
            let tile: i8 = ba[i];
            if tile < 0 || tile > 15 {
                return Err(BoardError::InvalidPermutation);
            }
            proof {
                lemma_symbols_set(val_used, tile as u32);
            }
            if val_used & (1u32 << (tile as u32)) != 0 {
                proof {
                    let j = choose|j: int| 0 <= j < i && j < ba@.len() && #[trigger] ba@[j] == tile;
                    assert(ba@[j] == ba@[i as int]);
                }
                return Err(BoardError::InvalidPermutation);
            }
            proof {
                lemma_placed_count(ba@, i as int);
            }
            let lowest: i8 = get_nth_unused_val(0, val_used);
            let below: i8 = num_previous_vals_used(lowest as u32, val_used);
            proof {
                lemma_lowest_free(placed(ba@, i as int), lowest as int);
                assert(lowest <= tile);
            }
            let code: i8 = tile - below;
            let at: u64 = shift(i);
            assert(code == packed_rank(ba@, i as int));
            rv = rv | ((code as u64) << at);
            proof {
                lemma_placed_next(ba@, i as int);
                assert forall|j: int, k: int| 0 <= j < k < i + 1 implies ba@[j] != ba@[k] by {
                    if k == i && ba@[j] == ba@[k] {
                        assert(placed(ba@, i as int).contains(tile as int));
                    }
                }
            }
            val_used = val_used | (1u32 << (tile as u32));
            i = i + 1;
        }
        proof {
            lemma_pack_last_fields(ba@);
        }
        Ok(rv)
    }
}

} // verus!
