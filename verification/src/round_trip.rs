//! What packing and unpacking do to each other: on which boards unpacking
//! the packed word gives the board back, and how large the packed word is.

use crate::bitset::{
    free_count, is_nth_free, lemma_count_bound, lemma_count_free_run, lemma_count_full_run,
    lemma_count_span, lemma_count_step, lemma_free_below_grows, lemma_lowest_free,
    lemma_nth_free_exists, nth_free,
};
use crate::board::{
    decodes_to, fields_in_range, is_permutation, lemma_decoded_is_permutation,
    lemma_decoding_unique, lemma_placed_count, lemma_rank_bound, pack, packed_rank, placed,
    rank_at, unpack, START_BOARD,
};
use crate::layout::{
    field, field_bits, field_mask, field_shift, lemma_mask_is_width, lemma_shift_is_running_sum,
    HASH_LIMIT,
};
use vstd::prelude::*;

verus! {

/// Each field of the packed board holds the rank of its tile among the
/// symbols that are free at its position.
pub open spec fn reads_back(s: Seq<i8>) -> bool {
    forall|i: int| 0 <= i < 16 ==> #[trigger] field(pack(s, 16), i) == rank_at(s, i)
}

/// Wherever a tile is larger than a tile before it, every symbol below that
/// earlier tile has been placed by then: between the lowest free symbol and
/// the tile nothing is placed.
pub open spec fn gap_free(s: Seq<i8>) -> bool {
    forall|i: int, j: int, k: int|
        #![trigger placed(s, i).contains(k), s[j]]
        0 <= j < i < 16 && 0 <= k < s[j] < s[i] ==> placed(s, i).contains(k)
}

/// At every position the packing stores the rank of the tile.
pub open spec fn stores_ranks(s: Seq<i8>) -> bool {
    forall|i: int| 0 <= i < 16 ==> #[trigger] packed_rank(s, i) == rank_at(s, i)
}

/// The stored value of each of the first `n` positions fits its field.
pub open spec fn ranks_fit(s: Seq<i8>, n: int) -> bool {
    forall|j: int| 0 <= j < n ==> 0 <= #[trigger] packed_rank(s, j) <= field_mask(j)
}

proof fn lemma_word_ends()
    by (bit_vector)
    ensures
        1u64 << 0u64 == 1,
        1u64 << 49u64 == 0x2_0000_0000_0000u64,
{
}

proof fn lemma_place_field(p: u64, c: u64, sh: u64, w: u64, m: u64)
    by (bit_vector)
    requires
        sh + w <= 49,
        w <= 4,
        p < (1u64 << sh),
        (1u64 << w) == m + 1,
        c <= m,
    ensures
        (p | (c << sh)) < (1u64 << ((sh + w) as u64)),
        ((p | (c << sh)) >> sh) & m == c,
{
}

proof fn lemma_keep_field(p: u64, c: u64, sh: u64, lower: u64, w: u64, m: u64)
    by (bit_vector)
    requires
        sh <= 49,
        lower + w <= sh,
        w <= 4,
        (1u64 << w) == m + 1,
    ensures
        ((p | (c << sh)) >> lower) & m == (p >> lower) & m,
{
}

/// Where every stored value fits its field, the fields do not run into each
/// other: each can be read back, and the word ends where the last field ends.
pub proof fn lemma_pack_keeps_fields(s: Seq<i8>, n: int)
    requires
        0 <= n <= 16,
        ranks_fit(s, n),
    ensures
        pack(s, n) < (1u64 << (field_shift(n) as u64)),
        forall|j: int| 0 <= j < n ==> #[trigger] field(pack(s, n), j) == packed_rank(s, j),
    decreases n,
{
    lemma_word_ends();
    if n > 0 {
        lemma_pack_keeps_fields(s, n - 1);
        let p = pack(s, n - 1);
        let c = packed_rank(s, n - 1) as u64;
        let sh = field_shift(n - 1) as u64;
        let w = field_bits(n - 1) as u64;
        lemma_mask_is_width(n - 1);
        lemma_place_field(p, c, sh, w, field_mask(n - 1));
        lemma_shift_is_running_sum(n - 1);
        assert forall|j: int| 0 <= j < n implies #[trigger] field(pack(s, n), j) == packed_rank(
            s,
            j,
        ) by {
            if j < n - 1 {
                lemma_mask_is_width(j);
                lemma_keep_field(
                    p,
                    c,
                    sh,
                    field_shift(j) as u64,
                    field_bits(j) as u64,
                    field_mask(j),
                );
                assert(field(p, j) == packed_rank(s, j));
            }
        }
    }
}

/// On a board, the lowest free symbol of a position exists and is at most
/// the tile of that position, which is free too.
pub proof fn lemma_packed_rank_bound(s: Seq<i8>, i: int)
    requires
        is_permutation(s),
        0 <= i < 16,
    ensures
        is_nth_free(placed(s, i), 0, nth_free(placed(s, i), 0)),
        !placed(s, i).contains(s[i] as int),
        free_count(placed(s, i)) == 16 - i,
        rank_at(s, i) <= packed_rank(s, i) <= 15,
        0 <= rank_at(s, i) < 16 - i,
{
    let p = placed(s, i);
    lemma_placed_count(s, i);
    lemma_nth_free_exists(p, 0);
    let lo = nth_free(p, 0);
    lemma_lowest_free(p, lo);
    if p.contains(s[i] as int) {
        let j = choose|j: int| 0 <= j < i && j < s.len() && #[trigger] s[j] == s[i];
        assert(s[j] != s[i]);
    }
    lemma_rank_bound(s, i);
    lemma_count_span(p, lo, s[i] as int);
}

/// On a gap-free board the value stored for a position is the rank of its
/// tile, and fits the field of the position.
pub proof fn lemma_gap_free_ranks(s: Seq<i8>, i: int)
    requires
        is_permutation(s),
        gap_free(s),
        0 <= i < 16,
    ensures
        packed_rank(s, i) == rank_at(s, i),
        0 <= packed_rank(s, i) <= field_mask(i),
{
    let p = placed(s, i);
    let lo = nth_free(p, 0);
    lemma_packed_rank_bound(s, i);
    lemma_lowest_free(p, lo);
    assert forall|k: int| lo <= k < s[i] implies !p.contains(k) by {
        if p.contains(k) {
            let j = choose|j: int| 0 <= j < i && j < s.len() && #[trigger] s[j] == k;
            assert(placed(s, i).contains(lo));
        }
    }
    lemma_count_free_run(p, lo, s[i] as int);
}

/// The boards on which the packing stores the rank of every tile are the
/// gap-free boards, and no others.
pub proof fn lemma_gap_free_exact(s: Seq<i8>)
    requires
        is_permutation(s),
    ensures
        gap_free(s) <==> stores_ranks(s),
{
    if gap_free(s) {
        assert forall|i: int| 0 <= i < 16 implies #[trigger] packed_rank(s, i) == rank_at(
            s,
            i,
        ) by {
            lemma_gap_free_ranks(s, i);
        }
    }
    if stores_ranks(s) {
        assert forall|i: int, j: int, k: int|
            #![trigger placed(s, i).contains(k), s[j]]
            0 <= j < i < 16 && 0 <= k < s[j] < s[i] implies placed(s, i).contains(k) by {
            let p = placed(s, i);
            let lo = nth_free(p, 0);
            lemma_packed_rank_bound(s, i);
            lemma_lowest_free(p, lo);
            assert(packed_rank(s, i) == rank_at(s, i));
            assert(p.contains(s[j] as int));
            if s[j] >= lo {
                lemma_count_span(p, lo, s[j] as int);
                lemma_count_step(p, s[j] as int);
                lemma_count_span(p, s[j] + 1, s[i] as int);
            }
        }
    }
}

/// Packing a board and unpacking the word gives the board back, for every
/// board whose packed word holds in each field the rank of the tile.
pub proof fn lemma_round_trip(s: Seq<i8>)
    requires
        is_permutation(s),
        reads_back(s),
    ensures
        fields_in_range(pack(s, 16)),
        decodes_to(pack(s, 16), s),
        unpack(pack(s, 16)) == s,
{
    let h = pack(s, 16);
    assert forall|i: int| 0 <= i < 16 implies is_nth_free(
        placed(s, i),
        #[trigger] field(h, i),
        s[i] as int,
    ) by {
        lemma_packed_rank_bound(s, i);
    }
    lemma_decoding_unique(h, s, unpack(h));
    lemma_decoded_is_permutation(h, s);
}

/// On every other board the round trip fails: the packed word does not
/// unpack to the board.
pub proof fn lemma_round_trip_fails(s: Seq<i8>)
    requires
        is_permutation(s),
        !reads_back(s),
    ensures
        !decodes_to(pack(s, 16), s),
{
    let h = pack(s, 16);
    if decodes_to(h, s) {
        assert forall|i: int| 0 <= i < 16 implies #[trigger] field(h, i) == rank_at(s, i) by {
            assert(is_nth_free(placed(s, i), field(h, i), s[i] as int));
        }
    }
}

/// A gap-free board comes back from its packed word, and its packed word
/// ends with its last field, at bit 48.
pub proof fn lemma_gap_free_round_trip(s: Seq<i8>)
    requires
        is_permutation(s),
        gap_free(s),
    ensures
        reads_back(s),
        fields_in_range(pack(s, 16)),
        decodes_to(pack(s, 16), s),
        unpack(pack(s, 16)) == s,
        pack(s, 16) < 0x2_0000_0000_0000 < HASH_LIMIT,
{
    assert forall|j: int| 0 <= j < 16 implies 0 <= #[trigger] packed_rank(s, j) <= field_mask(
        j,
    ) by {
        lemma_gap_free_ranks(s, j);
    }
    lemma_pack_keeps_fields(s, 16);
    lemma_word_ends();
    assert forall|i: int| 0 <= i < 16 implies #[trigger] field(pack(s, 16), i) == rank_at(
        s,
        i,
    ) by {
        lemma_gap_free_ranks(s, i);
    }
    lemma_round_trip(s);
}

proof fn lemma_fields_determine(a: u64, b: u64)
    by (bit_vector)
    requires
        a < 0x2_0000_0000_0000u64,
        b < 0x2_0000_0000_0000u64,
        (a >> 0u64) & 15 == (b >> 0u64) & 15,
        (a >> 4u64) & 15 == (b >> 4u64) & 15,
        (a >> 8u64) & 15 == (b >> 8u64) & 15,
        (a >> 12u64) & 15 == (b >> 12u64) & 15,
        (a >> 16u64) & 15 == (b >> 16u64) & 15,
        (a >> 20u64) & 15 == (b >> 20u64) & 15,
        (a >> 24u64) & 15 == (b >> 24u64) & 15,
        (a >> 28u64) & 15 == (b >> 28u64) & 15,
        (a >> 32u64) & 7 == (b >> 32u64) & 7,
        (a >> 35u64) & 7 == (b >> 35u64) & 7,
        (a >> 38u64) & 7 == (b >> 38u64) & 7,
        (a >> 41u64) & 7 == (b >> 41u64) & 7,
        (a >> 44u64) & 3 == (b >> 44u64) & 3,
        (a >> 46u64) & 3 == (b >> 46u64) & 3,
        (a >> 48u64) & 1 == (b >> 48u64) & 1,
    ensures
        a == b,
{
}

/// A word that ends with its last field and unpacks to a gap-free board is
/// the word that this board packs to.
pub proof fn lemma_unpack_pack(h: u64, s: Seq<i8>)
    requires
        h < 0x2_0000_0000_0000,
        decodes_to(h, s),
        gap_free(s),
    ensures
        pack(s, 16) == h,
{
    lemma_decoded_is_permutation(h, s);
    lemma_gap_free_round_trip(s);
    let packed = pack(s, 16);
    assert forall|i: int| 0 <= i < 16 implies field(packed, i) == field(h, i) by {
        assert(is_nth_free(placed(s, i), field(h, i), s[i] as int));
        assert(field(packed, i) == rank_at(s, i));
    }
    assert(field(packed, 0) == field(h, 0));
    assert(field(packed, 1) == field(h, 1));
    assert(field(packed, 2) == field(h, 2));
    assert(field(packed, 3) == field(h, 3));
    assert(field(packed, 4) == field(h, 4));
    assert(field(packed, 5) == field(h, 5));
    assert(field(packed, 6) == field(h, 6));
    assert(field(packed, 7) == field(h, 7));
    assert(field(packed, 8) == field(h, 8));
    assert(field(packed, 9) == field(h, 9));
    assert(field(packed, 10) == field(h, 10));
    assert(field(packed, 11) == field(h, 11));
    assert(field(packed, 12) == field(h, 12));
    assert(field(packed, 13) == field(h, 13));
    assert(field(packed, 14) == field(h, 14));
    lemma_fields_determine(packed, h);
}

proof fn lemma_or_under_limit(p: u64, c: u64, sh: u64)
    by (bit_vector)
    requires
        p < 0x4_0000_0000_0000u64,
        c <= 15,
        sh <= 46,
    ensures
        (p | (c << sh)) < 0x4_0000_0000_0000u64,
{
}

proof fn lemma_last_fields(p: u64, c: u64)
    by (bit_vector)
    requires
        p < 0x4_0000_0000_0000u64,
        c <= 15,
    ensures
        (((p | (c << 48u64)) | (0u64 << 49u64)) < 0x4_0000_0000_0000u64) == (c < 4),
{
}

/// Whatever the board, its first fourteen stored values stay below the limit.
proof fn lemma_pack_under_limit(s: Seq<i8>, n: int)
    requires
        is_permutation(s),
        0 <= n <= 14,
    ensures
        pack(s, n) < HASH_LIMIT,
    decreases n,
{
    if n > 0 {
        lemma_pack_under_limit(s, n - 1);
        lemma_packed_rank_bound(s, n - 1);
        lemma_or_under_limit(
            pack(s, n - 1),
            packed_rank(s, n - 1) as u64,
            field_shift(n - 1) as u64,
        );
    }
}

/// Each free symbol adds one to the number of free symbols.
proof fn lemma_free_symbols(p: Set<int>, x: int, y: int, z: int)
    requires
        0 <= x < 16 && !p.contains(x),
        0 <= y < 16 && !p.contains(y),
        0 <= z < 16 && !p.contains(z),
    ensures
        x != y ==> free_count(p) >= 2,
        x != y && x != z && y != z ==> free_count(p) >= 3,
{
    lemma_count_bound(p, x);
    lemma_count_bound(p, y);
    lemma_count_bound(p, z);
    lemma_free_below_grows(p, x, 16);
    lemma_free_below_grows(p, y, 16);
    lemma_free_below_grows(p, z, 16);
    if x < y {
        lemma_free_below_grows(p, x, y);
    }
    if y < x {
        lemma_free_below_grows(p, y, x);
    }
    if x < z {
        lemma_free_below_grows(p, x, z);
    }
    if z < x {
        lemma_free_below_grows(p, z, x);
    }
    if y < z {
        lemma_free_below_grows(p, y, z);
    }
    if z < y {
        lemma_free_below_grows(p, z, y);
    }
}

/// At the last two positions the stored values depend on the last two tiles
/// alone: nothing for the last, and for the one before it how far it lies
/// above the last, if it does.
pub proof fn lemma_last_ranks(s: Seq<i8>)
    requires
        is_permutation(s),
    ensures
        packed_rank(s, 15) == 0,
        packed_rank(s, 14) == if s[14] > s[15] { s[14] - s[15] } else { 0 },
{
    lemma_packed_rank_bound(s, 15);
    let last = placed(s, 15);
    lemma_free_symbols(last, nth_free(last, 0), s[15] as int, s[15] as int);

    lemma_packed_rank_bound(s, 14);
    let p = placed(s, 14);
    let lo = nth_free(p, 0);
    if p.contains(s[15] as int) {
        let j = choose|j: int| 0 <= j < 14 && j < s.len() && #[trigger] s[j] == s[15];
        assert(s[j] != s[15]);
    }
    lemma_free_symbols(p, lo, s[14] as int, s[15] as int);
    lemma_lowest_free(p, lo);
}

/// The packed word of a board is below `HASH_LIMIT`, for every board whose
/// tile before the last is less than four above the last tile.
pub proof fn lemma_pack_range(s: Seq<i8>)
    requires
        is_permutation(s),
        s[14] < s[15] + 4,
    ensures
        pack(s, 16) < HASH_LIMIT,
{
    lemma_pack_last_fields(s);
}

/// On every other board the packed word reaches `HASH_LIMIT`.
pub proof fn lemma_pack_range_fails(s: Seq<i8>)
    requires
        is_permutation(s),
        s[14] >= s[15] + 4,
    ensures
        pack(s, 16) >= HASH_LIMIT,
{
    lemma_pack_last_fields(s);
}

/// Whether the packed word is below the limit lies with the last two tiles.
pub proof fn lemma_pack_last_fields(s: Seq<i8>)
    requires
        is_permutation(s),
    ensures
        pack(s, 16) < HASH_LIMIT <==> s[14] < s[15] + 4,
{
    lemma_pack_under_limit(s, 14);
    lemma_last_ranks(s);
    lemma_packed_rank_bound(s, 14);
    lemma_last_fields(pack(s, 14), packed_rank(s, 14) as u64);
    assert(pack(s, 16) == pack(s, 15) | ((packed_rank(s, 15) as u64) << (field_shift(15) as u64)));
    assert(pack(s, 15) == pack(s, 14) | ((packed_rank(s, 14) as u64) << (field_shift(14) as u64)));
}

proof fn lemma_or_nothing(sh: u64)
    by (bit_vector)
    ensures
        0u64 | (0u64 << sh) == 0,
{
}

/// On the start board every tile is the lowest free symbol of its position,
/// and nothing is stored for it.
proof fn lemma_start_packs_to_zero(n: int)
    requires
        0 <= n <= 16,
    ensures
        pack(START_BOARD@, n) == 0,
    decreases n,
{
    if n > 0 {
        lemma_start_packs_to_zero(n - 1);
        lemma_start_is_gap_free();
        lemma_gap_free_ranks(START_BOARD@, n - 1);
        let p = placed(START_BOARD@, n - 1);
        assert forall|k: int| 0 <= k < n - 1 implies p.contains(k) by {
            assert(START_BOARD@[k] == k);
        }
        lemma_count_bound(p, 0);
        lemma_count_full_run(p, 0, n - 1);
        lemma_or_nothing(field_shift(n - 1) as u64);
    }
}

/// The start board is a gap-free board.
pub proof fn lemma_start_is_gap_free()
    ensures
        is_permutation(START_BOARD@),
        gap_free(START_BOARD@),
{
    let s = START_BOARD@;
    assert forall|i: int| 0 <= i < 16 implies s[i] == i by {}
    assert forall|i: int, j: int, k: int|
        #![trigger placed(s, i).contains(k), s[j]]
        0 <= j < i < 16 && 0 <= k < s[j] < s[i] implies placed(s, i).contains(k) by {
        assert(s[k] == k);
    }
}

/// The start board and the word 0 are the two forms of one board.
pub proof fn lemma_start_board()
    ensures
        pack(START_BOARD@, 16) == 0,
        decodes_to(0, START_BOARD@),
        unpack(0) == START_BOARD@,
{
    lemma_start_is_gap_free();
    lemma_start_packs_to_zero(16);
    lemma_gap_free_round_trip(START_BOARD@);
}

} // verus!
