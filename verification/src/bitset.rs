//! The used-value bitset of one pass over a board, and the rank queries on
//! the symbols that it does not hold yet.
//!
//! A bitset is a `u32`; bit `k` set means that symbol `k` has been placed.
//! Its mathematical model is the set of those `k`, and every contract here
//! is stated over that set.

use vstd::prelude::*;
use vstd::set_lib::*;
use vstd::std_specs::bits::*;

verus! {

/// Whether bit `k` of `used` is set.
pub open spec fn bit_is_set(used: u32, k: u32) -> bool {
    (used >> k) & 1 == 1
}

/// The set of symbols that a bitset holds: the view of a bitset.
pub open spec fn symbols(used: u32) -> Set<int> {
    Set::new(|k: int| 0 <= k < 32 && bit_is_set(used, k as u32))
}

/// How many members of `s` are in `0..v`.
pub open spec fn count_below(s: Set<int>, v: int) -> nat {
    s.filter(|k: int| 0 <= k < v).len()
}

/// How many symbols of `0..v` are not in `s`.
pub open spec fn free_below(s: Set<int>, v: int) -> int {
    v - count_below(s, v)
}

/// How many of the sixteen symbols are not in `s`.
pub open spec fn free_count(s: Set<int>) -> int {
    free_below(s, 16)
}

/// `v` is the symbol that is not in `s` and has exactly `n` symbols
/// below it that are not in `s` either: the `n`-th free symbol, counted
/// from 0.
pub open spec fn is_nth_free(s: Set<int>, n: int, v: int) -> bool {
    &&& 0 <= v < 16
    &&& !s.contains(v)
    &&& free_below(s, v) == n
}

/// The `n`-th free symbol of `s`, counted from 0, where there is one.
pub open spec fn nth_free(s: Set<int>, n: int) -> int {
    choose|v: int| is_nth_free(s, n, v)
}

/// The members of `s` below `v` are finitely many, at most `v`.
pub proof fn lemma_count_bound(s: Set<int>, v: int)
    ensures
        s.filter(|k: int| 0 <= k < v).finite(),
        v <= 0 ==> count_below(s, v) == 0,
        v >= 0 ==> count_below(s, v) <= v,
{
    let part = s.filter(|k: int| 0 <= k < v);
    if v <= 0 {
        assert(part =~= Set::<int>::empty());
    } else {
        lemma_int_range(0, v);
        lemma_len_subset(part, set_int_range(0, v));
    }
}

/// The empty set has no members to count.
pub proof fn lemma_count_empty(v: int)
    ensures
        count_below(Set::<int>::empty(), v) == 0,
{
    assert(Set::<int>::empty().filter(|k: int| 0 <= k < v) =~= Set::<int>::empty());
}

/// Counting one symbol further adds one exactly when that symbol is a member.
pub proof fn lemma_count_step(s: Set<int>, v: int)
    requires
        0 <= v,
    ensures
        count_below(s, v + 1) == count_below(s, v) + (if s.contains(v) { 1nat } else { 0nat }),
{
    let lo = s.filter(|k: int| 0 <= k < v);
    let hi = s.filter(|k: int| 0 <= k < v + 1);
    lemma_count_bound(s, v);
    if s.contains(v) {
        assert(hi =~= lo.insert(v));
    } else {
        assert(hi =~= lo);
    }
}

/// Between `a` and `b` the count grows by at least nothing and at most `b - a`.
pub proof fn lemma_count_span(s: Set<int>, a: int, b: int)
    requires
        0 <= a <= b,
    ensures
        count_below(s, a) <= count_below(s, b) <= count_below(s, a) + (b - a),
    decreases b - a,
{
    if a < b {
        lemma_count_span(s, a, b - 1);
        lemma_count_step(s, b - 1);
    }
}

/// Two sets with the same members in `a..b` count the same between `a` and `b`.
pub proof fn lemma_count_agree(s: Set<int>, t: Set<int>, a: int, b: int)
    requires
        0 <= a <= b,
        forall|k: int| a <= k < b ==> s.contains(k) == t.contains(k),
    ensures
        count_below(s, b) - count_below(s, a) == count_below(t, b) - count_below(t, a),
    decreases b - a,
{
    if a < b {
        lemma_count_agree(s, t, a, b - 1);
        lemma_count_step(s, b - 1);
        lemma_count_step(t, b - 1);
    }
}

/// Across a run of symbols that are all free the count does not move.
pub proof fn lemma_count_free_run(s: Set<int>, a: int, b: int)
    requires
        0 <= a <= b,
        forall|k: int| a <= k < b ==> !s.contains(k),
    ensures
        count_below(s, b) == count_below(s, a),
    decreases b - a,
{
    if a < b {
        lemma_count_free_run(s, a, b - 1);
        lemma_count_step(s, b - 1);
    }
}

/// Across a run of symbols that are all members the count grows with the run.
pub proof fn lemma_count_full_run(s: Set<int>, a: int, b: int)
    requires
        0 <= a <= b,
        forall|k: int| a <= k < b ==> s.contains(k),
    ensures
        count_below(s, b) == count_below(s, a) + (b - a),
    decreases b - a,
{
    if a < b {
        lemma_count_full_run(s, a, b - 1);
        lemma_count_step(s, b - 1);
    }
}

/// A new member below `v` raises the count below `v` by one; any other
/// leaves it.
pub proof fn lemma_count_insert(s: Set<int>, x: int, v: int)
    requires
        !s.contains(x),
    ensures
        count_below(s.insert(x), v) == count_below(s, v) + (if 0 <= x < v { 1nat } else { 0nat }),
{
    let before = s.filter(|k: int| 0 <= k < v);
    let after = s.insert(x).filter(|k: int| 0 <= k < v);
    lemma_count_bound(s, v);
    if 0 <= x < v {
        assert(after =~= before.insert(x));
    } else {
        assert(after =~= before);
    }
}

/// The number of free symbols below `v` never falls as `v` grows, and it
/// grows by one past a free symbol.
pub proof fn lemma_free_below_grows(s: Set<int>, a: int, b: int)
    requires
        0 <= a <= b,
    ensures
        free_below(s, a) <= free_below(s, b),
        a < b && !s.contains(a) ==> free_below(s, a) < free_below(s, b),
{
    lemma_count_span(s, a, b);
    if a < b {
        lemma_count_step(s, a);
        lemma_count_span(s, a + 1, b);
    }
}

/// There is at most one `n`-th free symbol.
pub proof fn lemma_nth_free_unique(s: Set<int>, n: int, v: int, w: int)
    requires
        is_nth_free(s, n, v),
        is_nth_free(s, n, w),
    ensures
        v == w,
{
    if v < w {
        lemma_free_below_grows(s, v, w);
    } else if w < v {
        lemma_free_below_grows(s, w, v);
    }
}

/// The search behind `lemma_nth_free_exists`: from `v` upwards.
proof fn lemma_nth_free_from(s: Set<int>, n: int, v: int)
    requires
        0 <= v <= 16,
        free_below(s, v) <= n < free_count(s),
    ensures
        exists|w: int| is_nth_free(s, n, w),
    decreases 16 - v,
{
    if v < 16 {
        lemma_count_step(s, v);
        if !s.contains(v) && free_below(s, v) == n {
            assert(is_nth_free(s, n, v));
        } else {
            lemma_nth_free_from(s, n, v + 1);
        }
    }
}

/// Where fewer than `free_count` free symbols are asked to be passed over,
/// the `n`-th free symbol exists, and `nth_free` names it.
pub proof fn lemma_nth_free_exists(s: Set<int>, n: int)
    requires
        0 <= n < free_count(s),
    ensures
        is_nth_free(s, n, nth_free(s, n)),
{
    lemma_count_bound(s, 0);
    lemma_nth_free_from(s, n, 0);
}

/// The lowest free symbol has only members below it.
pub proof fn lemma_lowest_free(s: Set<int>, lo: int)
    requires
        is_nth_free(s, 0, lo),
    ensures
        count_below(s, lo) == lo,
        forall|k: int| 0 <= k < lo ==> s.contains(k),
{
    assert forall|k: int| 0 <= k < lo implies s.contains(k) by {
        if !s.contains(k) {
            lemma_count_bound(s, k);
            lemma_free_below_grows(s, k, lo);
        }
    }
}

/// `u32::count_ones` of std returns the number of bits that are set in `x`,
/// which is the number of symbols that `x` holds as a bitset. This is what
/// std's documentation says of the method; it is taken on trust, not proved.
pub assume_specification[ u32::count_ones ](x: u32) -> (n: u32)
    ensures
        n == count_below(symbols(x), 32),
;

proof fn lemma_bits_low_mask(x: u32, i: u32, k: u32)
    by (bit_vector)
    requires
        i < 32,
        k < 32,
    ensures
        (1u32 << i) >= 1,
        bit_is_set(x & (((1u32 << i) - 1) as u32), k) == (bit_is_set(x, k) && k < i),
        bit_is_set(!(((1u32 << i) - 1) as u32) & x, k) == (bit_is_set(x, k) && k >= i),
{
}

proof fn lemma_bits_one(x: u32, p: u32, k: u32)
    by (bit_vector)
    requires
        p < 32,
        k < 32,
    ensures
        bit_is_set(x | (1u32 << p), k) == (bit_is_set(x, k) || k == p),
        bit_is_set(x & !(1u32 << p), k) == (bit_is_set(x, k) && k != p),
        (x & (1u32 << p) == 0) == !bit_is_set(x, p),
        !bit_is_set(0u32, k),
{
}

proof fn lemma_bits_trailing_ones(x: u32, t: u32, k: u32)
    by (bit_vector)
    requires
        x < 0xffff_ffffu32,
        t < 32,
        k < 32,
        (((x + 1) as u32) >> t) & 1 == 1,
        ((x + 1) as u32) << ((32 - t) as u32) == 0,
    ensures
        !bit_is_set(x, t),
        k < t ==> bit_is_set(x, k),
{
}

proof fn lemma_bits_all_set(k: u32)
    by (bit_vector)
    requires
        k < 32,
    ensures
        bit_is_set(0xffff_ffffu32, k),
{
}

/// The bitset with one more bit set holds one more symbol.
pub proof fn lemma_symbols_set(used: u32, p: u32)
    requires
        p < 32,
    ensures
        symbols(used | (1u32 << p)) == symbols(used).insert(p as int),
        (used & (1u32 << p) == 0) == !symbols(used).contains(p as int),
{
    lemma_bits_one(used, p, p);
    assert forall|k: int| symbols(used | (1u32 << p)).contains(k) == symbols(used).insert(
        p as int,
    ).contains(k) by {
        if 0 <= k < 32 {
            lemma_bits_one(used, p, k as u32);
        }
    }
    assert(symbols(used | (1u32 << p)) =~= symbols(used).insert(p as int));
}

/// The empty bitset holds no symbol.
pub proof fn lemma_symbols_none()
    ensures
        symbols(0) == Set::<int>::empty(),
{
    assert forall|k: int| !symbols(0).contains(k) by {
        if 0 <= k < 32 {
            lemma_bits_one(0, 0, k as u32);
        }
    }
    assert(symbols(0) =~= Set::<int>::empty());
}

/// Counts the symbols below `i` that the bitset `val_used` holds.
pub fn num_previous_vals_used(i: u32, val_used: u32) -> (count: i8)
    ensures
        count == count_below(symbols(val_used), i as int),
{
    if i < 32 {
        proof {
            lemma_bits_low_mask(val_used, i, 0);
        }
        let below: u32 = val_used & ((1u32 << i) - 1u32);
        proof {
            let kept = symbols(below).filter(|k: int| 0 <= k < 32);
            let wanted = symbols(val_used).filter(|k: int| 0 <= k < i as int);
            assert forall|k: int| kept.contains(k) == wanted.contains(k) by {
                if 0 <= k < 32 {
                    lemma_bits_low_mask(val_used, i, k as u32);
                }
            }
            assert(kept =~= wanted);
            lemma_count_bound(symbols(val_used), i as int);
        }
        below.count_ones() as i8
    } else {
        proof {
            let kept = symbols(val_used).filter(|k: int| 0 <= k < 32);
            let wanted = symbols(val_used).filter(|k: int| 0 <= k < i as int);
            assert(kept =~= wanted);
            lemma_count_bound(symbols(val_used), 32);
        }
        val_used.count_ones() as i8
    }
}

/// Finds the free symbol that has `previous + n` free symbols below it, in
/// a bitset that holds no symbol below `previous`. It passes over one run of
/// free symbols and the placed symbol that ends it at a time, and takes the
/// length of each run from what is left to find.
fn _get_nth_unused_val(n: i8, val_used: u32, previous: i8) -> (val: i8)
    requires
        0 <= previous,
        0 <= n,
        previous + n < free_count(symbols(val_used)),
        forall|k: int| 0 <= k < previous ==> !symbols(val_used).contains(k),
    ensures
        is_nth_free(symbols(val_used), previous + n, val as int),
        previous <= val,
{
    let ghost s = symbols(val_used);
    let mut remaining: i8 = n;
    let mut base: i8 = previous;
    let mut rest: u32 = val_used;
    proof {
        lemma_count_free_run(s, 0, previous as int);
        lemma_count_bound(s, 0);
        lemma_count_bound(s, 16);
    }
    loop
        invariant
            s == symbols(val_used),
            0 <= previous <= base < 16,
            0 <= remaining <= n < 16,
            previous + n < free_count(s),
            free_below(s, base as int) + remaining == previous + n,
            forall|k: int| 0 <= k < base ==> !symbols(rest).contains(k),
            forall|k: int| base <= k < 32 ==> symbols(rest).contains(k) == s.contains(k),
        decreases 16 - base,
    {
        let next: i8 = rest.trailing_zeros() as i8;
        proof {
            axiom_u32_trailing_zeros(rest);
            if next < 32 {
                assert(symbols(rest).contains(next as int));
            }
            assert forall|k: int| base <= k < next implies !s.contains(k) by {
                assert(!bit_is_set(rest, k as u32));
                assert(!symbols(rest).contains(k));
            }
        }
        let run: i8 = next - base;
        if remaining < run {
            let val: i8 = base + remaining;
            proof {
                lemma_count_free_run(s, base as int, val as int);
                if val >= 16 {
                    lemma_free_below_grows(s, 16, val as int);
                }
            }
            return val;
        }
        proof {
            lemma_count_free_run(s, base as int, next as int);
            lemma_count_step(s, next as int);
            if next >= 16 {
                lemma_free_below_grows(s, 16, next as int);
            }
            lemma_free_below_grows(s, next + 1, 16);
            let cleared: u32 = rest & !(1u32 << (next as u32));
            assert forall|k: int| 0 <= k < next + 1 implies !symbols(cleared).contains(k) by {
                lemma_bits_one(rest, next as u32, k as u32);
                assert(!bit_is_set(rest, k as u32) || k == next);
            }
            assert forall|k: int| next + 1 <= k < 32 implies symbols(cleared).contains(k)
                == s.contains(k) by {
                lemma_bits_one(rest, next as u32, k as u32);
            }
        }
        remaining = remaining - run;
        rest = rest & !(1u32 << (next as u32));
        base = next + 1;
    }
}

/// Finds the `n`-th symbol, counted from 0 and from the lowest upwards,
/// that the bitset `val_used` does not hold.
pub fn get_nth_unused_val(n: i8, val_used: u32) -> (val: i8)
    requires
        0 <= n < free_count(symbols(val_used)),
    ensures
        is_nth_free(symbols(val_used), n as int, val as int),
        val == nth_free(symbols(val_used), n as int),
{
    let ghost s = symbols(val_used);
    proof {
        if val_used == 0xffff_ffffu32 {
            assert forall|k: int| 0 <= k < 16 implies s.contains(k) by {
                lemma_bits_all_set(k as u32);
            }
            lemma_count_full_run(s, 0, 16);
            lemma_count_bound(s, 0);
        }
    }
    let lo: i8 = (val_used + 1).trailing_zeros() as i8;
    proof {
        axiom_u32_trailing_zeros((val_used + 1) as u32);
        assert forall|k: int| 0 <= k < lo implies s.contains(k) by {
            lemma_bits_trailing_ones(val_used, lo as u32, k as u32);
        }
        lemma_bits_trailing_ones(val_used, lo as u32, 0);
        lemma_count_bound(s, 0);
        if lo >= 16 {
            lemma_count_full_run(s, 0, 16);
        }
        lemma_count_full_run(s, 0, lo as int);
        lemma_bits_low_mask(val_used, lo as u32, 0);
    }
    let skipped: u32 = !((1u32 << lo) - 1u32) & val_used;
    proof {
        let t = symbols(skipped);
        assert forall|k: int| 0 <= k < 32 implies t.contains(k) == (s.contains(k) && k >= lo) by {
            lemma_bits_low_mask(val_used, lo as u32, k as u32);
        }
        lemma_count_bound(t, 0);
        lemma_count_free_run(t, 0, lo as int);
        lemma_count_agree(s, t, lo as int, 16);
    }
    let val: i8 = _get_nth_unused_val(n, skipped, lo);
    proof {
        lemma_count_agree(s, symbols(skipped), lo as int, val as int);
        lemma_nth_free_unique(s, n as int, val as int, nth_free(s, n as int));
    }
    val
}

} // verus!
