//! Where a tick belongs in the wheel: the arithmetic of levels and buckets.
//!
//! A wheel splits a tick into groups of `cutoff` bits. Level `l` looks at the
//! `l`-th group from the bottom. A tick lives at the lowest level above which
//! it agrees with the elapsed time.

use vstd::prelude::*;
use vstd::arithmetic::power2::{pow2, lemma_pow2_pos, lemma_pow2_adds, lemma_pow2_strictly_increases};
use vstd::bits::{
    low_bits_mask,
    lemma_u64_shr_is_div,
    lemma_u64_shl_is_mul,
    lemma_u64_low_bits_mask_is_mod,
};
use vstd::std_specs::bits::{u64_leading_zeros, axiom_u64_leading_zeros};
use vstd::arithmetic::div_mod::{
    lemma_div_denominator,
    lemma_fundamental_div_mod,
    lemma_div_is_ordered,
    lemma_mod_bound,
    lemma_div_pos_is_pos,
    lemma_basic_div,
};

verus! {

/// What remains of `tick` once every bit below `level` is dropped.
pub open spec fn prefix_at(tick: nat, cutoff: nat, level: nat) -> nat {
    tick / pow2(cutoff * level)
}

/// The bucket that `tick` selects at `level`: its `level`-th group of bits.
pub open spec fn index_at(tick: nat, cutoff: nat, level: nat) -> nat {
    prefix_at(tick, cutoff, level) % pow2(cutoff)
}

/// The level at which `tick` resides while the wheel stands at `elapsed`:
/// the lowest level above which the two agree, found by dropping one group
/// of bits after the other from both.
pub open spec fn level_of(tick: nat, elapsed: nat, cutoff: nat) -> nat
    decreases tick + elapsed,
{
    if cutoff == 0 || tick / pow2(cutoff) == elapsed / pow2(cutoff) {
        0
    } else {
        proof {
            lemma_halving_shrinks(tick, elapsed, cutoff);
        }
        1 + level_of(tick / pow2(cutoff), elapsed / pow2(cutoff), cutoff)
    }
}

/// The place in the delivery order of the bucket that holds `tick` while the
/// wheel stands at `elapsed`: levels first, buckets within a level second.
pub open spec fn rank_of(tick: nat, elapsed: nat, cutoff: nat) -> nat {
    let level = level_of(tick, elapsed, cutoff);
    level * pow2(cutoff) + index_at(tick, cutoff, level)
}

/// Dropping a non-empty group of bits from two numbers that differ above it
/// makes their sum smaller.
pub proof fn lemma_halving_shrinks(tick: nat, elapsed: nat, cutoff: nat)
    requires
        cutoff > 0,
        tick / pow2(cutoff) != elapsed / pow2(cutoff),
    ensures
        tick / pow2(cutoff) + elapsed / pow2(cutoff) < tick + elapsed,
{
    let w = pow2(cutoff);
    lemma_pow2_strictly_increases(0, cutoff);
    assert(pow2(0) == 1) by {
        vstd::arithmetic::power2::lemma2_to64();
    }
    assert(w >= 2);
    lemma_quotient_smaller(tick, w);
    lemma_quotient_smaller(elapsed, w);
}

/// Dividing by two or more makes a positive number smaller.
proof fn lemma_quotient_smaller(x: nat, w: nat)
    requires
        w >= 2,
    ensures
        x / w <= x,
        x > 0 ==> x / w < x,
{
    lemma_fundamental_div_mod(x as int, w as int);
    lemma_mod_bound(x as int, w as int);
    assert(x == w * (x / w) + x % w);
    let q = x / w;
    assert(q >= 0) by {
        lemma_div_pos_is_pos(x as int, w as int);
    }
    assert(w * q >= 2 * q) by (nonlinear_arith)
        requires
            w >= 2,
            q >= 0,
    ;
}

/// How the prefixes of one tick at neighbouring levels relate.
pub proof fn lemma_prefix_step(tick: nat, cutoff: nat, level: nat)
    ensures
        prefix_at(tick, cutoff, 0) == tick,
        prefix_at(tick, cutoff, level + 1) == prefix_at(tick, cutoff, level) / pow2(cutoff),
        prefix_at(tick / pow2(cutoff), cutoff, level) == prefix_at(tick, cutoff, level + 1),
        prefix_at(tick, cutoff, level) == prefix_at(tick, cutoff, level + 1) * pow2(cutoff)
            + index_at(tick, cutoff, level),
        index_at(tick, cutoff, level) < pow2(cutoff),
{
    let w = pow2(cutoff);
    let g = pow2(cutoff * level);
    lemma_pow2_pos(cutoff);
    lemma_pow2_pos(cutoff * level);
    assert(pow2(0) == 1) by {
        vstd::arithmetic::power2::lemma2_to64();
    }
    assert(cutoff * 0 == 0);
    assert(cutoff * (level + 1) == cutoff * level + cutoff) by (nonlinear_arith);
    lemma_pow2_adds(cutoff * level, cutoff);
    lemma_pow2_adds(cutoff, cutoff * level);
    lemma_div_denominator(tick as int, g as int, w as int);
    lemma_div_denominator(tick as int, w as int, g as int);
    let p = prefix_at(tick, cutoff, level);
    lemma_fundamental_div_mod(p as int, w as int);
    lemma_mod_bound(p as int, w as int);
    assert(w * (p / w) == (p / w) * w) by (nonlinear_arith);
}

/// A larger tick has no smaller prefix.
pub proof fn lemma_prefix_monotone(a: nat, b: nat, cutoff: nat, level: nat)
    requires
        a <= b,
    ensures
        prefix_at(a, cutoff, level) <= prefix_at(b, cutoff, level),
{
    lemma_pow2_pos(cutoff * level);
    lemma_div_is_ordered(a as int, b as int, pow2(cutoff * level) as int);
}

/// Ticks that agree from some level up agree from every higher level up.
pub proof fn lemma_prefix_agree_up(a: nat, b: nat, cutoff: nat, lo: nat, hi: nat)
    requires
        lo <= hi,
        prefix_at(a, cutoff, lo) == prefix_at(b, cutoff, lo),
    ensures
        prefix_at(a, cutoff, hi) == prefix_at(b, cutoff, hi),
    decreases hi - lo,
{
    if lo < hi {
        lemma_prefix_step(a, cutoff, lo);
        lemma_prefix_step(b, cutoff, lo);
        lemma_prefix_agree_up(a, b, cutoff, lo + 1, hi);
    }
}

/// A smaller prefix at some level carries over to every lower level, and to
/// the ticks themselves.
pub proof fn lemma_prefix_less_down(a: nat, b: nat, cutoff: nat, lo: nat, hi: nat)
    requires
        lo <= hi,
        prefix_at(a, cutoff, hi) < prefix_at(b, cutoff, hi),
    ensures
        prefix_at(a, cutoff, lo) < prefix_at(b, cutoff, lo),
        a < b,
{
    if a >= b {
        lemma_prefix_monotone(b, a, cutoff, hi);
    }
    if prefix_at(a, cutoff, lo) >= prefix_at(b, cutoff, lo) {
        let pa = prefix_at(a, cutoff, lo);
        let pb = prefix_at(b, cutoff, lo);
        lemma_shift_out(a, cutoff, lo, hi);
        lemma_shift_out(b, cutoff, lo, hi);
        lemma_prefix_monotone(pb, pa, cutoff, (hi - lo) as nat);
    }
}

/// Dropping `lo` groups and then `hi - lo` more drops `hi` groups.
proof fn lemma_shift_out(tick: nat, cutoff: nat, lo: nat, hi: nat)
    requires
        lo <= hi,
    ensures
        prefix_at(prefix_at(tick, cutoff, lo), cutoff, (hi - lo) as nat) == prefix_at(
            tick,
            cutoff,
            hi,
        ),
{
    let d = (hi - lo) as nat;
    lemma_pow2_pos(cutoff * lo);
    lemma_pow2_pos(cutoff * d);
    assert(cutoff * hi == cutoff * lo + cutoff * d) by (nonlinear_arith)
        requires
            hi == lo + d,
    ;
    lemma_pow2_adds(cutoff * lo, cutoff * d);
    lemma_div_denominator(tick as int, pow2(cutoff * lo) as int, pow2(cutoff * d) as int);
}

/// What `level_of` returns: the ticks agree above that level and, unless it
/// is the lowest level, differ at it.
pub proof fn lemma_level_of_is(tick: nat, elapsed: nat, cutoff: nat)
    requires
        cutoff > 0,
    ensures
        ({
            let level = level_of(tick, elapsed, cutoff);
            &&& prefix_at(tick, cutoff, level + 1) == prefix_at(elapsed, cutoff, level + 1)
            &&& level > 0 ==> prefix_at(tick, cutoff, level) != prefix_at(elapsed, cutoff, level)
        }),
    decreases tick + elapsed,
{
    let w = pow2(cutoff);
    lemma_prefix_step(tick, cutoff, 0);
    lemma_prefix_step(elapsed, cutoff, 0);
    if tick / w != elapsed / w {
        lemma_halving_shrinks(tick, elapsed, cutoff);
        lemma_level_of_is(tick / w, elapsed / w, cutoff);
        let below = level_of(tick / w, elapsed / w, cutoff);
        lemma_prefix_step(tick, cutoff, below);
        lemma_prefix_step(elapsed, cutoff, below);
        lemma_prefix_step(tick, cutoff, below + 1);
        lemma_prefix_step(elapsed, cutoff, below + 1);
    }
}

/// The level is the only one with the property that `lemma_level_of_is` gives.
pub proof fn lemma_level_of_unique(tick: nat, elapsed: nat, cutoff: nat, level: nat)
    requires
        cutoff > 0,
        prefix_at(tick, cutoff, level + 1) == prefix_at(elapsed, cutoff, level + 1),
        level > 0 ==> prefix_at(tick, cutoff, level) != prefix_at(elapsed, cutoff, level),
    ensures
        level_of(tick, elapsed, cutoff) == level,
    decreases level,
{
    let w = pow2(cutoff);
    lemma_prefix_step(tick, cutoff, 0);
    lemma_prefix_step(elapsed, cutoff, 0);
    if level > 0 {
        if tick / w == elapsed / w {
            lemma_prefix_agree_up(tick, elapsed, cutoff, 1, level);
        }
        let up = (level - 1) as nat;
        lemma_prefix_step(tick, cutoff, up);
        lemma_prefix_step(elapsed, cutoff, up);
        lemma_prefix_step(tick, cutoff, level);
        lemma_prefix_step(elapsed, cutoff, level);
        lemma_level_of_unique(tick / w, elapsed / w, cutoff, up);
    }
}

/// While two ticks agree above a level, their prefixes at that level compare
/// as their indices at it do.
pub proof fn lemma_index_decides(a: nat, b: nat, cutoff: nat, level: nat)
    requires
        prefix_at(a, cutoff, level + 1) == prefix_at(b, cutoff, level + 1),
    ensures
        prefix_at(a, cutoff, level) < prefix_at(b, cutoff, level) <==> index_at(a, cutoff, level)
            < index_at(b, cutoff, level),
        prefix_at(a, cutoff, level) == prefix_at(b, cutoff, level) <==> index_at(a, cutoff, level)
            == index_at(b, cutoff, level),
{
    lemma_prefix_step(a, cutoff, level);
    lemma_prefix_step(b, cutoff, level);
}

/// A tick that is not in the past sits, at its level, in no earlier bucket
/// than the elapsed time, and above the lowest level in a later one.
pub proof fn lemma_index_ahead(tick: nat, elapsed: nat, cutoff: nat)
    requires
        cutoff > 0,
        elapsed <= tick,
    ensures
        ({
            let level = level_of(tick, elapsed, cutoff);
            &&& index_at(tick, cutoff, level) >= index_at(elapsed, cutoff, level)
            &&& level > 0 ==> index_at(tick, cutoff, level) > index_at(elapsed, cutoff, level)
        }),
{
    let level = level_of(tick, elapsed, cutoff);
    lemma_level_of_is(tick, elapsed, cutoff);
    lemma_index_decides(tick, elapsed, cutoff, level);
    lemma_prefix_monotone(elapsed, tick, cutoff, level);
}

/// Ranks compare as pairs of level and index do.
pub proof fn lemma_rank_parts(la: nat, ia: nat, lb: nat, ib: nat, w: nat)
    requires
        ia < w,
        ib < w,
    ensures
        la * w + ia < lb * w + ib <==> la < lb || (la == lb && ia < ib),
        la * w + ia == lb * w + ib <==> la == lb && ia == ib,
{
    if la < lb {
        assert(la * w + w <= lb * w) by (nonlinear_arith)
            requires
                la < lb,
        ;
    } else if lb < la {
        assert(lb * w + w <= la * w) by (nonlinear_arith)
            requires
                lb < la,
        ;
    }
}

/// Of two ticks that are not in the past, the later one has no lower rank:
/// buckets come due in the order of their ranks.
pub proof fn lemma_rank_monotone(a: nat, b: nat, elapsed: nat, cutoff: nat)
    requires
        cutoff > 0,
        elapsed <= a <= b,
    ensures
        rank_of(a, elapsed, cutoff) <= rank_of(b, elapsed, cutoff),
{
    let la = level_of(a, elapsed, cutoff);
    let lb = level_of(b, elapsed, cutoff);
    lemma_level_of_is(a, elapsed, cutoff);
    lemma_level_of_is(b, elapsed, cutoff);
    lemma_prefix_step(a, cutoff, la);
    lemma_prefix_step(b, cutoff, lb);
    lemma_rank_parts(
        la,
        index_at(a, cutoff, la),
        lb,
        index_at(b, cutoff, lb),
        pow2(cutoff),
    );
    if la > lb {
        lemma_prefix_agree_up(b, elapsed, cutoff, lb + 1, la);
        lemma_prefix_monotone(elapsed, a, cutoff, la);
        lemma_prefix_less_down(b, a, cutoff, 0, la);
    } else if la == lb {
        lemma_prefix_monotone(a, b, cutoff, la);
        lemma_index_decides(b, a, cutoff, la);
    }
}

/// Advancing the wheel to `target` leaves a tick in its bucket when that
/// bucket ranks after the one that `target` selects; such a tick is later
/// than `target`.
pub proof fn lemma_level_kept(tick: nat, elapsed: nat, target: nat, cutoff: nat)
    requires
        cutoff > 0,
        elapsed <= tick,
        elapsed <= target,
        rank_of(tick, elapsed, cutoff) > rank_of(target, elapsed, cutoff),
    ensures
        level_of(tick, target, cutoff) == level_of(tick, elapsed, cutoff),
        tick > target,
{
    let level = level_of(tick, elapsed, cutoff);
    let top = level_of(target, elapsed, cutoff);
    if tick <= target {
        lemma_rank_monotone(tick, target, elapsed, cutoff);
    }
    lemma_level_of_is(tick, elapsed, cutoff);
    lemma_level_of_is(target, elapsed, cutoff);
    lemma_prefix_step(tick, cutoff, level);
    lemma_prefix_step(target, cutoff, top);
    lemma_rank_parts(
        top,
        index_at(target, cutoff, top),
        level,
        index_at(tick, cutoff, level),
        pow2(cutoff),
    );
    if level > top {
        lemma_prefix_agree_up(target, elapsed, cutoff, top + 1, level);
        lemma_prefix_agree_up(target, elapsed, cutoff, top + 1, level + 1);
    } else {
        lemma_index_decides(target, tick, cutoff, level);
    }
    lemma_level_of_unique(tick, target, cutoff, level);
}

/// Advancing the wheel to `target` moves a later tick out of the bucket that
/// `target` selects, to a lower level.
pub proof fn lemma_level_drops(tick: nat, elapsed: nat, target: nat, cutoff: nat)
    requires
        cutoff > 0,
        elapsed <= target < tick,
        rank_of(tick, elapsed, cutoff) == rank_of(target, elapsed, cutoff),
    ensures
        level_of(tick, target, cutoff) < level_of(target, elapsed, cutoff),
{
    let level = level_of(tick, elapsed, cutoff);
    let top = level_of(target, elapsed, cutoff);
    let now = level_of(tick, target, cutoff);
    lemma_level_of_is(tick, elapsed, cutoff);
    lemma_level_of_is(target, elapsed, cutoff);
    lemma_level_of_is(tick, target, cutoff);
    lemma_prefix_step(tick, cutoff, level);
    lemma_prefix_step(target, cutoff, top);
    lemma_rank_parts(
        top,
        index_at(target, cutoff, top),
        level,
        index_at(tick, cutoff, level),
        pow2(cutoff),
    );
    lemma_index_decides(tick, target, cutoff, top);
    lemma_prefix_step(tick, cutoff, 0);
    lemma_prefix_step(target, cutoff, 0);
    if now >= top {
        lemma_prefix_agree_up(tick, target, cutoff, top, now);
    }
}

/// Ticks within the range of a wheel of `levels` levels reside at one of them.
pub proof fn lemma_level_bound(tick: nat, elapsed: nat, cutoff: nat, levels: nat)
    requires
        cutoff > 0,
        levels > 0,
        tick < pow2(cutoff * levels),
        elapsed < pow2(cutoff * levels),
    ensures
        level_of(tick, elapsed, cutoff) < levels,
{
    let level = level_of(tick, elapsed, cutoff);
    lemma_basic_div(tick as int, pow2(cutoff * levels) as int);
    lemma_basic_div(elapsed as int, pow2(cutoff * levels) as int);
    lemma_level_of_is(tick, elapsed, cutoff);
    if level >= levels {
        lemma_prefix_agree_up(tick, elapsed, cutoff, levels, level);
    }
}

/// The earliest tick that the bucket `index` of `level` can hold while the
/// wheel stands at `elapsed`.
pub open spec fn bucket_start(elapsed: nat, cutoff: nat, level: nat, index: nat) -> nat {
    (prefix_at(elapsed, cutoff, level + 1) * pow2(cutoff) + index) * pow2(cutoff * level)
}

/// No tick is earlier than the start of a bucket that ranks no later than
/// its own.
pub proof fn lemma_bucket_start_bound(
    tick: nat,
    elapsed: nat,
    cutoff: nat,
    level: nat,
    index: nat,
)
    requires
        cutoff > 0,
        elapsed <= tick,
        index < pow2(cutoff),
        level_of(tick, elapsed, cutoff) >= level,
        level_of(tick, elapsed, cutoff) == level ==> index_at(tick, cutoff, level) >= index,
    ensures
        bucket_start(elapsed, cutoff, level, index) <= tick,
{
    let home = level_of(tick, elapsed, cutoff);
    let w = pow2(cutoff);
    let g = pow2(cutoff * level);
    let base = prefix_at(elapsed, cutoff, level + 1);
    let mine = prefix_at(tick, cutoff, level);
    lemma_level_of_is(tick, elapsed, cutoff);
    lemma_prefix_step(tick, cutoff, level);
    lemma_pow2_pos(cutoff * level);
    lemma_fundamental_div_mod(tick as int, g as int);
    lemma_mod_bound(tick as int, g as int);
    if home > level {
        lemma_prefix_monotone(elapsed, tick, cutoff, home);
        lemma_prefix_less_down(elapsed, tick, cutoff, level + 1, home);
        assert(prefix_at(tick, cutoff, level + 1) * w >= base * w + w) by (nonlinear_arith)
            requires
                prefix_at(tick, cutoff, level + 1) > base,
        ;
    }
    assert(mine >= base * w + index);
    assert(g * mine >= (base * w + index) * g) by (nonlinear_arith)
        requires
            mine >= base * w + index,
            g > 0,
    ;
}

/// Shifting two 64-bit numbers right by a whole number of groups computes
/// their prefixes, also where the shift leaves nothing.
proof fn lemma_prefix_is_shift(x: u64, cutoff: nat, level: nat)
    ensures
        cutoff * level < 64 ==> prefix_at(x as nat, cutoff, level) == x >> ((cutoff * level) as u64),
        cutoff * level >= 64 ==> prefix_at(x as nat, cutoff, level) == 0,
{
    let k = cutoff * level;
    if k < 64 {
        lemma_u64_shr_is_div(x, k as u64);
    } else {
        vstd::arithmetic::power2::lemma2_to64_rest();
        if k > 64 {
            lemma_pow2_strictly_increases(64, k);
        }
        lemma_basic_div(x as int, pow2(k) as int);
    }
}

/// The mask that keeps the lowest `cutoff` bits computes the index.
proof fn lemma_mask_is_index(x: u64, cutoff: u64)
    requires
        cutoff < 64,
    ensures
        (1u64 << cutoff) == pow2(cutoff as nat),
        (1u64 << cutoff) - 1 == low_bits_mask(cutoff as nat),
        x & (((1u64 << cutoff) - 1) as u64) == (x as nat) % pow2(cutoff as nat),
{
    vstd::bits::lemma_u64_pow2_no_overflow(cutoff as nat);
    lemma_u64_shl_is_mul(1, cutoff);
    lemma_u64_low_bits_mask_is_mod(x, cutoff as nat);
}

/// The place of the highest bit that is set in `differ`, counted from the
/// lowest; 0 when no bit is set.
pub open spec fn highest_bit(differ: u64) -> int {
    if differ == 0 {
        0
    } else {
        63 - u64_leading_zeros(differ)
    }
}

/// Placement by the highest differing bit: a tick resides at the level of
/// the highest bit in which it differs from the elapsed time, and at the
/// lowest level when the two are equal.
pub proof fn lemma_level_is_highest_differing_bit(elapsed: u64, tick: u64, cutoff: u64)
    requires
        1 <= cutoff <= 6,
    ensures
        0 <= highest_bit(elapsed ^ tick) <= 63,
        level_of(tick as nat, elapsed as nat, cutoff as nat) == highest_bit(elapsed ^ tick) / (
        cutoff as int),
{
    let differ: u64 = elapsed ^ tick;
    axiom_u64_leading_zeros(differ);
    let first_one: u64 = highest_bit(differ) as u64;
    let level: u64 = first_one / cutoff;
    assert(level * cutoff <= first_one && first_one < level * cutoff + cutoff) by (nonlinear_arith)
        requires
            level == first_one / cutoff,
            cutoff > 0,
    ;
    let low: u64 = (level * cutoff) as u64;
    let high: u64 = (low + cutoff) as u64;
    let c = cutoff as nat;
    let l = level as nat;
    assert(c * l == low as nat) by (nonlinear_arith)
        requires
            low == level * cutoff,
            c == cutoff,
            l == level,
    ;
    assert(c * (l + 1) == high as nat) by (nonlinear_arith)
        requires
            c * l == low,
            high == low + cutoff,
            c == cutoff,
    ;
    lemma_prefix_is_shift(tick, c, l);
    lemma_prefix_is_shift(elapsed, c, l);
    lemma_prefix_is_shift(tick, c, l + 1);
    lemma_prefix_is_shift(elapsed, c, l + 1);
    if differ == 0 {
        assert(elapsed == tick) by (bit_vector)
            requires
                elapsed ^ tick == 0,
        ;
    } else {
        let after: u64 = (first_one + 1) as u64;
        if high < 64 {
            assert(differ >> after == 0);
            assert((tick >> high) == (elapsed >> high)) by (bit_vector)
                requires
                    differ == elapsed ^ tick,
                    differ >> after == 0,
                    after <= high,
                    high < 64,
            ;
        }
        if level > 0 {
            assert((tick >> low) != (elapsed >> low)) by (bit_vector)
                requires
                    differ == elapsed ^ tick,
                    (differ >> first_one) & 1 != 0,
                    low <= first_one,
                    first_one < 64,
            ;
        }
    }
    lemma_level_of_unique(tick as nat, elapsed as nat, c, l);
}

/// Finds the level and the bucket of `tick` for a wheel that stands at
/// `elapsed`, from the highest bit in which the two differ.
pub fn locate(elapsed: u64, tick: u64, cutoff: u64) -> (pos: (usize, u32))
    requires
        1 <= cutoff <= 6,
    ensures
        pos.0 == level_of(tick as nat, elapsed as nat, cutoff as nat),
        pos.1 == index_at(tick as nat, cutoff as nat, pos.0 as nat),
        pos.0 * cutoff < 64,
{
    let differ: u64 = elapsed ^ tick;
    let first_one: u64 = if differ == 0 {
        0
    } else {
        let zeros: u32 = differ.leading_zeros();
        proof {
            axiom_u64_leading_zeros(differ);
        }
        63 - zeros as u64
    };
    let level: u64 = first_one / cutoff;
    proof {
        lemma_level_is_highest_differing_bit(elapsed, tick, cutoff);
        assert(level * cutoff <= first_one) by (nonlinear_arith)
            requires
                level == first_one / cutoff,
                cutoff > 0,
        ;
        lemma_mask_is_index(0, cutoff);
        lemma_pow2_pos(cutoff as nat);
    }
    let low: u64 = level * cutoff;
    let mask: u64 = (1u64 << cutoff) - 1;
    let index: u64 = (tick >> low) & mask;
    proof {
        let c = cutoff as nat;
        let l = level as nat;
        assert(c * l == low as nat) by (nonlinear_arith)
            requires
                low == level * cutoff,
                c == cutoff,
                l == level,
        ;
        lemma_prefix_is_shift(tick, c, l);
        lemma_mask_is_index(tick >> low, cutoff);
        vstd::arithmetic::power2::lemma2_to64();
        lemma_pow2_strictly_increases(c, 7);
        lemma_mod_bound((tick >> low) as int, pow2(c) as int);
    }
    (level as usize, index as u32)
}

/// Computes the earliest tick that the bucket `index` of `level` can hold
/// for a wheel that stands at `elapsed`: the bits of `elapsed` above the
/// level, then the index, then zeros.
pub fn first_tick_of(elapsed: u64, cutoff: u64, level: u64, index: u64) -> (start: u64)
    requires
        1 <= cutoff <= 6,
        cutoff * (level + 1) < 64,
        index < pow2(cutoff as nat),
        bucket_start(elapsed as nat, cutoff as nat, level as nat, index as nat) <= u64::MAX,
    ensures
        start == bucket_start(elapsed as nat, cutoff as nat, level as nat, index as nat),
{
    proof {
        assert(level * cutoff + cutoff == cutoff * (level + 1)) by (nonlinear_arith);
    }
    let low: u64 = level * cutoff;
    let high: u64 = low + cutoff;
    let left: u64 = elapsed >> high;
    proof {
        let c = cutoff as nat;
        let l = level as nat;
        let w = pow2(c);
        let g = pow2(c * l);
        assert(c * l == low as nat) by (nonlinear_arith)
            requires
                low == level * cutoff,
                c == cutoff,
                l == level,
        ;
        assert(c * (l + 1) == high as nat) by (nonlinear_arith)
            requires
                c * l == low,
                high == low + cutoff,
                c == cutoff,
        ;
        lemma_prefix_is_shift(elapsed, c, l + 1);
        lemma_pow2_pos(c);
        lemma_pow2_pos(c * l);
        assert(left * w + index <= (left * w + index) * g) by (nonlinear_arith)
            requires
                g > 0,
        ;
        lemma_u64_shl_is_mul(left, cutoff);
        lemma_mask_is_index(0, cutoff);
        let shifted: u64 = left << cutoff;
        let width: u64 = 1u64 << cutoff;
        assert(shifted | index == shifted + index) by (bit_vector)
            requires
                shifted == left << cutoff,
                width == 1u64 << cutoff,
                index < width,
                cutoff < 64,
                shifted <= 0xffff_ffff_ffff_ffffu64 - index,
        ;
        lemma_u64_shl_is_mul((shifted | index) as u64, low);
    }
    let joined: u64 = (left << cutoff) | index;
    joined << low
}

/// The number of buckets of a level whose index has `cutoff` bits.
pub fn width_of(cutoff: u64) -> (width: usize)
    requires
        1 <= cutoff <= 6,
    ensures
        width == pow2(cutoff as nat),
        2 <= width <= 64,
{
    proof {
        lemma_mask_is_index(0, cutoff);
        vstd::arithmetic::power2::lemma2_to64();
        if cutoff > 1 {
            lemma_pow2_strictly_increases(1, cutoff as nat);
        }
        if cutoff < 6 {
            lemma_pow2_strictly_increases(cutoff as nat, 6);
        }
    }
    (1u64 << cutoff) as usize
}

/// How a bucket's place in the delivery order splits into level and index.
pub proof fn lemma_rank_splits(level: int, index: int, width: int)
    requires
        0 <= level,
        0 <= index < width,
    ensures
        (level * width + index) / width == level,
        (level * width + index) % width == index,
{
    vstd::arithmetic::div_mod::lemma_fundamental_div_mod_converse(
        level * width + index,
        width,
        level,
        index,
    );
}

/// Every place in the delivery order of `levels` levels is the place of one
/// bucket.
pub proof fn lemma_rank_joins(rank: int, levels: int, width: int)
    requires
        0 <= rank < levels * width,
        0 < width,
    ensures
        0 <= rank / width < levels,
        0 <= rank % width < width,
        rank == (rank / width) * width + rank % width,
{
    lemma_fundamental_div_mod(rank, width);
    lemma_mod_bound(rank, width);
    let q = rank / width;
    assert(q * width == width * q) by (nonlinear_arith);
    assert(q < levels) by (nonlinear_arith)
        requires
            q * width <= rank,
            rank < levels * width,
            width > 0,
    ;
    assert(q >= 0) by (nonlinear_arith)
        requires
            q * width + rank % width == rank,
            rank >= 0,
            rank % width < width,
            width > 0,
    ;
}

/// The bucket that `tick` selects at `level`.
pub fn index_of(tick: u64, cutoff: u64, level: u64) -> (index: u32)
    requires
        1 <= cutoff <= 6,
        cutoff * level < 64,
    ensures
        index == index_at(tick as nat, cutoff as nat, level as nat),
        index < pow2(cutoff as nat),
{
    proof {
        assert(level * cutoff == cutoff * level) by (nonlinear_arith);
        lemma_mask_is_index(0, cutoff);
        lemma_pow2_pos(cutoff as nat);
    }
    let low: u64 = level * cutoff;
    let mask: u64 = (1u64 << cutoff) - 1;
    let index: u64 = (tick >> low) & mask;
    proof {
        let c = cutoff as nat;
        let l = level as nat;
        assert(c * l == low as nat) by (nonlinear_arith)
            requires
                low == level * cutoff,
                c == cutoff,
                l == level,
        ;
        lemma_prefix_is_shift(tick, c, l);
        lemma_mask_is_index(tick >> low, cutoff);
        vstd::arithmetic::power2::lemma2_to64();
        lemma_pow2_strictly_increases(c, 7);
        lemma_mod_bound((tick >> low) as int, pow2(c) as int);
    }
    index as u32
}

} // verus!
