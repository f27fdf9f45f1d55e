//! What holds of load factors, of the sizes and limits that they lead to, and of the options of a
//! map.
use crate::arith;
use crate::hash_map;
use crate::inner::SegmentMask;
use crate::load_factor;
use crate::load_factor::LoadFactor;
use vstd::arithmetic::power2::*;
use vstd::prelude::*;

verus! {

/// Encodings count up from zero in steps of the least positive number. From the second run of
/// `2^23` encodings on, each run covers numbers twice as large as the run before. The top bit
/// negates. What lies beyond infinity is not a number.
pub proof fn law_encodings_are_those_of_single_precision(bits: u32)
    ensures
        bits < 0x100_0000 ==> load_factor::magnitude(bits) == bits,
        0x100_0000 <= bits < 0x8000_0000 ==> load_factor::magnitude(bits) == 2
            * load_factor::magnitude((bits - 0x80_0000) as u32),
        bits < 0x8000_0000 ==> (LoadFactor { bits }).value() == load_factor::magnitude(bits),
        bits >= 0x8000_0000 ==> (LoadFactor { bits }).value() == -(LoadFactor {
            bits: (bits - 0x8000_0000) as u32,
        }).value(),
        bits >= 0x8000_0000 ==> load_factor::magnitude(bits) == load_factor::magnitude(
            (bits - 0x8000_0000) as u32,
        ),
        (LoadFactor { bits }).is_nan() <==> bits % 0x8000_0000 > 0x7f80_0000,
{
    lemma2_to64();
    let e = (bits as nat / 0x80_0000) % 0x100;
    if bits < 0x100_0000 {
        assert(e == bits / 0x80_0000);
        assert(e == 1 ==> pow2((e - 1) as nat) == 1);
    }
    if 0x100_0000 <= bits < 0x8000_0000 {
        let below = (bits - 0x80_0000) as u32;
        assert((below as nat / 0x80_0000) % 0x100 == e - 1);
        assert(below as nat % 0x80_0000 == bits as nat % 0x80_0000);
        lemma_pow2_unfold((e - 1) as nat);
        let f = 0x80_0000 + bits as nat % 0x80_0000;
        let p = pow2((e - 2) as nat);
        assert(f * (2 * p) == 2 * (f * p)) by (nonlinear_arith);
    }
    if bits >= 0x8000_0000 {
        let low = (bits - 0x8000_0000) as u32;
        assert((low as nat / 0x80_0000) % 0x100 == e);
        assert(low as nat % 0x80_0000 == bits as nat % 0x80_0000);
    }
}

/// The load factors in use are those from `0.2` to `1.0`: their encodings lie between the one
/// nearest to a fifth and that of one. The default is the encoding nearest to four fifths.
pub proof fn law_load_factors_in_use(factor: LoadFactor, other: u32)
    requires
        other < 0x8000_0000,
    ensures
        factor.in_range() <==> 0x3e4c_cccd <= factor.bits <= 0x3f80_0000,
        load_factor::magnitude(0x3f80_0000) == pow2(149),
        vstd::math::abs(5 * load_factor::magnitude(0x3e4c_cccd) - pow2(149)) <= vstd::math::abs(
            5 * load_factor::magnitude(other) - pow2(149),
        ),
        vstd::math::abs(
            5 * load_factor::magnitude(load_factor::DEFAULT_LOAD_FACTOR) - 4 * pow2(149),
        ) <= vstd::math::abs(5 * load_factor::magnitude(other) - 4 * pow2(149)),
{
    load_factor::lemma_limits();
    load_factor::lemma_magnitude_order(other, 0x3e4c_cccd);
    load_factor::lemma_magnitude_order(other, 0x3e4c_cccc);
    load_factor::lemma_magnitude_order(other, 0x3f4c_cccd);
    load_factor::lemma_magnitude_order(other, 0x3f4c_cccc);
    if factor.bits < 0x8000_0000 {
        load_factor::lemma_magnitude_order(factor.bits, 0x3e4c_cccd);
        load_factor::lemma_magnitude_order(factor.bits, 0x3f80_0000);
    }
    lemma2_to64();
    lemma_pow2_adds(23, 126);
    lemma_pow2_adds(26, 123);
    lemma_pow2_adds(24, 125);
    lemma_pow2_pos(123);
    lemma_pow2_pos(125);
    assert(load_factor::magnitude(0x3e4c_cccc) == 13421772 * pow2(123));
    assert(load_factor::magnitude(0x3f4c_cccd) == 13421773 * pow2(125));
    assert(load_factor::magnitude(0x3f4c_cccc) == 13421772 * pow2(125));
}

/// A load factor above one becomes one, one below the least in use becomes the least in use, and
/// any other is kept. No load factor in use is nearer to the number than the one it becomes.
pub proof fn law_load_factors_go_to_the_nearest_in_use(factor: LoadFactor, other: LoadFactor)
    requires
        !factor.is_nan(),
        0x3e4c_cccd <= other.bits <= 0x3f80_0000,
    ensures
        0x3e4c_cccd <= factor.spec_clamped().bits <= 0x3f80_0000,
        factor.value() >= pow2(149) ==> factor.spec_clamped().bits == 0x3f80_0000,
        factor.value() <= load_factor::magnitude(0x3e4c_cccd) ==> factor.spec_clamped().bits
            == 0x3e4c_cccd,
        0x3e4c_cccd <= factor.bits <= 0x3f80_0000 ==> factor.spec_clamped() == factor,
        vstd::math::abs(factor.spec_clamped().value() - factor.value()) <= vstd::math::abs(
            other.value() - factor.value(),
        ),
{
    law_load_factors_in_use(factor, 0);
    law_load_factors_in_use(other, 0);
    law_load_factors_in_use(factor.spec_clamped(), 0);
    load_factor::lemma_limits();
    if factor.bits < 0x8000_0000 {
        load_factor::lemma_magnitude_order(factor.bits, 0x3e4c_cccd);
        load_factor::lemma_magnitude_order(factor.bits, 0x3f80_0000);
    }
}

/// Bringing load factors within their bounds does not change their order.
pub proof fn law_clamping_keeps_the_order(smaller: LoadFactor, larger: LoadFactor)
    requires
        !smaller.is_nan(),
        !larger.is_nan(),
        smaller.value() <= larger.value(),
    ensures
        smaller.spec_clamped().value() <= larger.spec_clamped().value(),
{
    load_factor::lemma_limits();
}

/// The product with a load factor is rounded down and up to the whole numbers next to it, and so
/// is the quotient rounded down.
pub proof fn law_rounding_is_to_the_next_whole_number(factor: LoadFactor, n: nat)
    requires
        factor.in_range(),
    ensures
        ({
            let m = load_factor::magnitude(factor.bits) as int;
            let p = pow2(149) as int;
            &&& factor.spec_product(n) * p <= n * m < (factor.spec_product(n) + 1) * p
            &&& (factor.spec_ceiling(n) - 1) * p < n * m <= factor.spec_ceiling(n) * p
            &&& factor.spec_quotient(n) * m <= n * p < (factor.spec_quotient(n) + 1) * m
        }),
{
    factor.lemma_rounded(n);
    factor.lemma_quotient(n);
}

/// A new table grows no later than its load factor asks, and no earlier: the limit is the largest
/// number of entries that is not above the load factor times the number of buckets, and one where
/// that product is below one.
pub proof fn law_new_tables_grow_at_their_load_factor(factor: LoadFactor, n: nat)
    requires
        factor.in_range(),
    ensures
        ({
            let m = load_factor::magnitude(factor.bits) as int;
            let p = pow2(149) as int;
            &&& factor.spec_limit(n) >= 1
            &&& (factor.spec_limit(n) + 1) * p > n * m
            &&& factor.spec_limit(n) * p <= n * m || factor.spec_limit(n) == 1
        }),
{
    factor.lemma_rounded(n);
    let p = pow2(149) as int;
    assert((1 + 1) * p == p + p && (0 + 1) * p == p) by (nonlinear_arith);
}

/// When a table doubles, its limit at most doubles, and it stays less than one above the load
/// factor times the number of buckets. It is the largest number of which both hold.
pub proof fn law_limits_rise_as_far_as_the_load_factor_allows(factor: LoadFactor, max: nat, n: nat)
    requires
        factor.in_range(),
    ensures
        ({
            let m = load_factor::magnitude(factor.bits) as int;
            let p = pow2(149) as int;
            let r = factor.spec_raised(max, n);
            &&& r <= 2 * max
            &&& (r - 1) * p < n * m
            &&& r == 2 * max || r * p >= n * m
        }),
{
    factor.lemma_rounded(n);
    let m = load_factor::magnitude(factor.bits) as int;
    let p = pow2(149) as int;
    let c = factor.spec_ceiling(n) as int;
    let r = factor.spec_raised(max, n) as int;
    assert((r - 1) * p <= (c - 1) * p) by (nonlinear_arith)
        requires
            r <= c,
            p > 0,
    ;
}

/// A map starts with the least power of two of buckets that is no less than the segment count and
/// than the whole part `wanted` of the capacity divided by the load factor. Only where that part
/// is above `2^30` is it lowered: to `2^30` for a capacity up to that, and otherwise to `2^31`
/// where it is above that.
pub proof fn law_buckets_are_just_enough(
    capacity: nat,
    segments: nat,
    factor: LoadFactor,
    wanted: int,
    other: int,
)
    requires
        factor.in_range(),
        is_pow2(segments as int),
        segments <= 0x8000_0000,
        wanted * load_factor::magnitude(factor.bits) <= capacity * pow2(149) < (wanted + 1)
            * load_factor::magnitude(factor.bits),
        is_pow2(other),
        other >= segments,
    ensures
        ({
            let buckets = hash_map::checked_capacity(capacity, segments, factor);
            let lowered = if wanted <= 0x4000_0000 {
                wanted
            } else if capacity <= 0x4000_0000 {
                0x4000_0000
            } else if wanted <= 0x8000_0000 {
                wanted
            } else {
                0x8000_0000
            };
            &&& is_pow2(buckets as int)
            &&& buckets >= segments
            &&& buckets >= lowered
            &&& other >= lowered ==> buckets <= other
            &&& wanted <= 0x4000_0000 ==> (buckets + 1) * load_factor::magnitude(factor.bits)
                > capacity * pow2(149)
            &&& buckets > segments ==> (buckets / 2 + 1) * load_factor::magnitude(factor.bits)
                <= capacity * pow2(149)
        }),
{
    factor.lemma_quotient(capacity);
    factor.lemma_rounded(capacity);
    factor.lemma_quotient_bound(capacity);
    let m = load_factor::magnitude(factor.bits) as int;
    let w = capacity * pow2(149) as int;
    let q = factor.spec_quotient(capacity) as int;
    assert(q == wanted) by (nonlinear_arith)
        requires
            m > 0,
            q * m <= w < (q + 1) * m,
            wanted * m <= w < (wanted + 1) * m,
    ;
    let bound = hash_map::capacity_bound(capacity);
    let lowered: nat = if wanted <= bound {
        wanted as nat
    } else {
        bound
    };
    arith::law_ceil_pow2_is_least(lowered);
    let buckets = hash_map::checked_capacity(capacity, segments, factor) as int;
    if wanted <= 0x4000_0000 {
        assert((buckets + 1) * m >= (wanted + 1) * m) by (nonlinear_arith)
            requires
                buckets >= wanted,
                m > 0,
        ;
    }
    if buckets > segments {
        reveal(is_pow2);
        assert(is_pow2(buckets / 2));
        assert(buckets / 2 < lowered);
        assert((buckets / 2 + 1) * m <= wanted * m) by (nonlinear_arith)
            requires
                buckets / 2 + 1 <= wanted,
                m > 0,
        ;
    }
}

/// More capacity never leads to fewer buckets, and a smaller load factor does not either.
pub proof fn law_more_capacity_takes_no_fewer_buckets(
    capacity: nat,
    more: nat,
    segments: nat,
    factor: LoadFactor,
    smaller: LoadFactor,
)
    requires
        factor.in_range(),
        smaller.in_range(),
        smaller.bits <= factor.bits,
        is_pow2(segments as int),
        segments <= 0x8000_0000,
        capacity <= more,
    ensures
        hash_map::checked_capacity(capacity, segments, factor) <= hash_map::checked_capacity(
            more,
            segments,
            smaller,
        ),
{
    factor.lemma_quotient(capacity);
    smaller.lemma_quotient(more);
    factor.lemma_rounded(capacity);
    smaller.lemma_rounded(more);
    law_load_factors_in_use(factor, 0);
    law_load_factors_in_use(smaller, 0);
    load_factor::lemma_magnitude_order(smaller.bits, factor.bits);
    let m = load_factor::magnitude(factor.bits) as int;
    let s = load_factor::magnitude(smaller.bits) as int;
    let p = pow2(149) as int;
    let a = factor.spec_quotient(capacity) as int;
    let b = smaller.spec_quotient(more) as int;
    assert(a <= b) by (nonlinear_arith)
        requires
            0 < s <= m,
            p > 0,
            0 <= capacity <= more,
            a >= 0,
            a * m <= capacity * p,
            more * p < (b + 1) * s,
    ;
    law_buckets_are_just_enough(more, segments, smaller, b, segments as int);
    law_buckets_are_just_enough(
        capacity,
        segments,
        factor,
        a,
        hash_map::checked_capacity(more, segments, smaller) as int,
    );
}

/// A mask for `count` segments is `count - 1`, moved to the top of the word.
pub proof fn law_masks_stand_at_the_top(mask: SegmentMask, count: int)
    requires
        mask.masks(count),
        0 < count <= 0xffff_ffff,
    ensures
        mask.mask_shift_count < 32,
        mask.bit_mask == (count - 1) * pow2(mask.mask_shift_count as nat),
        mask.bit_mask >= 0x8000_0000 || count == 1 && mask.bit_mask == 0 && mask.mask_shift_count
            == 0,
{
    assert(0 * pow2(mask.mask_shift_count as nat) == 0);
}

} // verus!
