//! Load factors: how full a table may get before it grows.
//!
//! A load factor is a single-precision number. It is held in its IEEE 754 encoding and all of
//! its arithmetic is done on integers: a value is a whole multiple of `2^-149`, the least
//! positive single-precision number.
use vstd::arithmetic::power2::*;
use vstd::prelude::*;

verus! {

/// The encoding of the least load factor in use, `0.2`.
pub const MIN_LOAD_FACTOR: u32 = 0x3e4c_cccd;

/// The encoding of the largest load factor in use, `1.0`.
pub const MAX_LOAD_FACTOR: u32 = 0x3f80_0000;

/// The encoding of the load factor of a map made without options, `0.8`.
pub const DEFAULT_LOAD_FACTOR: u32 = 0x3f4c_cccd;

/// A load factor, in the encoding that `f32::to_bits` gives.
#[derive(Clone, Copy, Debug, PartialEq, Eq, Structural)]
pub struct LoadFactor {
    pub bits: u32,
}

/// The distance of the number that `bits` encodes from zero, in units of `2^-149`. The
/// infinities count as one step above the largest finite number.
pub open spec fn magnitude(bits: u32) -> nat {
    let exponent = (bits as nat / 0x80_0000) % 0x100;
    let fraction = bits as nat % 0x80_0000;
    if exponent == 0 {
        fraction
    } else {
        (0x80_0000 + fraction) * pow2((exponent - 1) as nat)
    }
}

impl LoadFactor {
    /// The number is not a number.
    pub open spec fn is_nan(self) -> bool {
        &&& (self.bits as nat / 0x80_0000) % 0x100 == 0xff
        &&& self.bits as nat % 0x80_0000 != 0
    }

    /// The number itself, in units of `2^-149`.
    pub open spec fn value(self) -> int {
        if self.bits < 0x8000_0000 {
            magnitude(self.bits) as int
        } else {
            -magnitude(self.bits)
        }
    }

    /// The number lies between the least and the largest load factor in use.
    pub open spec fn in_range(self) -> bool {
        &&& !self.is_nan()
        &&& magnitude(MIN_LOAD_FACTOR) <= self.value() <= magnitude(MAX_LOAD_FACTOR)
    }

    /// The number, raised or lowered to the nearest load factor in use.
    pub open spec fn spec_clamped(self) -> LoadFactor {
        if self.value() > magnitude(MAX_LOAD_FACTOR) {
            LoadFactor { bits: MAX_LOAD_FACTOR }
        } else if self.value() < magnitude(MIN_LOAD_FACTOR) {
            LoadFactor { bits: MIN_LOAD_FACTOR }
        } else {
            self
        }
    }

    /// The whole part of `n` times the number.
    pub open spec fn spec_product(self, n: nat) -> nat {
        n * magnitude(self.bits) / pow2(149)
    }

    /// `n` times the number, rounded up.
    pub open spec fn spec_ceiling(self, n: nat) -> nat {
        if n * magnitude(self.bits) % pow2(149) == 0 {
            self.spec_product(n)
        } else {
            self.spec_product(n) + 1
        }
    }

    /// The number of entries at which a new table of `n` buckets grows: the whole part of `n` times
    /// the number, and one where that is nothing.
    pub open spec fn spec_limit(self, n: nat) -> nat {
        if self.spec_product(n) == 0 {
            1
        } else {
            self.spec_product(n)
        }
    }

    /// The limit of a table that has doubled to `n` buckets and had the limit `max` before: twice
    /// that, but no more than `n` times the number, rounded up.
    pub open spec fn spec_raised(self, max: nat, n: nat) -> nat {
        if 2 * max <= self.spec_ceiling(n) {
            2 * max
        } else {
            self.spec_ceiling(n)
        }
    }

    /// The whole part of `n` divided by the number.
    pub open spec fn spec_quotient(self, n: nat) -> nat {
        n * pow2(149) / magnitude(self.bits)
    }

    /// The number as a fraction: what lies between it and its roundings.
    pub(crate) proof fn lemma_rounded(self, n: nat)
        requires
            self.in_range(),
        ensures
            ({
                let m = magnitude(self.bits) as int;
                let p = pow2(149) as int;
                &&& 0 < m <= p <= 5 * m
                &&& self.spec_product(n) * p <= n * m < (self.spec_product(n) + 1) * p
                &&& (self.spec_ceiling(n) - 1) * p < n * m <= self.spec_ceiling(n) * p
            }),
    {
        lemma_limits();
        lemma2_to64();
        lemma_pow2_adds(23, 126);
        lemma_pow2_adds(26, 123);
        lemma_pow2_pos(149);
        lemma_in_range_bits(self);
        let m = magnitude(self.bits) as int;
        let p = pow2(149) as int;
        let q = self.spec_product(n) as int;
        let r = n * m % p;
        vstd::arithmetic::div_mod::lemma_fundamental_div_mod(n * m, p);
        assert(q * p <= n * m < (q + 1) * p && (r > 0 ==> q * p < n * m) && (r == 0 ==> n * m == q
            * p) && (q - 1) * p < q * p) by (nonlinear_arith)
            requires
                n * m == p * q + r,
                0 <= r < p,
        ;
    }

    /// Rounded up, a share of some buckets is at least one and at least a fifth of them, and at
    /// most all of them.
    pub proof fn lemma_ceiling_bound(self, n: nat)
        requires
            self.in_range(),
            n > 0,
        ensures
            0 < self.spec_ceiling(n) <= n <= 5 * self.spec_ceiling(n),
            self.spec_limit(n) <= self.spec_ceiling(n),
    {
        self.lemma_rounded(n);
        let m = magnitude(self.bits) as int;
        let p = pow2(149) as int;
        let c = self.spec_ceiling(n) as int;
        assert(0 < c <= n <= 5 * c) by (nonlinear_arith)
            requires
                0 < m <= p <= 5 * m,
                (c - 1) * p < n * m <= c * p,
                n > 0,
        ;
    }

    /// No smaller number than the one rounded up is as large as the share itself.
    pub proof fn lemma_ceiling_least(self, n: nat, k: nat)
        requires
            self.in_range(),
            k * pow2(149) >= n * magnitude(self.bits),
        ensures
            self.spec_ceiling(n) <= k,
    {
        self.lemma_rounded(n);
        let p = pow2(149) as int;
        let c = self.spec_ceiling(n) as int;
        assert(c <= k) by (nonlinear_arith)
            requires
                (c - 1) * p < k * p,
                p > 0,
        ;
    }

    /// How a limit rises when the table doubles. A limit that was rounded down doubles, and is
    /// again no more than the load factor asks for. A limit that was rounded up follows the load
    /// factor; it can only stand still at one.
    pub proof fn lemma_raised(self, max: nat, n: nat)
        requires
            self.in_range(),
            n > 0,
            0 < max <= self.spec_ceiling(n),
        ensures
            0 < self.spec_raised(max, 2 * n) <= self.spec_ceiling(2 * n),
            n <= 8 * max ==> 2 * n <= 8 * self.spec_raised(max, 2 * n),
            n <= 5 * max ==> 2 * n <= 5 * self.spec_raised(max, 2 * n),
            max <= self.spec_product(n) ==> self.spec_raised(max, 2 * n) == 2 * max && 2 * max
                <= self.spec_product(2 * n),
            max == self.spec_ceiling(n) ==> self.spec_raised(max, 2 * n) == self.spec_ceiling(
                2 * n,
            ),
            self.spec_raised(max, 2 * n) > max || (max == 1 && n <= 5),
    {
        self.lemma_ceiling_bound(n);
        self.lemma_ceiling_bound(2 * n);
        self.lemma_rounded(n);
        self.lemma_rounded(2 * n);
        let m = magnitude(self.bits) as int;
        let p = pow2(149) as int;
        let (q, c) = (self.spec_product(n) as int, self.spec_ceiling(n) as int);
        let (q2, c2) = (self.spec_product(2 * n) as int, self.spec_ceiling(2 * n) as int);
        let w = n * m;
        assert((2 * n) * m == 2 * w) by (nonlinear_arith)
            requires
                w == n * m,
        ;
        assert(2 * q <= q2) by (nonlinear_arith)
            requires
                q * p <= w,
                2 * w < (q2 + 1) * p,
                p > 0,
        ;
        assert(c2 <= 2 * c) by (nonlinear_arith)
            requires
                w <= c * p,
                (c2 - 1) * p < 2 * w,
                p > 0,
        ;
        if c >= 2 {
            assert(c2 > c) by (nonlinear_arith)
                requires
                    c >= 2,
                    (c - 1) * p < w,
                    2 * w <= c2 * p,
                    p > 0,
            ;
        }
    }

    /// The quotient as a fraction: what lies between it and its whole part.
    pub(crate) proof fn lemma_quotient(self, n: nat)
        requires
            self.in_range(),
        ensures
            ({
                let m = magnitude(self.bits) as int;
                let p = pow2(149) as int;
                self.spec_quotient(n) * m <= n * p < (self.spec_quotient(n) + 1) * m
            }),
    {
        self.lemma_rounded(n);
        let m = magnitude(self.bits) as int;
        let p = pow2(149) as int;
        let q = self.spec_quotient(n) as int;
        let r = n * p % m;
        vstd::arithmetic::div_mod::lemma_fundamental_div_mod(n * p, m);
        assert(q * m <= n * p < (q + 1) * m) by (nonlinear_arith)
            requires
                n * p == m * q + r,
                0 <= r < m,
        ;
    }

    /// Dividing by a load factor in use does not lessen a number.
    pub proof fn lemma_quotient_bound(self, n: nat)
        requires
            self.in_range(),
        ensures
            n <= self.spec_quotient(n),
    {
        self.lemma_rounded(n);
        let m = magnitude(self.bits) as int;
        let p = pow2(149) as int;
        assert(n * m <= n * p) by (nonlinear_arith)
            requires
                m <= p,
                n >= 0,
        ;
        vstd::arithmetic::div_mod::lemma_div_is_ordered(n * m, n * p, m);
        vstd::arithmetic::div_mod::lemma_div_by_multiple(n as int, m);
    }

    /// A load factor in use is at most one.
    pub proof fn lemma_product_bound(self, n: nat)
        requires
            self.in_range(),
        ensures
            self.spec_product(n) <= n,
    {
        self.lemma_rounded(n);
        let m = magnitude(self.bits) as int;
        let p = pow2(149) as int;
        let q = self.spec_product(n) as int;
        assert(q <= n) by (nonlinear_arith)
            requires
                0 < m <= p,
                q * p <= n * m,
                n >= 0,
        ;
    }

    /// The limit of a new table is at least one and at most its number of buckets, which is at
    /// most eight times the limit.
    pub proof fn lemma_limit_bound(self, n: nat)
        requires
            self.in_range(),
            is_pow2(n as int),
        ensures
            0 < self.spec_limit(n) <= n <= 8 * self.spec_limit(n),
    {
        reveal_with_fuel(is_pow2, 2);
        self.lemma_ceiling_bound(n);
        assert(!is_pow2(9));
        assert(!is_pow2(10));
    }

    /// The load factor with the given encoding.
    pub fn from_bits(bits: u32) -> (r: LoadFactor)
        ensures
            r == (LoadFactor { bits }),
    {
        LoadFactor { bits }
    }

    /// The encoding of the load factor.
    pub fn to_bits(self) -> (r: u32)
        ensures
            r == self.bits,
    {
        self.bits
    }

    /// The number, raised or lowered to the nearest load factor in use.
    pub fn clamped(self) -> (r: LoadFactor)
        requires
            !self.is_nan(),
        ensures
            r == self.spec_clamped(),
            r.in_range(),
            self.value() >= pow2(149) ==> r.bits == 0x3f80_0000,
            self.value() <= magnitude(0x3e4c_cccd) ==> r.bits == 0x3e4c_cccd,
            magnitude(0x3e4c_cccd) <= self.value() <= pow2(149) ==> r == self,
    {
        proof {
            lemma_limits();
            lemma2_to64();
            lemma_pow2_adds(23, 126);
            if self.bits < 0x8000_0000 {
                lemma_magnitude_order(self.bits, MIN_LOAD_FACTOR);
                lemma_magnitude_order(self.bits, MAX_LOAD_FACTOR);
            }
        }
        if self.bits >= 0x8000_0000 || self.bits < MIN_LOAD_FACTOR {
            LoadFactor { bits: MIN_LOAD_FACTOR }
        } else if self.bits > MAX_LOAD_FACTOR {
            LoadFactor { bits: MAX_LOAD_FACTOR }
        } else {
            self
        }
    }

    /// The whole part of `n` times the number.
    pub fn product(self, n: u32) -> (r: u32)
        requires
            self.in_range(),
        ensures
            r == self.spec_product(n as nat),
            r <= n,
            r * pow2(149) <= n * magnitude(self.bits) < (r + 1) * pow2(149),
    {
        proof {
            lemma_in_range_bits(self);
            self.lemma_rounded(n as nat);
        }
        let significand: u64 = (0x80_0000 + self.bits % 0x80_0000) as u64;
        let shift: u64 = 150 - (self.bits / 0x80_0000) as u64;
        assert(n * significand <= 0xffff_ffff * 0x100_0000) by (nonlinear_arith)
            requires
                n <= 0xffff_ffff,
                significand <= 0x100_0000,
        ;
        let product: u64 = n as u64 * significand;
        let r: u64 = product >> shift;
        proof {
            let low = ((self.bits / 0x80_0000) - 1) as nat;
            let high = shift as nat;
            vstd::bits::lemma_u64_shr_is_div(product, shift);
            lemma_pow2_adds(low, high);
            lemma_pow2_pos(low);
            lemma_pow2_pos(high);
            assert(n * (significand * pow2(low)) == pow2(low) * product) by (nonlinear_arith)
                requires
                    product == n * significand,
            ;
            vstd::arithmetic::div_mod::lemma_div_multiples_vanish_quotient(
                pow2(low) as int,
                product as int,
                pow2(high) as int,
            );
            self.lemma_product_bound(n as nat);
        }
        r as u32
    }

    /// `n` times the number, rounded up.
    pub fn ceiling(self, n: u32) -> (r: u32)
        requires
            self.in_range(),
        ensures
            r == self.spec_ceiling(n as nat),
            r <= n,
            (r - 1) * pow2(149) < n * magnitude(self.bits) <= r * pow2(149),
    {
        proof {
            lemma_in_range_bits(self);
            self.lemma_rounded(n as nat);
            if n > 0 {
                self.lemma_ceiling_bound(n as nat);
            } else {
                assert(0 * magnitude(self.bits) == 0);
                lemma_pow2_pos(149);
            }
        }
        let significand: u64 = (0x80_0000 + self.bits % 0x80_0000) as u64;
        let shift: u64 = 150 - (self.bits / 0x80_0000) as u64;
        assert(n * significand <= 0xffff_ffff * 0x100_0000) by (nonlinear_arith)
            requires
                n <= 0xffff_ffff,
                significand <= 0x100_0000,
        ;
        let product: u64 = n as u64 * significand;
        proof {
            let low = ((self.bits / 0x80_0000) - 1) as nat;
            let high = shift as nat;
            lemma2_to64();
            if high < 26 {
                lemma_pow2_strictly_increases(high, 26);
            }
            vstd::bits::lemma_u64_shl_is_mul(1, shift);
            lemma_pow2_adds(low, high);
            lemma_pow2_pos(low);
            lemma_pow2_pos(high);
            assert(n * (significand * pow2(low)) == pow2(low) * product) by (nonlinear_arith)
                requires
                    product == n * significand,
            ;
            vstd::arithmetic::div_mod::lemma_truncate_middle(
                product as int,
                pow2(low) as int,
                pow2(high) as int,
            );
            let rest = product as int % pow2(high) as int;
            assert(pow2(low) * rest == 0 <==> rest == 0) by (nonlinear_arith)
                requires
                    pow2(low) > 0,
            ;
        }
        let unit: u64 = 1u64 << shift;
        if product % unit == 0 {
            self.product(n)
        } else {
            self.product(n) + 1
        }
    }

    /// The limit of a table that has doubled to `n` buckets and had the limit `max` before.
    pub fn raised(self, max: u32, n: u32) -> (r: u32)
        requires
            self.in_range(),
            max <= 0x7fff_ffff,
        ensures
            r == self.spec_raised(max as nat, n as nat),
            r <= 2 * max,
            (r - 1) * pow2(149) < n * magnitude(self.bits),
            r == 2 * max || r * pow2(149) >= n * magnitude(self.bits),
    {
        proof {
            crate::sizing_laws::law_limits_rise_as_far_as_the_load_factor_allows(
                self,
                max as nat,
                n as nat,
            );
        }
        let most: u32 = self.ceiling(n);
        if 2 * max <= most {
            2 * max
        } else {
            most
        }
    }

    /// The number of entries at which a new table of `n` buckets grows.
    pub fn limit(self, n: u32) -> (r: u32)
        requires
            self.in_range(),
        ensures
            r == self.spec_limit(n as nat),
            r >= 1,
            (r + 1) * pow2(149) > n * magnitude(self.bits),
            r * pow2(149) <= n * magnitude(self.bits) || r == 1,
    {
        proof {
            crate::sizing_laws::law_new_tables_grow_at_their_load_factor(self, n as nat);
        }
        let product: u32 = self.product(n);
        if product == 0 {
            1
        } else {
            product
        }
    }

    /// The whole part of `n` divided by the number.
    pub fn quotient(self, n: u32) -> (r: u64)
        requires
            self.in_range(),
        ensures
            r == self.spec_quotient(n as nat),
            r * magnitude(self.bits) <= n * pow2(149) < (r + 1) * magnitude(self.bits),
    {
        proof {
            self.lemma_quotient(n as nat);
            lemma_in_range_bits(self);
            lemma2_to64();
        }
        let significand: u64 = (0x80_0000 + self.bits % 0x80_0000) as u64;
        let shift: u64 = 150 - (self.bits / 0x80_0000) as u64;
        proof {
            let low = ((self.bits / 0x80_0000) - 1) as nat;
            let high = shift as nat;
            if high < 26 {
                lemma_pow2_strictly_increases(high, 26);
            }
            assert(n * pow2(high) <= 0xffff_ffff * 0x400_0000) by (nonlinear_arith)
                requires
                    n <= 0xffff_ffff,
                    pow2(high) <= 0x400_0000,
            ;
            vstd::bits::lemma_u64_shl_is_mul(n as u64, shift);
            lemma_pow2_adds(low, high);
            lemma_pow2_pos(low);
            assert(n * (pow2(low) * pow2(high)) == pow2(low) * (n * pow2(high)))
                by (nonlinear_arith);
            assert(significand * pow2(low) == pow2(low) * significand) by (nonlinear_arith);
            vstd::arithmetic::div_mod::lemma_div_multiples_vanish_quotient(
                pow2(low) as int,
                n * pow2(high),
                significand as int,
            );
        }
        ((n as u64) << shift) / significand
    }
}

/// Among the encodings of numbers that are not negative, a larger one encodes a larger number.
pub(crate) proof fn lemma_magnitude_order(a: u32, b: u32)
    requires
        a < 0x8000_0000,
        b < 0x8000_0000,
    ensures
        a < b <==> magnitude(a) < magnitude(b),
        a == b <==> magnitude(a) == magnitude(b),
{
    if a < b {
        lemma_magnitude_grows(a, b);
    } else if b < a {
        lemma_magnitude_grows(b, a);
    }
}

proof fn lemma_magnitude_grows(a: u32, b: u32)
    requires
        a < b < 0x8000_0000,
    ensures
        magnitude(a) < magnitude(b),
{
    let ea = (a as nat / 0x80_0000) % 0x100;
    let eb = (b as nat / 0x80_0000) % 0x100;
    let fa = a as nat % 0x80_0000;
    let fb = b as nat % 0x80_0000;
    assert(ea == a / 0x80_0000 && eb == b / 0x80_0000);
    if ea == eb {
        assert(fa < fb);
        if ea > 0 {
            let p = pow2((ea - 1) as nat);
            lemma_pow2_pos((ea - 1) as nat);
            assert((0x80_0000 + fa) * p < (0x80_0000 + fb) * p) by (nonlinear_arith)
                requires
                    fa < fb,
                    p > 0,
            ;
        }
    } else {
        assert(ea < eb);
        let q = pow2((eb - 1) as nat);
        lemma_pow2_pos((eb - 1) as nat);
        assert((0x80_0000 + fb) * q >= 0x80_0000 * q) by (nonlinear_arith);
        if ea > 0 {
            let p = pow2((ea - 1) as nat);
            lemma_pow2_pos((ea - 1) as nat);
            assert((0x80_0000 + fa) * p < 0x100_0000 * p) by (nonlinear_arith)
                requires
                    fa < 0x80_0000,
                    p > 0,
            ;
            lemma_pow2_unfold(ea);
            if ea < eb - 1 {
                lemma_pow2_strictly_increases(ea, (eb - 1) as nat);
            }
        }
    }
}

/// The encodings of the two limits, taken apart.
pub(crate) proof fn lemma_limits()
    ensures
        magnitude(MIN_LOAD_FACTOR) == 13421773 * pow2(123),
        magnitude(MAX_LOAD_FACTOR) == 0x80_0000 * pow2(126),
        !(LoadFactor { bits: MIN_LOAD_FACTOR }).is_nan(),
        !(LoadFactor { bits: MAX_LOAD_FACTOR }).is_nan(),
        0 < magnitude(MIN_LOAD_FACTOR) < magnitude(MAX_LOAD_FACTOR),
{
    lemma_pow2_pos(123);
    lemma_magnitude_order(MIN_LOAD_FACTOR, MAX_LOAD_FACTOR);
}

/// Where the encoding of a load factor in use lies, and what its number is.
proof fn lemma_in_range_bits(factor: LoadFactor)
    requires
        factor.in_range(),
    ensures
        MIN_LOAD_FACTOR <= factor.bits <= MAX_LOAD_FACTOR,
        124 <= factor.bits / 0x80_0000 <= 127,
        magnitude(factor.bits) == (0x80_0000 + factor.bits % 0x80_0000) * pow2(
            ((factor.bits / 0x80_0000) - 1) as nat,
        ),
{
    lemma_limits();
    if factor.bits < 0x8000_0000 {
        lemma_magnitude_order(factor.bits, MIN_LOAD_FACTOR);
        lemma_magnitude_order(factor.bits, MAX_LOAD_FACTOR);
    }
}

/// The load factor of a map made without options, at work on the sizes of such a map.
pub(crate) proof fn lemma_default_load_factor()
    ensures
        ({
            let factor = LoadFactor { bits: DEFAULT_LOAD_FACTOR };
            &&& factor.in_range()
            &&& factor.spec_clamped() == factor
            &&& factor.spec_quotient(16) == 19
            &&& factor.spec_product(4) == 3
        }),
{
    lemma_limits();
    lemma_magnitude_order(DEFAULT_LOAD_FACTOR, MIN_LOAD_FACTOR);
    lemma_magnitude_order(DEFAULT_LOAD_FACTOR, MAX_LOAD_FACTOR);
    let p = pow2(125) as int;
    let q = pow2(24) as int;
    lemma_pow2_pos(125);
    lemma_pow2_adds(125, 24);
    lemma2_to64();
    assert(magnitude(DEFAULT_LOAD_FACTOR) == 13421773 * p);
    assert(16 * (p * q) == p * (16 * q)) by (nonlinear_arith);
    vstd::arithmetic::div_mod::lemma_div_multiples_vanish_quotient(p, 16 * q, 13421773);
    assert(4 * (13421773 * p) == p * 53687092) by (nonlinear_arith);
    vstd::arithmetic::div_mod::lemma_div_multiples_vanish_quotient(p, 53687092, q);
}

} // verus!
