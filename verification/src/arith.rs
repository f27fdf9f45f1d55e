//! Powers of two, as the sizes of tables and the number of segments need them.
use vstd::arithmetic::power2::*;
use vstd::prelude::*;

verus! {

/// The least power of two that is not below `n`.
pub open spec fn ceil_pow2(n: nat) -> nat
    decreases n,
{
    if n <= 1 {
        1
    } else {
        2 * ceil_pow2((n + 1) / 2)
    }
}

/// `ceil_pow2(n)` is a power of two, it is not below `n`, and no smaller power of two is.
pub proof fn law_ceil_pow2_is_least(n: nat)
    ensures
        is_pow2(ceil_pow2(n) as int),
        n <= ceil_pow2(n),
        forall|p: int| #[trigger] is_pow2(p) && n <= p ==> ceil_pow2(n) <= p,
    decreases n,
{
    reveal(is_pow2);
    if n > 1 {
        law_ceil_pow2_is_least((n + 1) / 2);
        let half = ceil_pow2((n + 1) / 2);
        assert((2 * half) / 2 == half);
        assert forall|p: int| #[trigger] is_pow2(p) && n <= p implies ceil_pow2(n) <= p by {
            assert(is_pow2(p / 2));
        }
    }
}

/// A power of two that is not below `n`, but whose half is, is `ceil_pow2(n)`.
pub(crate) proof fn lemma_ceil_pow2_unique(n: nat, r: nat)
    requires
        is_pow2(r as int),
        n <= r,
        r == 1 || r < 2 * n,
    ensures
        r == ceil_pow2(n),
    decreases n,
{
    reveal(is_pow2);
    if n > 1 {
        lemma_ceil_pow2_unique((n + 1) / 2, r / 2);
    }
}

/// Doubling a power of two gives a power of two.
pub(crate) proof fn lemma_pow2_double(n: int)
    requires
        is_pow2(n),
    ensures
        is_pow2(2 * n),
        n > 0,
{
    reveal(is_pow2);
    assert((2 * n) / 2 == n);
}

/// A power of two is `pow2(e)` for some exponent `e`.
pub(crate) proof fn lemma_pow2_exponent(n: int) -> (e: nat)
    requires
        is_pow2(n),
    ensures
        n == pow2(e),
{
    is_pow2_equiv(n);
    reveal(is_pow2);
    choose|i: nat| vstd::arithmetic::power::pow(2, i) == n
}

/// `pow2(e)` is a power of two.
pub(crate) proof fn lemma_is_pow2(e: nat)
    ensures
        is_pow2(pow2(e) as int),
{
    lemma_pow2_pos(e);
    is_pow2_equiv(pow2(e) as int);
    assert(vstd::arithmetic::power::pow(2, e) == pow2(e)) by {
        vstd::arithmetic::power::lemma_pow_positive(2, e);
    }
}

/// The exponent of a power of two below `2^m` is below `m`.
pub(crate) proof fn lemma_exponent_bound(e: nat, m: nat)
    requires
        pow2(e) < pow2(m),
    ensures
        e < m,
{
    if e > m {
        lemma_pow2_strictly_increases(m, e);
    }
}

/// From the fifth on, powers of two are more than five times their exponents.
pub(crate) proof fn lemma_pow2_outgrows(e: nat)
    requires
        e >= 5,
    ensures
        pow2(e) > 5 * e,
    decreases e,
{
    lemma2_to64();
    if e > 5 {
        lemma_pow2_outgrows((e - 1) as nat);
        lemma_pow2_unfold(e);
    }
}

/// The larger of two powers of two is a multiple of the smaller one.
pub(crate) proof fn lemma_pow2_divides(a: int, b: int)
    requires
        is_pow2(a),
        is_pow2(b),
        a <= b,
    ensures
        b % a == 0,
        is_pow2(b / a),
        b / a * a == b,
{
    let i = lemma_pow2_exponent(a);
    let j = lemma_pow2_exponent(b);
    lemma_pow2_pos(i);
    if i > j {
        lemma_pow2_strictly_increases(j, i);
    }
    lemma_pow2_adds(i, (j - i) as nat);
    let q = pow2((j - i) as nat) as int;
    assert(b == q * a) by (nonlinear_arith)
        requires
            b == a * q,
    ;
    vstd::arithmetic::div_mod::lemma_mod_multiples_basic(q, a);
    vstd::arithmetic::div_mod::lemma_div_by_multiple(q, a);
    lemma_is_pow2((j - i) as nat);
}

/// The least power of two that is not below `n`.
pub fn next_power_of_two(n: u32) -> (r: u32)
    requires
        n <= 0x8000_0000,
    ensures
        r == ceil_pow2(n as nat),
        is_pow2(r as int),
{
    let mut r: u32 = 1;
    proof {
        reveal(is_pow2);
    }
    while r < n
        invariant
            n <= 0x8000_0000,
            is_pow2(r as int),
            r == 1 || r < 2 * n,
            r <= 0x8000_0000,
        decreases 0x8000_0000 - r,
    {
        proof {
            lemma_pow2_double(r as int);
            lemma_half_limit(r);
        }
        r = r * 2;
    }
    proof {
        lemma_ceil_pow2_unique(n as nat, r as nat);
    }
    r
}

/// A power of two that fits 32 bits is at most `2^31`.
pub(crate) proof fn lemma_u32_limit(n: u32)
    requires
        is_pow2(n as int),
    ensures
        n <= 0x8000_0000,
{
    let e = lemma_pow2_exponent(n as int);
    lemma2_to64();
    lemma_exponent_bound(e, 32);
    if e < 31 {
        lemma_pow2_strictly_increases(e, 31);
    }
}

/// A power of two below `2^31` is at most `2^30`.
pub(crate) proof fn lemma_half_limit(r: u32)
    requires
        is_pow2(r as int),
        r < 0x8000_0000,
    ensures
        r <= 0x4000_0000,
{
    let e = lemma_pow2_exponent(r as int);
    lemma2_to64();
    lemma_exponent_bound(e, 31);
    if e < 30 {
        lemma_pow2_strictly_increases(e, 30);
    }
}

} // verus!
