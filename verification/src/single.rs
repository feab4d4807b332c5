//! Single-precision arithmetic on integers.
//!
//! The pixel arithmetic of this crate is that of 32-bit binary floating point:
//! every result is rounded to 24 significant bits, halves to the even
//! neighbour. Here a number is an integer count of some power of two, fine
//! enough for every operand to be whole, and `single` is that rounding.

use vstd::prelude::*;

verus! {

/// The spacing of single-precision numbers at `n`: the least power of two of
/// which `n` holds fewer than 2^24.
pub open spec fn spacing(n: nat) -> nat
    decreases n,
{
    if n < 0x100_0000 {
        1
    } else {
        2 * spacing(n / 2)
    }
}

/// `n` rounded to the nearest multiple of the spacing, halves to the even one.
pub open spec fn single(n: nat) -> nat {
    let u = spacing(n);
    let q = n / u;
    let r = n % u;
    if 2 * r < u || (2 * r == u && q % 2 == 0) {
        q * u
    } else {
        (q + 1) * u
    }
}

/// The spacing is positive, and small beside any number that it rounds.
pub proof fn lemma_spacing(n: nat)
    ensures
        spacing(n) >= 1,
        n < 0x100_0000 ==> spacing(n) == 1,
        n >= 0x100_0000 ==> spacing(n) * 0x80_0000 <= n,
        n >= 0x100_0000 ==> spacing(n) % 2 == 0,
    decreases n,
{
    if n >= 0x100_0000 {
        lemma_spacing(n / 2);
    }
}

/// Rounding keeps small integers and moves others by no more than one part in
/// 2^24.
pub proof fn lemma_single(n: nat)
    ensures
        n < 0x100_0000 ==> single(n) == n,
        single(n) * 0x100_0000 <= n * 0x100_0001,
        single(n) * 0x100_0000 >= n * 0xff_ffff,
{
    lemma_spacing(n);
    let u = spacing(n);
    let q = n / u;
    let r = n % u;
    vstd::arithmetic::div_mod::lemma_fundamental_div_mod(n as int, u as int);
    assert(n == u * q + r && 0 <= r < u);
    assert((q + 1) * u == u * q + u && q * u == u * q) by (nonlinear_arith);
    if n < 0x100_0000 {
        assert(n / 1 == n);
    }
}

/// The spacing divides every power of two that is large enough beside the
/// number, and 24 bits of it reach beyond the number.
proof fn lemma_spacing_divides(n: nat, e: nat) -> (k: nat)
    requires
        n < 0x100_0000 * vstd::arithmetic::power2::pow2(e),
    ensures
        vstd::arithmetic::power2::pow2(e) == k * spacing(n),
        n < 0x100_0000 * spacing(n),
    decreases e,
{
    if n < 0x100_0000 {
        let k = vstd::arithmetic::power2::pow2(e);
        assert(k * 1 == k) by (nonlinear_arith);
        k
    } else {
        if e == 0 {
            vstd::arithmetic::power2::lemma2_to64();
        }
        vstd::arithmetic::power2::lemma_pow2_unfold(e);
        let k = lemma_spacing_divides(n / 2, (e - 1) as nat);
        let u = spacing(n / 2);
        assert(spacing(n) == 2 * u);
        assert(2 * (k * u) == k * (2 * u)) by (nonlinear_arith);
        k
    }
}

/// Below 2^48 rounding moves a number up by no more than half the spacing, and
/// up to every multiple of 2^24 that is less than that away.
pub proof fn lemma_rounding(n: nat, k: int)
    requires
        n < 0x1_0000_0000_0000,
        2 * (k * 0x100_0000 - n) < spacing(n),
    ensures
        n < 0x100_0000 * spacing(n),
        spacing(n) <= 0x100_0000,
        2 * single(n) <= 2 * n + spacing(n),
        single(n) >= k * 0x100_0000,
{
    vstd::arithmetic::power2::lemma2_to64();
    let c = lemma_spacing_divides(n, 24);
    lemma_spacing(n);
    let u = spacing(n);
    let q = n / u;
    let r = n % u;
    vstd::arithmetic::div_mod::lemma_fundamental_div_mod(n as int, u as int);
    assert(n == u * q + r && 0 <= r < u);
    assert((q + 1) * u == u * q + u && q * u == u * q) by (nonlinear_arith);
    assert(u <= 0x100_0000) by (nonlinear_arith)
        requires
            c * u == 0x100_0000,
            u >= 1,
            c >= 0,
    ;
    let b = if single(n) == q * u {
        q
    } else {
        q + 1
    };
    assert(single(n) == b * u);
    assert(b >= k * c) by (nonlinear_arith)
        requires
            2 * (k * 0x100_0000 - n) < u,
            2 * n <= 2 * (b * u) + u,
            c * u == 0x100_0000,
            u >= 1,
    ;
    assert(b * u >= k * 0x100_0000) by (nonlinear_arith)
        requires
            b >= k * c,
            c * u == 0x100_0000,
            u >= 1,
    ;
}

/// `n` in single precision.
pub fn round_single(n: u128) -> (s: u128)
    requires
        n < 0x100_0000_0000_0000_0000_0000_0000_0000,
    ensures
        s == single(n as nat),
{
    let mut m: u128 = n;
    let mut u: u128 = 1;
    while m >= 0x100_0000
        invariant
            n < 0x100_0000_0000_0000_0000_0000_0000_0000,
            u >= 1,
            u * m <= n,
            spacing(n as nat) == u * spacing(m as nat),
        decreases m,
    {
        assert(spacing(m as nat) == 2 * spacing((m / 2) as nat));
        assert(u * 2 <= n && (2 * u) * (m / 2) <= n) by (nonlinear_arith)
            requires
                u * m <= n,
                m >= 2,
                u >= 1,
        ;
        assert(u * (2 * spacing((m / 2) as nat)) == (2 * u) * spacing((m / 2) as nat)) by (nonlinear_arith);
        m = m / 2;
        u = u * 2;
    }
    assert(u * 1 == u);
    assert(u == spacing(n as nat));
    let q: u128 = n / u;
    let r: u128 = n % u;
    proof {
        lemma_spacing(n as nat);
        vstd::arithmetic::div_mod::lemma_fundamental_div_mod(n as int, u as int);
        assert((q + 1) * u == u * q + u && q * u == u * q) by (nonlinear_arith);
        assert(q <= n) by (nonlinear_arith)
            requires
                n >= u * q,
                u >= 1,
                q >= 0,
        ;
        assert(u <= n || u == 1);
    }
    if 2 * r < u || (2 * r == u && q % 2 == 0) {
        q * u
    } else {
        (q + 1) * u
    }
}

/// The integer part of the square root.
pub open spec fn floor_sqrt(n: nat) -> nat {
    choose|q: nat| #[trigger] (q * q) <= n < (q + 1) * (q + 1)
}

proof fn lemma_floor_sqrt(n: nat, q: nat)
    requires
        q * q <= n < (q + 1) * (q + 1),
    ensures
        floor_sqrt(n) == q,
{
    let p = floor_sqrt(n);
    assert(p * p <= n < (p + 1) * (p + 1));
    assert(p == q) by (nonlinear_arith)
        requires
            p * p <= n < (p + 1) * (p + 1),
            q * q <= n < (q + 1) * (q + 1),
            p >= 0,
            q >= 0,
    ;
}

/// The square root of `n` in single precision, as a count of 2^-33. The last
/// bit before rounding stands for whatever lies below it.
pub open spec fn single_sqrt(n: nat) -> nat {
    let s = n * 0x1_0000_0000_0000_0000;
    let q = floor_sqrt(s);
    single(
        (2 * q + if q * q == s {
            0nat
        } else {
            1
        }) as nat,
    )
}

/// The quotient `r / m` in single precision, as a count of 2^-41.
pub open spec fn single_quotient(r: nat, m: nat) -> nat {
    let t = r * 0x100_0000_0000;
    single(
        (2 * (t / m) + if t % m == 0 {
            0nat
        } else {
            1
        }) as nat,
    )
}

/// The root of 0 is 0.
pub proof fn lemma_root_of_zero()
    ensures
        single_sqrt(0) == 0,
{
    let q: nat = 0;
    assert(q * q == 0 && (q + 1) * (q + 1) == 1) by (nonlinear_arith)
        requires
            q == 0,
    ;
    lemma_floor_sqrt(0, q);
    lemma_single(0);
}

proof fn lemma_floor_sqrt_exists(n: nat) -> (q: nat)
    ensures
        q * q <= n < (q + 1) * (q + 1),
        floor_sqrt(n) == q,
    decreases n,
{
    let q: nat = if n == 0 {
        assert(0nat * 0nat == 0 && (0nat + 1) * (0nat + 1) == 1) by (nonlinear_arith);
        0
    } else {
        let p = lemma_floor_sqrt_exists((n - 1) as nat);
        if n < (p + 1) * (p + 1) {
            p
        } else {
            assert((p + 1) * (p + 1) < (p + 2) * (p + 2)) by (nonlinear_arith);
            assert((p + 1 + 1) * (p + 1 + 1) == (p + 2) * (p + 2));
            p + 1
        }
    };
    lemma_floor_sqrt(n, q);
    q
}

/// The square of a root in single precision is the number to within one part in
/// 2^22.
pub proof fn lemma_single_sqrt(n: nat)
    ensures
        single_sqrt(n) * single_sqrt(n) * 0x40_0000 <= n * 0x4_0000_0000_0000_0000 * 0x40_0001,
        single_sqrt(n) * single_sqrt(n) * 0x40_0000 >= n * 0x4_0000_0000_0000_0000 * 0x3f_ffff,
{
    let r = single_sqrt(n);
    if n == 0 {
        lemma_root_of_zero();
        assert(r * r == 0) by (nonlinear_arith)
            requires
                r == 0,
        ;
    } else {
        let s = n * 0x1_0000_0000_0000_0000;
        let q = lemma_floor_sqrt_exists(s);
        let v = (2 * q + if q * q == s {
            0nat
        } else {
            1
        }) as nat;
        assert(r == single(v));
        lemma_single(v);
        let sq = q * q;
        assert(q >= 0xffff_ffff) by (nonlinear_arith)
            requires
                s < (q + 1) * (q + 1),
                s >= 0x1_0000_0000_0000_0000,
                q >= 0,
        ;
        assert(sq >= 0xffff_ffff * q) by (nonlinear_arith)
            requires
                sq == q * q,
                q >= 0xffff_ffff,
        ;
        assert((q + 1) * (q + 1) == sq + 2 * q + 1) by (nonlinear_arith)
            requires
                sq == q * q,
        ;
        let vv = v * v;
        assert(vv == 4 * sq || vv == 4 * sq + 4 * q + 1) by (nonlinear_arith)
            requires
                sq == q * q,
                v == 2 * q || v == 2 * q + 1,
                vv == v * v,
        ;
        if v == 2 * q {
            assert(vv == 4 * sq) by (nonlinear_arith)
                requires
                    sq == q * q,
                    v == 2 * q,
                    vv == v * v,
            ;
        }
        // Four times s is n as a count of 2^-66; vv is within one part in 2^31.
        assert(vv * 0x7fff_ffff <= 4 * s * 0x8000_0000);
        assert(4 * s * 0x7fff_ffff <= vv * 0x8000_0000);
        let rr = r * r;
        assert(rr * 0x1_0000_0000_0000 <= vv * 0x1_0000_0200_0001) by (nonlinear_arith)
            requires
                r * 0x100_0000 <= v * 0x100_0001,
                r >= 0,
                v >= 0,
                rr == r * r,
                vv == v * v,
        ;
        assert(rr * 0x1_0000_0000_0000 >= vv * 0xffff_fe00_0001) by (nonlinear_arith)
            requires
                r * 0x100_0000 >= v * 0xff_ffff,
                r >= 0,
                v >= 0,
                rr == r * r,
                vv == v * v,
        ;
        assert(rr * 0x40_0000 <= 4 * s * 0x40_0001);
        assert(rr * 0x40_0000 >= 4 * s * 0x3f_ffff);
    }
}

/// The square root of `n` in single precision, as a count of 2^-33.
pub fn sqrt_single(n: u64) -> (s: u64)
    requires
        n <= 0x3f_ffff,
    ensures
        s == single_sqrt(n as nat),
        s <= 0x1001_0000_0000,
        s == 0 <==> n == 0,
{
    let t: u128 = (n as u128) * 0x1_0000_0000_0000_0000;
    let mut lo: u128 = 0;
    let mut hi: u128 = 0x800_0000_0000;
    assert(0x800_0000_0000 * 0x800_0000_0000 == 0x40_0000_0000_0000_0000_0000) by (nonlinear_arith);
    while hi - lo > 1
        invariant
            lo < hi <= 0x800_0000_0000,
            lo * lo <= t < hi * hi,
        decreases hi - lo,
    {
        let mid: u128 = lo + (hi - lo) / 2;
        assert(mid * mid <= 0x40_0000_0000_0000_0000_0000) by (nonlinear_arith)
            requires
                0 <= mid <= 0x800_0000_0000,
        ;
        if mid * mid <= t {
            lo = mid;
        } else {
            hi = mid;
        }
    }
    assert(hi == lo + 1);
    assert(lo * lo <= 0x40_0000_0000_0000_0000_0000) by (nonlinear_arith)
        requires
            0 <= lo <= 0x800_0000_0000,
    ;
    proof {
        lemma_floor_sqrt(t as nat, lo as nat);
    }
    let rest: u128 = if lo * lo == t { 0 } else { 1 };
    let s: u128 = round_single(2 * lo + rest);
    proof {
        lemma_single((2 * lo + rest) as nat);
        if n > 0 {
            assert(lo > 0) by {
                if lo == 0 {
                    assert(t < 1);
                }
            }
        } else {
            assert(lo == 0) by (nonlinear_arith)
                requires
                    lo * lo <= 0,
                    lo >= 0,
            ;
        }
    }
    s as u64
}

/// The quotient of two counts in single precision, as a count of 2^-41.
pub fn div_single(r: u64, m: u64) -> (s: u64)
    requires
        0 < m,
        r <= m <= 0x1001_0000_0000,
    ensures
        s == single_quotient(r as nat, m as nat),
        s <= 0x200_0010_0000,
{
    let t: u128 = (r as u128) * 0x100_0000_0000;
    let d: u128 = m as u128;
    proof {
        vstd::arithmetic::div_mod::lemma_fundamental_div_mod(t as int, d as int);
        assert(t / d <= 0x100_0000_0000) by (nonlinear_arith)
            requires
                t == d * (t / d) + t % d,
                t % d >= 0,
                t <= d * 0x100_0000_0000,
                d > 0,
        ;
    }
    let rest: u128 = if t % d == 0 { 0 } else { 1 };
    let s: u128 = round_single(2 * (t / d) + rest);
    proof {
        lemma_single((2 * (t / d) + rest) as nat);
    }
    s as u64
}

/// The spacing of the numbers from 2^40 to 2^42.
proof fn lemma_spacing_at_40(n: nat)
    requires
        0x100_0000_0000 <= n < 0x400_0000_0000,
    ensures
        n < 0x200_0000_0000 ==> spacing(n) == 0x2_0000,
        n >= 0x200_0000_0000 ==> spacing(n) == 0x4_0000,
{
    reveal_with_fuel(spacing, 19);
}

/// A running single-precision sum of terms below 2^16 never gets past 2^42: by
/// then a term is too small to change it.
pub proof fn lemma_running_sum(sum: nat, term: nat)
    requires
        sum < 0x400_0000_0000,
        sum >= 0x200_0000_0000 ==> sum % 0x4_0000 == 0,
        term < 0x1_0000,
    ensures
        single(sum + term) < 0x400_0000_0000,
        single(sum + term) >= 0x200_0000_0000 ==> single(sum + term) % 0x4_0000 == 0,
{
    let n = sum + term;
    lemma_single(n);
    if n >= 0x100_0000_0000 {
        assert(n < 0x400_0000_0000);
        lemma_spacing_at_40(n);
    }
}

} // verus!
