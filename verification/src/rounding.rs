//! Rounding of natural numbers to the nearest value with a given number of
//! significant bits, ties to even: the rounding of IEEE 754 arithmetic,
//! stated and carried out on integers.

use vstd::arithmetic::div_mod::*;
use vstd::arithmetic::mul::*;
use vstd::arithmetic::power2::*;
use vstd::prelude::*;

verus! {

/// The integer nearest to `n / d`; of two that are equally near, the even one.
pub open spec fn nearest_even(n: nat, d: nat) -> nat {
    let q = n / d;
    let r = n % d;
    if 2 * r > d || (2 * r == d && q % 2 == 1) {
        q + 1
    } else {
        q
    }
}

/// The number of binary digits of `n`; none for zero.
pub open spec fn bit_len(n: nat) -> nat
    decreases n,
{
    if n == 0 {
        0
    } else {
        1 + bit_len(n / 2)
    }
}

/// The weight of the last digit that is kept when `n` is rounded to `p`
/// significant bits.
pub open spec fn unit(n: nat, p: nat) -> nat {
    if bit_len(n) <= p {
        1
    } else {
        pow2((bit_len(n) - p) as nat)
    }
}

/// `n / d` rounded to `p` significant bits, or to a whole number where `p`
/// bits would reach below the binary point.
pub open spec fn round_quotient(n: nat, d: nat, p: nat) -> nat {
    nearest_even(n, d * unit(n / d, p)) * unit(n / d, p)
}

/// `n` rounded to `p` significant bits.
pub open spec fn round_bits(n: nat, p: nat) -> nat {
    nearest_even(n, unit(n, p)) * unit(n, p)
}

/// The largest number of `p` significant bits that is at most `n`.
pub open spec fn round_down(n: nat, p: nat) -> nat {
    (n / unit(n, p)) * unit(n, p)
}

/// The smallest number of `p` significant bits that is at least `n`.
pub open spec fn round_up(n: nat, p: nat) -> nat {
    if n % unit(n, p) == 0 {
        n
    } else {
        (n / unit(n, p) + 1) * unit(n, p)
    }
}

/// Of the numbers of `p` significant bits from `lo` to `hi`, the one nearest to
/// `n`, which lies there itself.
pub open spec fn round_within(n: nat, lo: nat, hi: nat, p: nat) -> nat {
    if round_bits(n, p) < round_up(lo, p) {
        round_up(lo, p)
    } else if round_bits(n, p) > round_down(hi, p) {
        round_down(hi, p)
    } else {
        round_bits(n, p)
    }
}

// ---------------------------------------------------------------------------
// Quotients

/// The quotient and the remainder are the only pair of their kind.
pub(crate) proof fn lemma_quotient(n: nat, d: nat, q: nat, r: nat)
    requires
        n == q * d + r,
        r < d,
    ensures
        n / d == q,
        n % d == r,
{
    lemma_fundamental_div_mod_converse(n as int, d as int, q as int, r as int);
}

/// Rounding a quotient does not depend on a common factor.
pub(crate) proof fn lemma_nearest_even_scale(n: nat, d: nat, k: nat)
    requires
        d > 0,
        k > 0,
    ensures
        nearest_even(n * k, d * k) == nearest_even(n, d),
{
    let q = n / d;
    let r = n % d;
    lemma_fundamental_div_mod(n as int, d as int);
    assert(n * k == q * (d * k) + r * k) by (nonlinear_arith)
        requires
            n == d * q + r,
    ;
    assert(r * k < d * k) by (nonlinear_arith)
        requires
            r < d,
            k > 0,
    ;
    lemma_quotient(n * k, d * k, q, r * k);
    assert(2 * (r * k) > d * k <==> 2 * r > d) by (nonlinear_arith)
        requires
            k > 0,
    ;
    assert(2 * (r * k) == d * k <==> 2 * r == d) by (nonlinear_arith)
        requires
            k > 0,
    ;
}

/// A multiple of the divisor is rounded to itself.
pub(crate) proof fn lemma_nearest_even_exact(q: nat, d: nat)
    requires
        d > 0,
    ensures
        nearest_even(q * d, d) == q,
{
    lemma_quotient(q * d, d, q, 0);
}

/// Rounding never passes a whole number that bounds the quotient.
pub(crate) proof fn lemma_nearest_even_at_most(n: nat, d: nat, m: nat)
    requires
        d > 0,
        n <= m * d,
    ensures
        nearest_even(n, d) <= m,
{
    let q = n / d;
    let r = n % d;
    lemma_fundamental_div_mod(n as int, d as int);
    if q >= m {
        assert(q == m && r == 0) by (nonlinear_arith)
            requires
                n == d * q + r,
                n <= m * d,
                q >= m,
                d > 0,
        ;
    }
}

// ---------------------------------------------------------------------------
// Binary digits

pub(crate) proof fn lemma_bit_len_bounds(n: nat)
    requires
        n > 0,
    ensures
        bit_len(n) > 0,
        pow2((bit_len(n) - 1) as nat) <= n < pow2(bit_len(n)),
    decreases n,
{
    let l = bit_len(n);
    if n == 1 {
        assert(bit_len(0) == 0);
        lemma2_to64();
    } else {
        lemma_bit_len_bounds(n / 2);
        lemma_pow2_unfold(l);
        lemma_pow2_unfold((l - 1) as nat);
    }
}

pub(crate) proof fn lemma_bit_len_unique(n: nat, k: nat)
    requires
        pow2(k) <= n < pow2(k + 1),
    ensures
        bit_len(n) == k + 1,
{
    lemma_pow2_pos(k);
    lemma_bit_len_bounds(n);
    let l = bit_len(n);
    if l > k + 1 {
        if l - 1 > k + 1 {
            lemma_pow2_strictly_increases(k + 1, (l - 1) as nat);
        }
    } else if l < k + 1 {
        if l < k {
            lemma_pow2_strictly_increases(l, k);
        }
    }
}

pub(crate) proof fn lemma_bit_len_at_most(n: nat, k: nat)
    requires
        n < pow2(k),
    ensures
        bit_len(n) <= k,
{
    if n > 0 {
        lemma_bit_len_bounds(n);
        let l = bit_len(n);
        if l > k && l - 1 > k {
            lemma_pow2_strictly_increases(k, (l - 1) as nat);
        }
    }
}

pub(crate) proof fn lemma_bit_len_ordered(a: nat, b: nat)
    requires
        a <= b,
    ensures
        bit_len(a) <= bit_len(b),
{
    if b > 0 {
        lemma_bit_len_bounds(b);
        lemma_bit_len_at_most(a, bit_len(b));
    }
}

pub(crate) proof fn lemma_bit_len_shift(n: nat, e: nat)
    requires
        n > 0,
    ensures
        bit_len(n * pow2(e)) == bit_len(n) + e,
{
    let l = bit_len(n);
    lemma_bit_len_bounds(n);
    lemma_pow2_pos(e);
    lemma_pow2_adds((l - 1) as nat, e);
    lemma_pow2_adds(l, e);
    let (a, b, p) = (pow2((l - 1) as nat), pow2(l), pow2(e));
    assert(a * p <= n * p < b * p) by (nonlinear_arith)
        requires
            a <= n < b,
            p > 0,
    ;
    lemma_bit_len_unique(n * p, (l - 1 + e) as nat);
}

// ---------------------------------------------------------------------------
// Rounding to significant bits

pub(crate) proof fn lemma_unit_pos(n: nat, p: nat)
    ensures
        unit(n, p) > 0,
{
    if bit_len(n) > p {
        lemma_pow2_pos((bit_len(n) - p) as nat);
    }
}

/// Rounding does not depend on the position of the binary point.
pub(crate) proof fn lemma_round_bits_scale(n: nat, e: nat, p: nat)
    ensures
        round_bits(n * pow2(e), p) == round_bits(n, p) * pow2(e),
{
    let k = pow2(e);
    lemma_pow2_pos(e);
    if n == 0 {
        assert(n * k == 0) by (nonlinear_arith)
            requires
                n == 0,
        ;
        lemma_nearest_even_exact(0, 1);
        assert(bit_len(0) == 0);
    } else {
        let l = bit_len(n);
        lemma_bit_len_shift(n, e);
        let u = unit(n, p);
        let v = unit(n * k, p);
        lemma_unit_pos(n, p);
        lemma_unit_pos(n * k, p);
        if l > p {
            lemma_pow2_adds((l - p) as nat, e);
            assert(v == u * k);
            lemma_nearest_even_scale(n, u, k);
            let m = nearest_even(n, u);
            assert(m * (u * k) == m * u * k) by (nonlinear_arith);
        } else {
            assert(n * 1 == n);
            lemma_nearest_even_exact(n, 1);
            if l + e > p {
                lemma_pow2_adds((l + e - p) as nat, (p - l) as nat);
                let w = pow2((p - l) as nat);
                assert(k == v * w);
                assert(n * k == (n * w) * v) by (nonlinear_arith)
                    requires
                        k == v * w,
                ;
                lemma_nearest_even_exact(n * w, v);
            } else {
                lemma_nearest_even_exact(n * k, 1);
            }
        }
    }
}

/// A number of at most `p` significant bits is rounded to itself.
pub(crate) proof fn lemma_round_bits_exact(m: nat, e: nat, p: nat)
    requires
        m <= pow2(p),
        p > 0,
    ensures
        round_bits(m * pow2(e), p) == m * pow2(e),
{
    lemma_round_bits_scale(m, e, p);
    if m < pow2(p) {
        lemma_bit_len_at_most(m, p);
        lemma_nearest_even_exact(m, 1);
    } else {
        lemma_round_bits_scale(1, p, p);
        assert(bit_len(1) == 1) by {
            reveal_with_fuel(bit_len, 2);
        }
        lemma_nearest_even_exact(1, 1);
        assert(1 * pow2(p) == pow2(p));
    }
}

/// Rounding never passes a power of two.
pub(crate) proof fn lemma_round_bits_at_most_power(n: nat, k: nat, p: nat)
    requires
        n <= pow2(k),
        p > 0,
    ensures
        round_bits(n, p) <= pow2(k),
{
    if n == pow2(k) {
        lemma_pow2_pos(p);
        lemma_round_bits_exact(1, k, p);
        assert(1 * pow2(k) == pow2(k));
    } else if bit_len(n) <= p {
        lemma_nearest_even_exact(n, 1);
    } else {
        let l = bit_len(n);
        let u = unit(n, p);
        let full = pow2(p);
        lemma_unit_pos(n, p);
        lemma_bit_len_bounds(n);
        lemma_bit_len_at_most(n, k);
        lemma_pow2_adds(p, (l - p) as nat);
        lemma_nearest_even_at_most(n, u, full);
        assert(nearest_even(n, u) * u <= full * u) by (nonlinear_arith)
            requires
                nearest_even(n, u) <= full,
        ;
        if l < k {
            lemma_pow2_strictly_increases(l, k);
        }
    }
}

/// A number whose distance from a power of two is at most a quarter of the
/// spacing above it is rounded to that power.
pub(crate) proof fn lemma_round_bits_near_power(k: nat, x: nat, p: nat)
    requires
        p > 1,
        k > p,
        x <= pow2((k - p - 1) as nat),
    ensures
        round_bits(pow2(k) + x, p) == pow2(k),
        round_bits((pow2(k) - x) as nat, p) == pow2(k),
{
    let h = pow2((k - p - 1) as nat);
    lemma_pow2_pos((k - p - 1) as nat);
    lemma_pow2_unfold((k - p) as nat);
    lemma_pow2_unfold((k - p + 1) as nat);
    lemma_pow2_adds((k - p) as nat, p);
    lemma_pow2_adds((k - p + 1) as nat, (p - 1) as nat);
    lemma_pow2_unfold(p);
    lemma_pow2_unfold((p - 1) as nat);
    lemma_pow2_pos((p - 2) as nat);
    let u = pow2((k - p) as nat);
    let v = pow2((k - p + 1) as nat);
    let half = pow2((p - 1) as nat);
    let full = pow2(p);
    assert(u == 2 * h && v == 4 * h);
    assert(full == 2 * half && half % 2 == 0 && full >= 4);
    assert(pow2(k) == u * full && pow2(k) == v * half);
    // From above: the quotient is exact up to a remainder below the half.
    lemma_pow2_unfold(k + 1);
    assert(pow2(k) >= 8 * h) by (nonlinear_arith)
        requires
            pow2(k) == u * full,
            u == 2 * h,
            full >= 4,
    ;
    lemma_bit_len_unique(pow2(k) + x, k);
    assert(pow2(k) + x == half * v + x) by (nonlinear_arith)
        requires
            pow2(k) == v * half,
    ;
    lemma_quotient(pow2(k) + x, v, half, x);
    assert(half * v == v * half) by (nonlinear_arith);
    // From below.
    if x == 0 {
    } else {
        lemma_pow2_unfold(k);
        lemma_bit_len_unique((pow2(k) - x) as nat, (k - 1) as nat);
        assert(pow2(k) - x == (full - 1) * u + (u - x)) by (nonlinear_arith)
            requires
                pow2(k) == u * full,
        ;
        lemma_quotient((pow2(k) - x) as nat, u, (full - 1) as nat, (u - x) as nat);
        assert(full * u == u * full) by (nonlinear_arith);
    }
}

/// Digits that are dropped in any case count only by whether one of them is
/// set: a long tail can be replaced by a single digit.
pub(crate) proof fn lemma_round_bits_tail(n: nat, tail: nat, e: nat, p: nat)
    requires
        tail < pow2(e),
        e > 0,
        bit_len(n) > p + 1,
    ensures
        round_bits(n * pow2(e) + tail, p) == round_bits(
            2 * n + (if tail > 0 {
                1nat
            } else {
                0nat
            }),
            p,
        ) * pow2((e - 1) as nat),
{
    let b: nat = if tail > 0 {
        1
    } else {
        0
    };
    let l = bit_len(n);
    let k = pow2((e - 1) as nat);
    lemma_pow2_pos((e - 1) as nat);
    lemma_pow2_unfold(e);
    assert(pow2(e) == 2 * k);
    assert(n > 0);
    lemma_bit_len_bounds(n);
    // The two numbers have the digits of `n` in front.
    lemma_pow2_unfold(l + 1);
    lemma_pow2_unfold(l);
    lemma_bit_len_unique(2 * n + b, l);
    let long = n * pow2(e) + tail;
    lemma_pow2_adds((l - 1) as nat, e);
    lemma_pow2_adds(l, e);
    let (lo, hi, w) = (pow2((l - 1) as nat), pow2(l), pow2(e));
    assert(lo * w <= n * w + tail < hi * w) by (nonlinear_arith)
        requires
            lo <= n,
            n + 1 <= hi,
            tail < w,
    ;
    lemma_bit_len_unique(long, (l - 1 + e) as nat);
    // The dividing weights differ by the factor `k`.
    let d = pow2((l + 1 - p) as nat);
    lemma_pow2_adds((l + 1 - p) as nat, (e - 1) as nat);
    assert(unit(2 * n + b, p) == d);
    assert(unit(long, p) == d * k);
    lemma_pow2_unfold((l + 1 - p) as nat);
    lemma_pow2_unfold((l - p) as nat);
    let g = pow2((l - p - 1) as nat);
    lemma_pow2_pos((l - p - 1) as nat);
    assert(d == 4 * g);
    let q = (2 * n) / d;
    let r = (2 * n) % d;
    lemma_fundamental_div_mod((2 * n) as int, d as int);
    let m = (n - q * (2 * g)) as int;
    assert(r == 2 * m) by (nonlinear_arith)
        requires
            2 * n == d * q + r,
            d == 4 * g,
            m == n - q * (2 * g),
    ;
    assert(r % 2 == 0);
    assert(r + 2 <= d);
    assert(2 * n + b == q * d + (r + b)) by (nonlinear_arith)
        requires
            2 * n == d * q + r,
    ;
    lemma_quotient(2 * n + b, d, q, r + b);
    assert(long == q * (d * k) + (r * k + tail)) by (nonlinear_arith)
        requires
            long == n * (2 * k) + tail,
            2 * n == d * q + r,
    ;
    assert(r * k + tail < d * k) by (nonlinear_arith)
        requires
            r + 2 <= d,
            tail < 2 * k,
    ;
    lemma_quotient(long, d * k, q, r * k + tail);
    // Both remainders stand on the same side of the half.
    if r < 2 * g {
        assert(r + 2 <= 2 * g);
        assert(2 * (r * k + tail) < d * k) by (nonlinear_arith)
            requires
                r + 2 <= 2 * g,
                d == 4 * g,
                tail < 2 * k,
        ;
    } else if r == 2 * g {
        assert(2 * (r * k + tail) == d * k + 2 * tail) by (nonlinear_arith)
            requires
                r == 2 * g,
                d == 4 * g,
        ;
    } else {
        assert(2 * (r * k + tail) > d * k) by (nonlinear_arith)
            requires
                r > 2 * g,
                d == 4 * g,
                k > 0,
        ;
    }
    let z = nearest_even(long, d * k);
    assert(z * (d * k) == z * d * k) by (nonlinear_arith);
}

/// Rounding a quotient moves it by at most a half.
pub(crate) proof fn lemma_nearest_even_error(n: nat, d: nat)
    requires
        d > 0,
    ensures
        2 * (nearest_even(n, d) * d) <= 2 * n + d,
        2 * (nearest_even(n, d) * d) + d >= 2 * n,
{
    let q = n / d;
    let r = n % d;
    lemma_fundamental_div_mod(n as int, d as int);
    lemma_mul_is_distributive_add(d as int, q as int, 1);
    lemma_mul_is_commutative(d as int, q as int);
    lemma_mul_is_commutative(d as int, (q + 1) as int);
}

/// Rounding a quotient to `p` significant bits moves it by at most one part in
/// two to the `p`, as long as it has `p` bits in front of the binary point.
pub(crate) proof fn lemma_round_quotient_error(n: nat, d: nat, p: nat)
    requires
        d > 0,
        p > 0,
        n == 0 || bit_len(n / d) >= p,
    ensures
        round_quotient(n, d, p) * d * pow2(p) <= n * pow2(p) + n,
        round_quotient(n, d, p) * d * pow2(p) + n >= n * pow2(p),
{
    let t = n / d;
    let u = unit(t, p);
    let w = pow2(p);
    let m = nearest_even(n, d * u);
    lemma_unit_pos(t, p);
    lemma_pow2_pos(p);
    assert(d * u > 0) by (nonlinear_arith)
        requires
            d > 0,
            u > 0,
    ;
    if n == 0 {
        lemma_quotient(0, d * u, 0, 0);
        assert(m == 0);
        assert(m * u * d * w == 0) by (nonlinear_arith)
            requires
                m == 0,
        ;
    } else {
        lemma_nearest_even_error(n, d * u);
        assert(m * (d * u) == m * u * d) by (nonlinear_arith);
        // The half of the kept digit's weight is at most one part in 2^p.
        lemma_fundamental_div_mod(n as int, d as int);
        assert(t * d <= n) by (nonlinear_arith)
            requires
                n == d * t + n % d,
                n % d >= 0,
        ;
        assert(t > 0);
        lemma_bit_len_bounds(t);
        let l = bit_len(t);
        lemma_pow2_unfold(l);
        assert(u * w <= 2 * t) by {
            if l > p {
                lemma_pow2_adds((l - p) as nat, p);
            } else {
                assert(u * w == w);
            }
        }
        assert((d * u) * w <= 2 * n) by (nonlinear_arith)
            requires
                u * w <= 2 * t,
                t * d <= n,
        ;
        let x = m * u * d;
        let e = d * u;
        assert(x * w <= n * w + n) by (nonlinear_arith)
            requires
                2 * x <= 2 * n + e,
                e * w <= 2 * n,
                w > 0,
        ;
        assert(x * w + n >= n * w) by (nonlinear_arith)
            requires
                2 * x + e >= 2 * n,
                e * w <= 2 * n,
                w > 0,
        ;
    }
}

/// Rounding to `p` significant bits moves a number by at most one part in two
/// to the `p`.
pub(crate) proof fn lemma_round_bits_error(n: nat, p: nat)
    requires
        p > 0,
    ensures
        round_bits(n, p) * pow2(p) <= n * pow2(p) + n,
        round_bits(n, p) * pow2(p) + n >= n * pow2(p),
{
    if bit_len(n) < p {
        lemma_nearest_even_exact(n, 1);
    } else {
        lemma_div_basics(n as int);
        assert(n / 1 == n);
        lemma_round_quotient_error(n, 1, p);
        assert(1 * unit(n, p) == unit(n, p));
        assert(round_bits(n, p) * 1 == round_bits(n, p));
    }
}

// ---------------------------------------------------------------------------
// Rounding in one direction, and within a range

/// Rounding down, to the nearest and up come in this order, and the outer two
/// hold the number between them.
pub(crate) proof fn lemma_round_order(n: nat, p: nat)
    ensures
        round_down(n, p) <= n <= round_up(n, p),
        round_bits(n, p) == round_down(n, p) || round_bits(n, p) == round_up(n, p),
        round_bits(n, p) == round_down(n, p) ==> n - round_down(n, p) <= round_up(n, p) - n || n
            == round_down(n, p),
        round_bits(n, p) == round_up(n, p) ==> round_up(n, p) - n <= n - round_down(n, p) || n
            == round_up(n, p),
{
    let u = unit(n, p);
    lemma_unit_pos(n, p);
    lemma_fundamental_div_mod(n as int, u as int);
    let (q, r) = (n / u, n % u);
    assert((q + 1) * u == q * u + u) by (nonlinear_arith);
    assert(u * q == q * u) by (nonlinear_arith);
}

/// Rounding in one direction does not depend on the position of the binary
/// point.
pub(crate) proof fn lemma_round_directed_scale(n: nat, e: nat, p: nat)
    ensures
        round_down(n * pow2(e), p) == round_down(n, p) * pow2(e),
        round_up(n * pow2(e), p) == round_up(n, p) * pow2(e),
{
    let k = pow2(e);
    lemma_pow2_pos(e);
    let (u, v) = (unit(n, p), unit(n * k, p));
    lemma_unit_pos(n, p);
    lemma_unit_pos(n * k, p);
    let l = bit_len(n);
    if n == 0 {
        assert(n * k == 0) by (nonlinear_arith)
            requires
                n == 0,
        ;
        lemma_quotient(0, u, 0, 0);
        assert(0 * u == 0 && 0 * k == 0);
    } else {
        lemma_bit_len_shift(n, e);
        if l > p {
            lemma_pow2_adds((l - p) as nat, e);
            assert(v == u * k);
            let (q, r) = (n / u, n % u);
            lemma_fundamental_div_mod(n as int, u as int);
            assert(n * k == q * (u * k) + r * k) by (nonlinear_arith)
                requires
                    n == u * q + r,
            ;
            assert(r * k < u * k && (r * k == 0 <==> r == 0)) by (nonlinear_arith)
                requires
                    r < u,
                    k > 0,
            ;
            lemma_quotient(n * k, u * k, q, r * k);
            assert(q * (u * k) == q * u * k && (q + 1) * (u * k) == (q + 1) * u * k)
                by (nonlinear_arith);
        } else {
            lemma_quotient(n, 1, n, 0);
            if l + e > p {
                lemma_pow2_adds((l + e - p) as nat, (p - l) as nat);
                let w = pow2((p - l) as nat);
                assert(n * k == (n * w) * v) by (nonlinear_arith)
                    requires
                        k == v * w,
                ;
                lemma_quotient(n * k, v, n * w, 0);
            } else {
                lemma_quotient(n * k, 1, n * k, 0);
            }
        }
    }
}

/// Rounding within a range does not depend on the position of the binary point.
pub(crate) proof fn lemma_round_within_scale(n: nat, lo: nat, hi: nat, e: nat, p: nat)
    ensures
        round_within(n * pow2(e), lo * pow2(e), hi * pow2(e), p) == round_within(n, lo, hi, p)
            * pow2(e),
{
    lemma_pow2_pos(e);
    lemma_round_bits_scale(n, e, p);
    lemma_round_directed_scale(lo, e, p);
    lemma_round_directed_scale(hi, e, p);
    let (r, a, b, k) = (round_bits(n, p), round_up(lo, p), round_down(hi, p), pow2(e));
    assert((r * k < a * k <==> r < a) && (r * k > b * k <==> r > b)) by (nonlinear_arith)
        requires
            k > 0,
    ;
}

/// Rounding up never passes a power of two.
pub(crate) proof fn lemma_round_up_at_most_power(n: nat, k: nat, p: nat)
    requires
        n <= pow2(k),
        p > 0,
    ensures
        round_up(n, p) <= pow2(k),
{
    let u = unit(n, p);
    lemma_unit_pos(n, p);
    lemma_fundamental_div_mod(n as int, u as int);
    if bit_len(n) <= p {
        lemma_quotient(n, 1, n, 0);
    } else {
        let l = bit_len(n);
        lemma_bit_len_bounds(n);
        if n == pow2(k) {
            lemma_pow2_unfold(k + 1);
            lemma_pow2_pos(k);
            lemma_bit_len_unique(n, k);
            lemma_pow2_adds((p - 1) as nat, (l - p) as nat);
            lemma_quotient(n, u, pow2((p - 1) as nat), 0);
        } else {
            lemma_bit_len_at_most(n, k);
            lemma_pow2_adds((k - l + p) as nat, (l - p) as nat);
            let (q, r, c) = (n / u, n % u, pow2((k - l + p) as nat));
            assert((q + 1) * u <= c * u) by (nonlinear_arith)
                requires
                    u * q + r < c * u,
                    r >= 0,
                    u > 0,
            ;
        }
    }
}

/// Rounding down never passes a power of two.
pub(crate) proof fn lemma_round_down_at_least_power(n: nat, k: nat, p: nat)
    requires
        pow2(k) <= n,
        p > 0,
    ensures
        round_down(n, p) >= pow2(k),
{
    let u = unit(n, p);
    let l = bit_len(n);
    lemma_pow2_pos(k);
    lemma_unit_pos(n, p);
    lemma_fundamental_div_mod(n as int, u as int);
    lemma_bit_len_bounds(n);
    if l <= p {
        lemma_quotient(n, 1, n, 0);
    } else {
        if l <= k {
            if l < k {
                lemma_pow2_strictly_increases(l, k);
            }
        } else if k < l - 1 {
            lemma_pow2_strictly_increases(k, (l - 1) as nat);
        }
        lemma_pow2_adds((p - 1) as nat, (l - p) as nat);
        let (q, r, c) = (n / u, n % u, pow2((p - 1) as nat));
        assert(q * u >= c * u) by (nonlinear_arith)
            requires
                u * q + r >= c * u,
                r < u,
                u > 0,
        ;
    }
}

/// A number just below a power of two is rounded up to it, and one just above
/// is rounded down to it.
pub(crate) proof fn lemma_round_directed_near_power(k: nat, x: nat, p: nat)
    requires
        p > 0,
        k > p,
        x < pow2((k - p) as nat),
    ensures
        x <= pow2(k),
        round_up((pow2(k) - x) as nat, p) == pow2(k),
        round_down(pow2(k) + x, p) == pow2(k),
{
    let (u, v) = (pow2((k - p) as nat), pow2((k - p + 1) as nat));
    let (half, full) = (pow2((p - 1) as nat), pow2(p));
    lemma_pow2_pos((p - 1) as nat);
    lemma_pow2_adds((k - p) as nat, p);
    lemma_pow2_adds((k - p + 1) as nat, (p - 1) as nat);
    lemma_pow2_unfold((k - p + 1) as nat);
    lemma_pow2_unfold(p);
    lemma_pow2_unfold(k);
    lemma_pow2_unfold(k + 1);
    assert(pow2(k) >= 2 * u) by (nonlinear_arith)
        requires
            pow2(k) == u * full,
            full == 2 * half,
            half >= 1,
    ;
    lemma_bit_len_unique(pow2(k) + x, k);
    assert(pow2(k) + x == half * v + x && half * v == pow2(k)) by (nonlinear_arith)
        requires
            pow2(k) == v * half,
    ;
    lemma_quotient(pow2(k) + x, v, half, x);
    let below = (pow2(k) - x) as nat;
    if x == 0 {
        lemma_round_up_at_most_power(below, k, p);
        lemma_round_order(below, p);
    } else {
        lemma_bit_len_unique(below, (k - 1) as nat);
        assert(below == (full - 1) * u + (u - x) && full * u == pow2(k)) by (nonlinear_arith)
            requires
                pow2(k) == u * full,
                below == pow2(k) - x,
        ;
        lemma_quotient(below, u, (full - 1) as nat, (u - x) as nat);
    }
}

/// Rounding within a range stays in it, where a power of two lies in it.
pub(crate) proof fn lemma_round_within_range(n: nat, lo: nat, hi: nat, k: nat, p: nat)
    requires
        lo <= pow2(k) <= hi,
        p > 0,
    ensures
        lo <= round_up(lo, p) <= round_within(n, lo, hi, p) <= round_down(hi, p) <= hi,
{
    lemma_round_up_at_most_power(lo, k, p);
    lemma_round_down_at_least_power(hi, k, p);
    lemma_round_order(lo, p);
    lemma_round_order(hi, p);
}

/// Rounding a quotient keeps the order.
pub(crate) proof fn lemma_nearest_even_ordered(a: nat, b: nat, d: nat)
    requires
        d > 0,
        a <= b,
    ensures
        nearest_even(a, d) <= nearest_even(b, d),
{
    lemma_fundamental_div_mod(a as int, d as int);
    lemma_fundamental_div_mod(b as int, d as int);
    lemma_div_is_ordered(a as int, b as int, d as int);
}

/// Rounding to significant bits keeps the order.
pub(crate) proof fn lemma_round_bits_ordered(a: nat, b: nat, p: nat)
    requires
        p > 0,
        a <= b,
    ensures
        round_bits(a, p) <= round_bits(b, p),
{
    if a == 0 {
        lemma_nearest_even_exact(0, 1);
    } else {
        let (la, lb) = (bit_len(a), bit_len(b));
        lemma_bit_len_bounds(a);
        lemma_bit_len_bounds(b);
        if la == lb {
            let u = unit(a, p);
            lemma_unit_pos(a, p);
            lemma_nearest_even_ordered(a, b, u);
            let (x, y) = (nearest_even(a, u), nearest_even(b, u));
            assert(x * u <= y * u) by (nonlinear_arith)
                requires
                    x <= y,
            ;
        } else {
            lemma_bit_len_at_most(a, lb);
            if la < lb - 1 {
                lemma_pow2_strictly_increases(la, (lb - 1) as nat);
            }
            lemma_round_bits_at_most_power(a, la, p);
            lemma_round_down_at_least_power(b, (lb - 1) as nat, p);
            lemma_round_order(b, p);
        }
    }
}

/// Rounding within a range keeps the order.
pub(crate) proof fn lemma_round_within_ordered(a: nat, b: nat, lo: nat, hi: nat, k: nat, p: nat)
    requires
        p > 0,
        a <= b,
        lo <= pow2(k) <= hi,
    ensures
        round_within(a, lo, hi, p) <= round_within(b, lo, hi, p),
{
    lemma_round_bits_ordered(a, b, p);
    lemma_round_within_range(a, lo, hi, k, p);
}

/// Where `n` has more than `p` binary digits, a number of `p` significant bits
/// with as many digits is a multiple of the last digit that is kept of `n`.
proof fn lemma_multiple_of_unit(n: nat, m: nat, e: nat, p: nat) -> (q: nat)
    requires
        p > 0,
        m <= pow2(p),
        bit_len(m * pow2(e)) == bit_len(n),
        bit_len(n) > p,
    ensures
        m * pow2(e) == q * unit(n, p),
{
    let l = bit_len(n);
    let x = m * pow2(e);
    if m == 0 {
        assert(x == 0) by (nonlinear_arith)
            requires
                x == m * pow2(e),
                m == 0,
        ;
    }
    lemma_bit_len_shift(m, e);
    if m == pow2(p) {
        lemma_pow2_unfold(p + 1);
        lemma_pow2_pos(p);
        lemma_bit_len_unique(m, p);
    } else {
        lemma_bit_len_at_most(m, p);
    }
    if l - p <= e {
        let d = (e - (l - p)) as nat;
        lemma_pow2_adds(d, (l - p) as nat);
        let (a, b) = (pow2(d), pow2((l - p) as nat));
        assert(m * (a * b) == (m * a) * b) by (nonlinear_arith);
        m * a
    } else {
        // Only the power of two itself has one digit more than is kept.
        assert(m == pow2(p) && l - p == e + 1);
        lemma_pow2_unfold(e + 1);
        lemma_pow2_unfold(p);
        let (h, w) = (pow2((p - 1) as nat), pow2(e));
        assert((2 * h) * w == h * (2 * w)) by (nonlinear_arith);
        h
    }
}

/// No number of `p` significant bits lies between `n` and what it is rounded
/// down or up to.
pub(crate) proof fn lemma_round_directed_tight(n: nat, m: nat, e: nat, p: nat)
    requires
        p > 0,
        m <= pow2(p),
    ensures
        m * pow2(e) <= n ==> m * pow2(e) <= round_down(n, p),
        m * pow2(e) >= n ==> m * pow2(e) >= round_up(n, p),
{
    let x = m * pow2(e);
    let u = unit(n, p);
    let l = bit_len(n);
    lemma_unit_pos(n, p);
    if l <= p {
        lemma_quotient(n, 1, n, 0);
    } else {
        lemma_bit_len_bounds(n);
        lemma_fundamental_div_mod(n as int, u as int);
        lemma_round_down_at_least_power(n, (l - 1) as nat, p);
        lemma_round_up_at_most_power(n, l, p);
        if pow2((l - 1) as nat) <= x < pow2(l) {
            lemma_bit_len_unique(x, (l - 1) as nat);
            let c = lemma_multiple_of_unit(n, m, e, p);
            let (q, r) = (n / u, n % u);
            assert(x <= n ==> c * u <= q * u) by (nonlinear_arith)
                requires
                    x == c * u,
                    n == u * q + r,
                    r < u,
                    u > 0,
            ;
            assert(x >= n && r > 0 ==> c * u >= (q + 1) * u) by (nonlinear_arith)
                requires
                    x == c * u,
                    n == u * q + r,
                    u > 0,
            ;
        }
    }
}

/// What is rounded has `p` significant bits: rounding it again changes nothing.
pub(crate) proof fn lemma_round_within_significant(n: nat, lo: nat, hi: nat, p: nat)
    requires
        p > 0,
    ensures
        round_bits(round_within(n, lo, hi, p), p) == round_within(n, lo, hi, p),
{
    lemma_multiples_are_significant(n, p);
    lemma_multiples_are_significant(lo, p);
    lemma_multiples_are_significant(hi, p);
}

/// The multiples of the last digit that is kept of `n` next to it have `p`
/// significant bits.
proof fn lemma_multiples_are_significant(n: nat, p: nat)
    requires
        p > 0,
    ensures
        round_bits(round_bits(n, p), p) == round_bits(n, p),
        round_bits(round_up(n, p), p) == round_up(n, p),
        round_bits(round_down(n, p), p) == round_down(n, p),
{
    let u = unit(n, p);
    let l = bit_len(n);
    lemma_unit_pos(n, p);
    if l <= p {
        lemma_quotient(n, 1, n, 0);
        lemma_nearest_even_exact(n, 1);
    } else {
        let e = (l - p) as nat;
        let q = n / u;
        let c = pow2(p);
        lemma_bit_len_bounds(n);
        lemma_pow2_adds(p, e);
        lemma_fundamental_div_mod(n as int, u as int);
        let r = n % u;
        assert(q < c) by (nonlinear_arith)
            requires
                u * q + r < c * u,
                r >= 0,
                u > 0,
        ;
        lemma_round_bits_exact(q, e, p);
        lemma_round_bits_exact(q + 1, e, p);
        assert(r == 0 ==> n == q * u) by (nonlinear_arith)
            requires
                n == u * q + r,
        ;
    }
}

/// Rounding within a range gives a number of `p` significant bits that is as
/// near as any other in the range.
pub(crate) proof fn lemma_round_within_nearest(
    n: nat,
    lo: nat,
    hi: nat,
    m: nat,
    e: nat,
    p: nat,
)
    requires
        p > 0,
        m <= pow2(p),
        lo <= n <= hi,
        lo <= m * pow2(e) <= hi,
    ensures
        ({
            let (got, other) = (round_within(n, lo, hi, p) as int, m * pow2(e));
            &&& got <= n ==> n - got <= other - n || n - got <= n - other
            &&& got >= n ==> got - n <= other - n || got - n <= n - other
        }),
{
    lemma_round_directed_tight(n, m, e, p);
    lemma_round_directed_tight(lo, m, e, p);
    lemma_round_directed_tight(hi, m, e, p);
    lemma_round_order(n, p);
    lemma_round_order(lo, p);
    lemma_round_order(hi, p);
}

/// Rounding within a range ends next to the number: it moves it by at most one
/// part in two to the `p - 1`.
pub(crate) proof fn lemma_round_within_error(n: nat, lo: nat, hi: nat, p: nat)
    requires
        p > 0,
        lo <= n <= hi,
    ensures
        round_within(n, lo, hi, p) * pow2((p - 1) as nat) <= n * pow2((p - 1) as nat) + n,
        round_within(n, lo, hi, p) * pow2((p - 1) as nat) + n >= n * pow2((p - 1) as nat),
{
    let (u, l) = (unit(n, p), bit_len(n));
    let (down, up) = (round_down(n, p), round_up(n, p));
    let got = round_within(n, lo, hi, p);
    let w = pow2((p - 1) as nat);
    lemma_unit_pos(n, p);
    lemma_pow2_pos((p - 1) as nat);
    lemma_round_order(n, p);
    lemma_round_order(lo, p);
    lemma_round_order(hi, p);
    lemma_fundamental_div_mod(n as int, u as int);
    let (q, r) = (n / u, n % u);
    if l <= p {
        lemma_quotient(n, 1, n, 0);
        lemma2_to64();
        assert(n * pow2(0) == n);
        if n > 0 {
            lemma_bit_len_bounds(n);
            if l < p {
                lemma_pow2_strictly_increases(l, p);
            }
        } else {
            lemma_pow2_pos(p);
        }
        lemma_round_directed_tight(lo, n, 0, p);
        lemma_round_directed_tight(hi, n, 0, p);
        assert(got == n);
    } else {
        let e = (l - p) as nat;
        lemma_bit_len_bounds(n);
        lemma_pow2_adds(p, e);
        lemma_pow2_adds((p - 1) as nat, e);
        let c = pow2(p);
        assert(q < c) by (nonlinear_arith)
            requires
                u * q + r < c * u,
                r >= 0,
                u > 0,
        ;
        assert(n < (q + 1) * u && q * u <= n) by (nonlinear_arith)
            requires
                n == u * q + r,
                r < u,
        ;
        assert((q + 1) * u == q * u + u) by (nonlinear_arith);
        assert(r == 0 ==> n == q * u) by (nonlinear_arith)
            requires
                n == u * q + r,
        ;
        lemma_round_directed_tight(lo, q, e, p);
        lemma_round_directed_tight(lo, q + 1, e, p);
        lemma_round_directed_tight(hi, q, e, p);
        lemma_round_directed_tight(hi, q + 1, e, p);
        assert(down <= got <= up);
        assert(up <= n + u && n <= down + u);
        assert(u * w <= n) by {
            assert(u * w == w * u) by (nonlinear_arith);
        }
        assert(got * w <= n * w + n && got * w + n >= n * w) by (nonlinear_arith)
            requires
                got <= n + u,
                n <= got + u,
                u * w <= n,
        ;
    }
}

/// What a quotient is rounded to is no further from it than a half, and where it
/// is as far as that, it is even.
pub proof fn a_quotient_is_rounded_to_the_nearest(n: nat, d: nat)
    requires
        d > 0,
    ensures
        2 * (nearest_even(n, d) * d) <= 2 * n + d,
        2 * (nearest_even(n, d) * d) + d >= 2 * n,
        2 * (nearest_even(n, d) * d) == 2 * n + d ==> nearest_even(n, d) % 2 == 0,
        2 * (nearest_even(n, d) * d) + d == 2 * n ==> nearest_even(n, d) % 2 == 0,
{
    lemma_nearest_even_error(n, d);
    let (q, r) = (n / d, n % d);
    lemma_fundamental_div_mod(n as int, d as int);
    assert((q + 1) * d == q * d + d && q * d == d * q) by (nonlinear_arith);
}

/// What a number is rounded to has `p` significant bits, and no number that has
/// them is nearer. Such a number is `mant` times two to the `exp`.
pub proof fn a_number_is_rounded_to_the_nearest(n: nat, p: nat, mant: nat, exp: nat)
    requires
        p > 0,
        mant < pow2(p),
    ensures
        round_bits(round_bits(n, p), p) == round_bits(n, p),
        ({
            let (got, other) = (round_bits(n, p) as int, mant * pow2(exp));
            &&& got <= n ==> n - got <= other - n || n - got <= n - other
            &&& got >= n ==> got - n <= other - n || got - n <= n - other
        }),
{
    lemma_multiples_are_significant(n, p);
    lemma_round_directed_tight(n, mant, exp, p);
    lemma_round_order(n, p);
}

// ---------------------------------------------------------------------------
// Computation

/// A natural number in binary scientific form: `mant` times two to the `exp`.
#[derive(Clone, Copy)]
pub struct Scaled {
    pub mant: u64,
    pub exp: u32,
}

impl Scaled {
    /// The number that stands for itself.
    pub open spec fn value(self) -> nat {
        self.mant as nat * pow2(self.exp as nat)
    }
}

/// Two to the `e`.
pub(crate) fn power_of_two(e: u32) -> (r: u128)
    requires
        e < 128,
    ensures
        r == pow2(e as nat),
{
    let mut r: u128 = 1;
    let mut i: u32 = 0;
    proof {
        lemma2_to64();
    }
    while i < e
        invariant
            i <= e < 128,
            r == pow2(i as nat),
        decreases e - i,
    {
        proof {
            lemma_pow2_unfold((i + 1) as nat);
            lemma_u128_limit();
            if i + 1 < 128 {
                lemma_pow2_strictly_increases((i + 1) as nat, 128);
            }
        }
        r = r * 2;
        i = i + 1;
    }
    r
}

/// The powers of two that the machine's widths are made of.
pub(crate) proof fn lemma_u128_limit()
    ensures
        pow2(128) == u128::MAX + 1,
{
    lemma2_to64();
    lemma_pow2_adds(64, 64);
    assert(0x1_0000_0000_0000_0000int * 0x1_0000_0000_0000_0000int == u128::MAX + 1);
}

/// The number of binary digits of `n`.
pub(crate) fn digits(n: u128) -> (l: u32)
    ensures
        l == bit_len(n as nat),
        l <= 128,
{
    proof {
        lemma_u128_limit();
        lemma_bit_len_at_most(n as nat, 128);
    }
    let mut rest: u128 = n;
    let mut l: u32 = 0;
    while rest > 0
        invariant
            l + bit_len(rest as nat) == bit_len(n as nat),
            bit_len(n as nat) <= 128,
        decreases rest,
    {
        rest = rest / 2;
        l = l + 1;
    }
    l
}

/// The integer nearest to `n / d`, ties to even.
pub(crate) fn divide_nearest(n: u128, d: u128) -> (r: u128)
    requires
        0 < d <= u128::MAX / 2,
    ensures
        r == nearest_even(n as nat, d as nat),
{
    let q: u128 = n / d;
    let r: u128 = n % d;
    proof {
        lemma_fundamental_div_mod(n as int, d as int);
        assert(q <= n) by (nonlinear_arith)
            requires
                n == d * q + r,
                d > 0,
                r >= 0,
                q >= 0,
        ;
        if d == 1 {
        } else {
            assert(2 * q <= n) by (nonlinear_arith)
                requires
                    n == d * q + r,
                    d >= 2,
                    r >= 0,
                    q >= 0,
            ;
        }
    }
    if 2 * r > d || (2 * r == d && q % 2 == 1) {
        q + 1
    } else {
        q
    }
}

/// `n` rounded to `p` significant bits.
pub(crate) fn round_to(n: u128, p: u32) -> (r: Scaled)
    requires
        1 < p < 64,
    ensures
        r.value() == round_bits(n as nat, p as nat),
        r.mant <= pow2(p as nat),
        r.exp + p <= 128 || r.exp == 0,
        bit_len(n as nat) <= p ==> r.exp == 0 && r.mant == n,
        bit_len(n as nat) > p ==> r.exp == bit_len(n as nat) - p,
{
    let l: u32 = digits(n);
    proof {
        lemma2_to64();
        lemma_pow2_strictly_increases(p as nat, 64);
    }
    if l <= p {
        proof {
            if n > 0 {
                lemma_bit_len_bounds(n as nat);
                if l < p {
                    lemma_pow2_strictly_increases(l as nat, p as nat);
                }
            }
            lemma_nearest_even_exact(n as nat, 1);
            assert(n as nat * pow2(0) == n as nat * 1);
        }
        Scaled { mant: n as u64, exp: 0 }
    } else {
        let u: u128 = power_of_two(l - p);
        proof {
            lemma_u128_limit();
            lemma_pow2_pos((l - p) as nat);
            lemma_pow2_unfold(128);
            if l - p < 127 {
                lemma_pow2_strictly_increases((l - p) as nat, 127);
            }
            lemma_bit_len_bounds(n as nat);
            lemma_pow2_adds((l - p) as nat, p as nat);
            let (a, b) = (pow2((l - p) as nat), pow2(p as nat));
            assert(b * a == a * b) by (nonlinear_arith);
            lemma_nearest_even_at_most(n as nat, u as nat, b);
        }
        assert(u <= u128::MAX / 2);
        let m: u128 = divide_nearest(n, u);
        Scaled { mant: m as u64, exp: l - p }
    }
}

/// `n` rounded to `p` significant bits in one direction.
fn round_directed(n: u128, up: bool, p: u32) -> (r: Scaled)
    requires
        1 < p < 64,
        n < pow2(127),
    ensures
        r.value() == if up {
            round_up(n as nat, p as nat)
        } else {
            round_down(n as nat, p as nat)
        },
        r.mant <= pow2(p as nat),
        r.exp == 0 || r.exp + p <= bit_len(n as nat),
{
    let l: u32 = digits(n);
    proof {
        lemma2_to64();
        lemma_pow2_strictly_increases(p as nat, 64);
        lemma_bit_len_at_most(n as nat, 127);
    }
    if l <= p {
        proof {
            if n > 0 {
                lemma_bit_len_bounds(n as nat);
                if l < p {
                    lemma_pow2_strictly_increases(l as nat, p as nat);
                }
            }
            lemma_quotient(n as nat, 1, n as nat, 0);
            assert(n as nat * pow2(0) == n as nat * 1);
        }
        Scaled { mant: n as u64, exp: 0 }
    } else {
        let u: u128 = power_of_two(l - p);
        proof {
            lemma_pow2_pos((l - p) as nat);
            lemma_bit_len_bounds(n as nat);
            lemma_pow2_adds(p as nat, (l - p) as nat);
            lemma_fundamental_div_mod(n as int, u as int);
            let (q, r, c, w) = (n as nat / u as nat, n as nat % u as nat, pow2(p as nat), u as nat);
            assert(q < c) by (nonlinear_arith)
                requires
                    w * q + r < c * w,
                    r >= 0,
                    w > 0,
            ;
            assert(r == 0 ==> q * w == w * q + r) by (nonlinear_arith);
        }
        let q: u128 = n / u;
        if up && n % u != 0 {
            Scaled { mant: q as u64 + 1, exp: l - p }
        } else {
            Scaled { mant: q as u64, exp: l - p }
        }
    }
}

/// The number that a scientific form stands for.
fn expand(s: Scaled) -> (r: u128)
    requires
        s.exp < 128,
        s.value() < pow2(128),
    ensures
        r == s.value(),
{
    let k: u128 = power_of_two(s.exp);
    proof {
        lemma_u128_limit();
    }
    s.mant as u128 * k
}

/// Of the numbers of `p` significant bits from `lo` to `hi`, the one nearest to
/// `n`. There is one: the range holds a power of two.
pub(crate) fn round_to_within(n: u128, lo: u128, hi: u128, p: u32) -> (r: Scaled)
    requires
        1 < p < 64,
        lo <= n <= hi,
        hi < pow2(126),
        exists|k: nat| lo <= #[trigger] pow2(k) <= hi,
    ensures
        r.value() == round_within(n as nat, lo as nat, hi as nat, p as nat),
        r.mant <= pow2(p as nat),
        r.exp == 0 || r.exp + p <= bit_len(hi as nat),
{
    proof {
        lemma_pow2_strictly_increases(126, 127);
        lemma_pow2_strictly_increases(127, 128);
        lemma_bit_len_ordered(lo as nat, hi as nat);
        lemma_bit_len_ordered(n as nat, hi as nat);
        lemma_bit_len_at_most(hi as nat, 126);
        lemma_round_bits_at_most_power(n as nat, 126, p as nat);
        let k = choose|k: nat| lo <= #[trigger] pow2(k) <= hi;
        lemma_round_within_range(n as nat, lo as nat, hi as nat, k, p as nat);
    }
    let nearest: Scaled = round_to(n, p);
    let lowest: Scaled = round_directed(lo, true, p);
    let highest: Scaled = round_directed(hi, false, p);
    let r: u128 = expand(nearest);
    if r < expand(lowest) {
        lowest
    } else if r > expand(highest) {
        highest
    } else {
        nearest
    }
}

} // verus!
