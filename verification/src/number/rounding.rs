//! The arithmetic of 64 bit floating point numbers, stated over integers.
//!
//! Every finite 64 bit floating point number is a whole multiple of
//! 2^-1074. This module measures magnitudes in that unit, so that a
//! magnitude is a natural number and [`one`] is 2^1074. The representable
//! magnitudes are those with at most 53 significant bits; the result of an
//! operation is the exact result rounded to the nearest representable
//! magnitude, a tie going to the even mantissa.

use vstd::prelude::*;
use vstd::arithmetic::div_mod::lemma_fundamental_div_mod_converse;
use vstd::arithmetic::mul::{lemma_mul_inequality, lemma_mul_strict_inequality};
use vstd::arithmetic::power2::{
    lemma2_to64,
    lemma2_to64_rest,
    lemma_pow2_adds,
    lemma_pow2_pos,
    lemma_pow2_strictly_increases,
    lemma_pow2_unfold,
    pow2,
};

verus! {

/// The number 1, in units of 2^-1074.
pub open spec fn one() -> nat {
    pow2(1074)
}

/// The number of significant bits of `x`: the least `n` with `x < 2^n`.
pub open spec fn bit_length(x: nat) -> nat
    decreases x,
{
    if x == 0 {
        0
    } else {
        1 + bit_length(x / 2)
    }
}

/// The distance between neighbouring representable magnitudes at `x`: the
/// weight of the last of the 53 leading bits of `x`.
pub open spec fn quantum(x: nat) -> nat {
    if bit_length(x) <= 53 {
        1
    } else {
        pow2((bit_length(x) - 53) as nat)
    }
}

/// The multiple of `unit` that is nearest to `x`; of two that are equally
/// near, the even multiple.
pub open spec fn round_to_multiple(x: nat, unit: nat) -> nat {
    let quotient = x / unit;
    let rest = x % unit;
    if 2 * rest < unit || (2 * rest == unit && quotient % 2 == 0) {
        quotient * unit
    } else {
        (quotient + 1) * unit
    }
}

/// The representable magnitude that is nearest to `x`; of two that are
/// equally near, the one with the even mantissa.
pub open spec fn round_even(x: nat) -> nat {
    round_to_multiple(x, quantum(x))
}

/// Half the distance from `x` to the next representable magnitude above it,
/// but at least one unit.
pub open spec fn half_quantum(x: nat) -> nat {
    if quantum(x) >= 2 {
        quantum(x) / 2
    } else {
        1
    }
}

/// `x` has at most `n` significant bits exactly when it is below 2^n.
pub proof fn lemma_bit_length_bound(x: nat, n: nat)
    ensures
        bit_length(x) <= n <==> x < pow2(n),
    decreases x,
{
    lemma_pow2_pos(n);
    if x != 0 {
        if n == 0 {
            lemma2_to64();
        } else {
            lemma_pow2_unfold(n);
            lemma_bit_length_bound(x / 2, (n - 1) as nat);
        }
    }
}

/// A positive number lies between the two powers of two that its bit length
/// names.
pub proof fn lemma_bit_length_range(x: nat)
    requires
        x > 0,
    ensures
        bit_length(x) >= 1,
        pow2((bit_length(x) - 1) as nat) <= x < pow2(bit_length(x)),
{
    lemma_bit_length_bound(x, bit_length(x));
    lemma_bit_length_bound(x, (bit_length(x) - 1) as nat);
}

/// A number between 2^(n-1) and 2^n has `n` significant bits.
pub proof fn lemma_bit_length_from_range(x: nat, n: nat)
    requires
        n >= 1,
        pow2((n - 1) as nat) <= x < pow2(n),
    ensures
        bit_length(x) == n,
{
    lemma_bit_length_bound(x, n);
    lemma_bit_length_bound(x, (n - 1) as nat);
}

/// The bit length grows with the number.
pub proof fn lemma_bit_length_monotonic(x: nat, y: nat)
    requires
        x <= y,
    ensures
        bit_length(x) <= bit_length(y),
{
    lemma_bit_length_bound(y, bit_length(y));
    lemma_bit_length_bound(x, bit_length(y));
}

/// Multiplying a positive number by 2^s adds `s` to its bit length.
pub proof fn lemma_bit_length_shift(x: nat, s: nat)
    requires
        x > 0,
    ensures
        bit_length(x * pow2(s)) == bit_length(x) + s,
{
    let n = bit_length(x);
    lemma_bit_length_range(x);
    lemma_pow2_pos(s);
    lemma_pow2_adds((n - 1) as nat, s);
    lemma_pow2_adds(n, s);
    lemma_mul_inequality(pow2((n - 1) as nat) as int, x as int, pow2(s) as int);
    lemma_mul_strict_inequality(x as int, pow2(n) as int, pow2(s) as int);
    lemma_bit_length_from_range(x * pow2(s), n + s);
}

/// Scaling both the number and the unit by the same factor scales the
/// rounded result by that factor.
pub proof fn lemma_round_to_multiple_scales(x: nat, unit: nat, factor: nat)
    requires
        unit > 0,
        factor > 0,
    ensures
        round_to_multiple(x * factor, unit * factor) == round_to_multiple(x, unit) * factor,
        (x * factor) / (unit * factor) == x / unit,
        (x * factor) % (unit * factor) == (x % unit) * factor,
{
    let q = x / unit;
    let r = x % unit;
    assert(x == q * unit + r && 0 <= r < unit) by (nonlinear_arith)
        requires
            unit > 0,
            q == x / unit,
            r == x % unit,
    ;
    assert(x * factor == q * (unit * factor) + r * factor && 0 <= r * factor < unit * factor
        && unit * factor > 0) by (nonlinear_arith)
        requires
            x == q * unit + r,
            0 <= r < unit,
            factor > 0,
    ;
    lemma_fundamental_div_mod_converse(
        (x * factor) as int,
        (unit * factor) as int,
        q as int,
        (r * factor) as int,
    );
    assert((2 * r < unit) == (2 * (r * factor) < unit * factor) && (2 * r == unit) == (2 * (r
        * factor) == unit * factor)) by (nonlinear_arith)
        requires
            factor > 0,
    ;
    assert(q * (unit * factor) == (q * unit) * factor && (q + 1) * (unit * factor) == ((q + 1)
        * unit) * factor) by (nonlinear_arith);
}

/// A number of at most 53 significant bits is representable: rounding
/// leaves it as it is.
pub proof fn lemma_round_even_exact(x: nat)
    requires
        bit_length(x) <= 53,
    ensures
        quantum(x) == 1,
        round_even(x) == x,
{
}

/// For a number `x` of more than 53 significant bits: its quotient by its
/// quantum has exactly 53 bits, and `x` and its rounded value lie between
/// that quotient and the next, times the quantum.
pub proof fn lemma_round_even_bounds(x: nat)
    requires
        bit_length(x) > 53,
    ensures
        quantum(x) == pow2((bit_length(x) - 53) as nat),
        quantum(x) > 0,
        pow2(52) <= x / quantum(x) < pow2(53),
        x == (x / quantum(x)) * quantum(x) + x % quantum(x),
        x % quantum(x) < quantum(x),
        round_even(x) == (x / quantum(x)) * quantum(x) || round_even(x) == (x / quantum(x) + 1)
            * quantum(x),
        pow2((bit_length(x) - 1) as nat) <= (x / quantum(x)) * quantum(x),
        (x / quantum(x) + 1) * quantum(x) <= pow2(bit_length(x)),
        pow2((bit_length(x) - 1) as nat) <= round_even(x) <= pow2(bit_length(x)),
        (x / quantum(x)) * quantum(x) <= round_even(x) <= (x / quantum(x) + 1) * quantum(x),
{
    let n = bit_length(x);
    let u = quantum(x);
    let q = x / u;
    let r = x % u;
    let lo = pow2(52);
    let hi = pow2(53);
    lemma_bit_length_range(x);
    lemma_pow2_pos((n - 53) as nat);
    lemma_pow2_adds(52, (n - 53) as nat);
    lemma_pow2_adds(53, (n - 53) as nat);
    assert(x == q * u + r && 0 <= r < u) by (nonlinear_arith)
        requires
            u > 0,
            q == x / u,
            r == x % u,
    ;
    assert(lo <= q < hi && lo * u <= q * u && (q + 1) * u <= hi * u && q * u <= (q + 1) * u)
        by (nonlinear_arith)
        requires
            u > 0,
            x == q * u + r,
            0 <= r < u,
            lo * u <= x < hi * u,
    ;
}

/// Rounding does not shorten a number.
pub proof fn lemma_round_even_keeps_length(x: nat)
    ensures
        bit_length(round_even(x)) >= bit_length(x),
{
    if bit_length(x) > 53 {
        lemma_round_even_bounds(x);
        lemma_bit_length_bound(round_even(x), (bit_length(x) - 1) as nat);
    } else {
        lemma_round_even_exact(x);
    }
}

/// The rounded value of `y` is above 1 exactly when `y` is more than half a
/// quantum above 1: at exactly half, the tie goes to 1, whose mantissa is
/// even.
pub proof fn lemma_round_even_above_one(y: nat)
    ensures
        round_even(y) > one() <==> y > one() + pow2(1021),
{
    let n = bit_length(y);
    let half = pow2(1021);
    lemma2_to64_rest();
    lemma_pow2_pos(1021);
    lemma_pow2_strictly_increases(1021, 1074);
    if n <= 53 {
        lemma_round_even_exact(y);
        lemma_bit_length_bound(y, 53);
        lemma_pow2_strictly_increases(53, 1074);
    } else {
        lemma_round_even_bounds(y);
        let u = quantum(y);
        let q = y / u;
        let r = y % u;
        if n <= 1074 {
            lemma_bit_length_bound(y, 1074);
            if n < 1074 {
                lemma_pow2_strictly_increases(n, 1074);
            }
            assert(round_even(y) <= one());
            assert(y < one());
        } else if n == 1075 {
            lemma_pow2_adds(52, 1022);
            lemma_pow2_unfold(1022);
            assert(u == 2 * half);
            assert(one() == pow2(52) * u);
            if q > pow2(52) {
                assert(q * u >= pow2(52) * u + u) by (nonlinear_arith)
                    requires
                        u > 0,
                        q > pow2(52),
                ;
                assert(round_even(y) >= q * u);
            } else {
                assert(q == pow2(52));
                assert(q % 2 == 0);
                assert(y == one() + r);
                assert((q + 1) * u == one() + u) by (nonlinear_arith)
                    requires
                        one() == q * u,
                ;
            }
        } else {
            lemma_pow2_unfold(1075);
            if n > 1076 {
                lemma_pow2_strictly_increases(1075, (n - 1) as nat);
            }
            assert(round_even(y) >= pow2(1075));
            assert(y >= pow2(1075));
        }
    }
}

/// A number that is short of a small whole number by at least 2^-53 times
/// that number is rounded to a magnitude below the whole number.
pub proof fn lemma_round_even_below_whole(x: nat, whole: nat)
    requires
        1 <= whole < 256,
        x + whole * pow2(1021) <= whole * one(),
    ensures
        round_even(x) < whole * one(),
{
    let big = whole * one();
    let step = pow2(1021);
    let l = bit_length(whole);
    let n = bit_length(x);
    lemma2_to64();
    lemma_bit_length_range(whole);
    lemma_bit_length_bound(whole, 8);
    lemma_pow2_pos(1021);
    lemma_pow2_pos(1074);
    assert(whole * step > 0) by (nonlinear_arith)
        requires
            whole >= 1,
            step > 0,
    ;
    if n <= 53 {
        lemma_round_even_exact(x);
    } else {
        lemma_round_even_bounds(x);
        let e = (n - 53) as nat;
        let u = quantum(x);
        let q = x / u;
        let r = x % u;
        // The number has at most `l + 1074` bits.
        lemma_pow2_adds(l, 1074);
        assert(big < pow2(l) * one()) by (nonlinear_arith)
            requires
                big == whole * one(),
                whole < pow2(l),
                one() > 0,
        ;
        lemma_bit_length_bound(x, l + 1074);
        // The whole number is a multiple of the quantum.
        let w = (l + 1021 - e) as nat;
        let a = pow2((53 - l) as nat);
        let b = pow2(w);
        lemma_pow2_adds(w, e);
        lemma_pow2_adds((53 - l) as nat, l + 1021);
        lemma_pow2_pos(w);
        let c = whole * a * b;
        assert(big == c * u) by (nonlinear_arith)
            requires
                big == whole * one(),
                one() == a * pow2(l + 1021),
                pow2(l + 1021) == b * u,
                c == whole * a * b,
        ;
        // Half a quantum is no more than the number is short of it.
        lemma_pow2_adds((l - 1) as nat, 1021);
        lemma_pow2_unfold(l + 1021);
        let low = pow2((l - 1) as nat);
        assert(u <= pow2(l + 1021)) by (nonlinear_arith)
            requires
                pow2(l + 1021) == b * u,
                b >= 1,
        ;
        assert(low * step <= whole * step) by (nonlinear_arith)
            requires
                low <= whole,
                step > 0,
        ;
        assert(q < c) by (nonlinear_arith)
            requires
                x == q * u + r,
                x < c * u,
                u > 0,
        ;
        if q + 1 < c {
            assert((q + 1) * u < c * u) by (nonlinear_arith)
                requires
                    q + 1 < c,
                    u > 0,
            ;
        } else {
            assert(c * u == q * u + u) by (nonlinear_arith)
                requires
                    c == q + 1,
            ;
            if 2 * r >= u {
                // Then the number is a power of two times one, and `x` has a
                // bit less than its quantum says.
                assert(u == pow2(l + 1021));
                if e < l + 1021 {
                    lemma_pow2_strictly_increases(e, l + 1021);
                }
                assert(whole == low) by (nonlinear_arith)
                    requires
                        low * step == whole * step,
                        step > 0,
                ;
                lemma_pow2_adds((l - 1) as nat, 1074);
                lemma_bit_length_bound(x, l + 1073);
            }
        }
    }
}

/// What is left of a rounded value after its whole part is below one by at
/// least 2^1021 units: the fraction of a floating point number has no bits
/// below the 53rd after the point.
pub proof fn lemma_rounded_fraction(x: nat)
    ensures
        round_even(x) % one() + pow2(1021) <= one(),
{
    let rounded = round_even(x);
    let n = bit_length(x);
    lemma2_to64_rest();
    lemma_pow2_pos(1021);
    lemma_pow2_pos(1074);
    lemma_pow2_unfold(1074);
    lemma_pow2_strictly_increases(1021, 1073);
    lemma_pow2_strictly_increases(53, 1021);
    if n <= 53 {
        lemma_round_even_exact(x);
        lemma_bit_length_bound(x, 53);
        vstd::arithmetic::div_mod::lemma_small_mod(x, one());
    } else {
        lemma_round_even_bounds(x);
        let e = (n - 53) as nat;
        let u = quantum(x);
        let q = if rounded == (x / u) * u {
            x / u
        } else {
            x / u + 1
        };
        assert(rounded == q * u && q <= pow2(53));
        if e >= 1074 {
            // The rounded value is a whole number.
            lemma_pow2_adds((e - 1074) as nat, 1074);
            let whole = q * pow2((e - 1074) as nat);
            assert(rounded == whole * one() + 0) by (nonlinear_arith)
                requires
                    rounded == q * u,
                    u == pow2((e - 1074) as nat) * one(),
                    whole == q * pow2((e - 1074) as nat),
            ;
            lemma_fundamental_div_mod_converse(rounded as int, one() as int, whole as int, 0);
        } else if e >= 1021 {
            // The fraction is a multiple of the quantum, and so is one.
            let c = pow2((1074 - e) as nat);
            lemma_pow2_adds((1074 - e) as nat, e);
            lemma_pow2_pos((1074 - e) as nat);
            lemma_round_to_multiple_scales(q, c, u);
            if e > 1021 {
                lemma_pow2_strictly_increases(1021, e);
            }
            let left = q % c;
            assert(left < c) by {
                vstd::arithmetic::div_mod::lemma_mod_bound(q as int, c as int);
            }
            assert(left * u + u <= c * u) by (nonlinear_arith)
                requires
                    left < c,
                    u > 0,
            ;
        } else {
            // The rounded value is at most one half.
            lemma_pow2_adds(53, 1020);
            if e < 1020 {
                lemma_pow2_strictly_increases(e, 1020);
            }
            assert(q * u <= pow2(53) * pow2(1020)) by (nonlinear_arith)
                requires
                    q <= pow2(53),
                    u <= pow2(1020),
            ;
            vstd::arithmetic::div_mod::lemma_small_mod(rounded, one());
        }
    }
}

} // verus!
