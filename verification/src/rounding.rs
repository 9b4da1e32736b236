//! Rounding of exact magnitudes to a binary floating-point format.
//!
//! A magnitude is a natural number of units of 2^-1074, the spacing of the
//! smallest binary64 numbers.  Every finite binary32 or binary64 magnitude is
//! such a number, and so is every sum of two of them and every product of one of
//! them with an integer, so the results of arithmetic are stated exactly first
//! and rounded once.
use vstd::arithmetic::div_mod::*;
use vstd::arithmetic::mul::*;
use vstd::arithmetic::power2::*;
use vstd::prelude::*;

verus! {

/// `n / d` rounded to the nearest integer, ties going to the even one.
pub open spec fn round_half_even(n: nat, d: nat) -> nat
    recommends
        d > 0,
{
    let q = n / d;
    let r = n % d;
    if 2 * r > d || (2 * r == d && q % 2 == 1) {
        q + 1
    } else {
        q
    }
}

/// The number of binary digits by which `x` is longer than `limit` digits.
pub open spec fn excess(x: nat, limit: nat) -> nat
    decreases x,
{
    if x == 0 || x < pow2(limit) {
        0
    } else {
        1 + excess(x / 2, limit)
    }
}

/// The encoding, without its sign, of the number of a binary format that is
/// nearest to the magnitude `x`, ties going to the even significand.
///
/// The format has `precision` significant digits, its smallest numbers are
/// `2^grid` units apart, and `infinity` encodes what is too large for it.  Within
/// one binade the encodings are consecutive, and each further binade starts
/// `2^(precision - 1)` encodings later.
pub open spec fn nearest(x: nat, precision: nat, grid: nat, infinity: nat) -> nat
    recommends
        precision > 0,
{
    let e = excess(x, grid + precision);
    let encoding = e * pow2((precision - 1) as nat) + round_half_even(x, pow2(grid + e));
    if encoding < infinity {
        encoding
    } else {
        infinity
    }
}

/// The magnitude, in units, that `encoding` stands for in a format with
/// `precision` significant digits whose smallest numbers are `2^grid` units apart.
pub open spec fn magnitude(encoding: nat, precision: nat, grid: nat) -> nat
    recommends
        precision > 0,
{
    let hidden = pow2((precision - 1) as nat);
    let exponent = encoding / hidden;
    let fraction = encoding % hidden;
    let steps = if exponent == 0 {
        fraction
    } else {
        (fraction + hidden) * pow2((exponent - 1) as nat)
    };
    steps * pow2(grid)
}

/// `excess` is the only number that puts `x` into its binade.
pub proof fn lemma_excess(x: nat, limit: nat, e: nat)
    requires
        x < pow2(limit + e),
        e == 0 || pow2((limit + e - 1) as nat) <= x,
    ensures
        excess(x, limit) == e,
    decreases e,
{
    lemma_pow2_pos(limit);
    if e == 0 {
    } else {
        lemma_pow2_pos((limit + e - 1) as nat);
        lemma_pow2_unfold(limit + e);
        if e == 1 {
            assert(limit + e - 1 == limit);
            assert(x / 2 < pow2(limit));
            lemma_excess(x / 2, limit, 0);
        } else {
            lemma_pow2_unfold((limit + e - 1) as nat);
            lemma_excess(x / 2, limit, (e - 1) as nat);
            lemma_pow2_strictly_increases(limit, (limit + e - 1) as nat);
        }
    }
}

/// Scaling dividend and divisor alike does not change the rounded quotient.
pub proof fn lemma_round_scales(n: nat, d: nat, c: nat)
    requires
        d > 0,
        c > 0,
    ensures
        d * c > 0,
        round_half_even(n * c, d * c) == round_half_even(n, d),
{
    let q = n / d;
    let r = n % d;
    lemma_fundamental_div_mod(n as int, d as int);
    lemma_mul_strictly_positive(d as int, c as int);
    assert(n * c == (d * c) * q + r * c) by (nonlinear_arith)
        requires
            n == d * q + r,
    ;
    assert(0 <= r * c < d * c) by (nonlinear_arith)
        requires
            0 <= r < d,
            c > 0,
    ;
    assert((d * c) * q == q * (d * c)) by (nonlinear_arith);
    lemma_fundamental_div_mod_converse((n * c) as int, (d * c) as int, q as int, (r * c) as int);
    assert((2 * (r * c) > d * c) == (2 * r > d)) by (nonlinear_arith)
        requires
            c > 0,
    ;
    assert((2 * (r * c) == d * c) == (2 * r == d)) by (nonlinear_arith)
        requires
            c > 0,
    ;
}

/// A whole quotient is not rounded.
pub proof fn lemma_round_exact(q: nat, d: nat)
    requires
        d > 0,
    ensures
        round_half_even(q * d, d) == q,
{
    lemma_fundamental_div_mod_converse((q * d) as int, d as int, q as int, 0);
}

/// What the quotient and the remainder say about the rounded quotient.
pub proof fn lemma_round_split(n: nat, d: nat, q: nat, r: nat)
    requires
        r < d,
        n == q * d + r,
    ensures
        round_half_even(n, d) == if 2 * r > d || (2 * r == d && q % 2 == 1) {
            q + 1
        } else {
            q
        },
{
    lemma_fundamental_div_mod_converse(n as int, d as int, q as int, r as int);
}

/// A number that a format can represent is its own nearest number.
pub proof fn law_representable_is_exact(encoding: nat, precision: nat, grid: nat, infinity: nat)
    requires
        precision > 0,
        encoding < infinity,
    ensures
        nearest(magnitude(encoding, precision, grid), precision, grid, infinity) == encoding,
{
    let hidden = pow2((precision - 1) as nat);
    let exponent = encoding / hidden;
    let fraction = encoding % hidden;
    let g = pow2(grid);
    let x = magnitude(encoding, precision, grid);
    lemma_pow2_pos((precision - 1) as nat);
    lemma_pow2_pos(grid);
    lemma_pow2_unfold(precision);
    lemma_fundamental_div_mod(encoding as int, hidden as int);
    lemma_mul_is_commutative(hidden as int, exponent as int);
    lemma_pow2_adds(precision, grid);
    if exponent == 0 {
        assert(fraction * g < pow2(precision) * g) by (nonlinear_arith)
            requires
                fraction < pow2(precision),
                g > 0,
        ;
        lemma_excess(x, grid + precision, 0);
        lemma_round_exact(fraction, g);
        lemma_mul_basics(hidden as int);
    } else {
        let e = (exponent - 1) as nat;
        let m = fraction + hidden;
        let p = pow2(e);
        lemma_pow2_pos(e);
        lemma_pow2_adds(grid, e);
        lemma_pow2_adds(precision, grid + e);
        lemma_pow2_adds((precision - 1) as nat, grid + e);
        assert(x == m * (g * p)) by (nonlinear_arith)
            requires
                x == (m * p) * g,
        ;
        lemma_mul_strictly_positive(g as int, p as int);
        lemma_mul_strict_inequality(m as int, pow2(precision) as int, (g * p) as int);
        lemma_mul_inequality(hidden as int, m as int, (g * p) as int);
        lemma_excess(x, grid + precision, e);
        lemma_round_exact(m, g * p);
        assert(e * hidden + hidden == exponent * hidden) by (nonlinear_arith)
            requires
                exponent == e + 1,
        ;
    }
}

/// The binade that `excess` finds for `x`.
pub proof fn lemma_excess_bounds(x: nat, limit: nat)
    ensures
        x < pow2(limit + excess(x, limit)),
        excess(x, limit) > 0 ==> pow2((limit + excess(x, limit) - 1) as nat) <= x,
    decreases x,
{
    lemma_pow2_pos(limit);
    if x == 0 || x < pow2(limit) {
    } else {
        lemma_excess_bounds(x / 2, limit);
        let e = excess(x / 2, limit);
        lemma_pow2_unfold(limit + e + 1);
        if e > 0 {
            lemma_pow2_unfold(limit + e);
        }
    }
}

/// A magnitude with at most 53 significant digits that is not too large is a
/// binary64 number.
pub proof fn lemma_representable(m: nat, t: nat)
    requires
        m < 0x20_0000_0000_0000,
        m * pow2(t) < pow2(2098),
    ensures
        nearest(m * pow2(t), 53, 0, 0x7ff0_0000_0000_0000) < 0x7ff0_0000_0000_0000,
        magnitude(nearest(m * pow2(t), 53, 0, 0x7ff0_0000_0000_0000), 53, 0) == m * pow2(t),
{
    let x = m * pow2(t);
    let e = excess(x, 53);
    lemma_excess_bounds(x, 53);
    lemma2_to64();
    lemma2_to64_rest();
    assert((53 - 1) as nat == 52);
    assert forall|n: nat| #[trigger] (n * pow2(52)) == n * 0x10_0000_0000_0000 by {}
    assert forall|n: nat| #[trigger] (n * pow2(0)) == n by {
        lemma_mul_basics(n as int);
    }
    if e == 0 {
        lemma_round_exact(x, 1);
        assert(round_half_even(x, 1) == x);
        if x >= 0x10_0000_0000_0000 {
            assert(x / 0x10_0000_0000_0000 == 1);
        }
    } else {
        if e > 2045 {
            if e > 2046 {
                lemma_pow2_strictly_increases(2098, (53 + e - 1) as nat);
            }
            assert(false);
        }
        if t < e {
            let s = pow2((e - 1) as nat) as int;
            lemma_pow2_pos((e - 1) as nat);
            lemma_pow2_adds(53, (e - 1) as nat);
            if t < e - 1 {
                lemma_pow2_strictly_increases(t, (e - 1) as nat);
            }
            lemma_pow2_pos(t);
            let p = pow2(t) as int;
            assert(m * p < 0x20_0000_0000_0000 * s) by (nonlinear_arith)
                requires
                    0 <= m < 0x20_0000_0000_0000,
                    0 < p <= s,
            ;
            assert(false);
        }
        let up = (t - e) as nat;
        let d = pow2(e) as int;
        let u = pow2(up) as int;
        lemma_pow2_adds(up, e);
        lemma_pow2_pos(e);
        assert(m * (u * d) == (m * u) * d) by (nonlinear_arith);
        let sig = m * pow2(up);
        lemma_round_exact(sig, pow2(e));
        lemma_pow2_adds(53, e);
        lemma_pow2_adds(52, e);
        assert(53 + e - 1 == 52 + e);
        assert(0x10_0000_0000_0000 <= sig < 0x20_0000_0000_0000) by (nonlinear_arith)
            requires
                0x10_0000_0000_0000 * d <= sig * d,
                sig * d < 0x20_0000_0000_0000 * d,
                d > 0,
        ;
        let encoding = e * 0x10_0000_0000_0000 + sig;
        assert(encoding < 0x7ff0_0000_0000_0000);
        assert(encoding / 0x10_0000_0000_0000 == e + 1);
        assert(encoding % 0x10_0000_0000_0000 == sig - 0x10_0000_0000_0000);
    }
}

/// The magnitude of `m` steps of the binade that lies `e` above the lowest one.
proof fn lemma_steps(m: nat, e: nat, precision: nat, grid: nat)
    requires
        precision > 0,
        m <= pow2(precision),
        e > 0 ==> m >= pow2((precision - 1) as nat),
    ensures
        magnitude(e * pow2((precision - 1) as nat) + m, precision, grid) == m * pow2(grid + e),
{
    let hidden = pow2((precision - 1) as nat);
    let h = hidden as int;
    let encoding = e * hidden + m;
    let g = pow2(grid);
    lemma_pow2_pos((precision - 1) as nat);
    lemma_pow2_unfold(precision);
    lemma_pow2_adds(grid, e);
    lemma2_to64();
    lemma_mul_basics(h);
    if m < hidden {
        // Below the first power of two.
        lemma_fundamental_div_mod_converse(encoding as int, h, 0, m as int);
    } else if m < 2 * hidden {
        assert(encoding == (e + 1) * h + (m - h)) by (nonlinear_arith)
            requires
                encoding == e * h + m,
        ;
        lemma_fundamental_div_mod_converse(encoding as int, h, (e + 1) as int, m - h);
        assert(m * (g * pow2(e)) == (m * pow2(e)) * g) by (nonlinear_arith);
    } else {
        // The first number of the binade after it.
        assert(encoding == (e + 2) * h) by (nonlinear_arith)
            requires
                encoding == e * h + m,
                m == 2 * h,
        ;
        lemma_fundamental_div_mod_converse(encoding as int, h, (e + 2) as int, 0);
        lemma_pow2_unfold(e + 1);
        let p = pow2(e);
        assert(m * (g * p) == (h * (2 * p)) * g) by (nonlinear_arith)
            requires
                m == 2 * h,
        ;
    }
}

/// The distance of two magnitudes.
pub open spec fn distance(a: nat, b: nat) -> nat {
    if a < b {
        (b - a) as nat
    } else {
        (a - b) as nat
    }
}

/// Rounding gives the nearest number: no number of the format is closer to the exact
/// magnitude than the one it is rounded to, and where another one is as close, the
/// one with the even significand is taken.
pub proof fn law_nearest_is_nearest(
    x: nat,
    precision: nat,
    grid: nat,
    infinity: nat,
    other: nat,
)
    requires
        precision > 1,
        nearest(x, precision, grid, infinity) < infinity,
    ensures
        ({
            let chosen = nearest(x, precision, grid, infinity);
            let here = distance(magnitude(chosen, precision, grid), x);
            let there = distance(magnitude(other, precision, grid), x);
            &&& here <= there
            &&& here == there && other != chosen ==> chosen % 2 == 0
        }),
{
    let limit = grid + precision;
    let e = excess(x, limit);
    let hidden = pow2((precision - 1) as nat);
    let d = pow2(grid + e);
    let q = x / d;
    let r = x % d;
    let low = e * hidden + q;
    let chosen = nearest(x, precision, grid, infinity);
    lemma_excess_bounds(x, limit);
    lemma_pow2_pos(grid + e);
    lemma_fundamental_div_mod(x as int, d as int);
    lemma_mod_bound(x as int, d as int);
    assert(d * q == q * d) by (nonlinear_arith);
    lemma_pow2_adds(precision, grid + e);
    lemma_pow2_unfold(precision);
    lemma_pow2_unfold((precision - 1) as nat);
    let p = pow2(precision);
    assert(q < p) by (nonlinear_arith)
        requires
            q * d <= x,
            x < p * d,
            d > 0,
    ;
    if e > 0 {
        lemma_pow2_adds((precision - 1) as nat, grid + e);
        assert(hidden <= q) by (nonlinear_arith)
            requires
                hidden * d <= x,
                x < q * d + d,
                d > 0,
        ;
    }
    lemma_steps(q, e, precision, grid);
    lemma_steps(q + 1, e, precision, grid);
    assert((q + 1) * d == q * d + d) by (nonlinear_arith);
    assert(low + 1 == e * hidden + (q + 1));
    // The encodings are even where the significands are.
    let half = pow2((precision - 2) as nat);
    assert((e * hidden) % 2 == 0) by {
        assert(e * hidden == 2 * (e * half)) by (nonlinear_arith)
            requires
                hidden == 2 * half,
        ;
    }
    if other < low {
        law_encodings_are_ordered(other, low, precision, grid);
    } else if other > low + 1 {
        law_encodings_are_ordered(low + 1, other, precision, grid);
    }
}

/// A larger dividend has a rounded quotient that is not smaller.
proof fn lemma_round_is_monotone(n: nat, m: nat, d: nat)
    requires
        d > 0,
        n <= m,
    ensures
        round_half_even(n, d) <= round_half_even(m, d),
{
    lemma_fundamental_div_mod(n as int, d as int);
    lemma_fundamental_div_mod(m as int, d as int);
    lemma_mod_bound(n as int, d as int);
    lemma_mod_bound(m as int, d as int);
    lemma_div_is_ordered(n as int, m as int, d as int);
    let a = n / d;
    let b = m / d;
    if a == b {
        assert(n % d <= m % d);
    }
}

/// Rounding keeps the order: a larger magnitude is not rounded to a smaller number.
pub proof fn law_rounding_is_monotone(
    x: nat,
    y: nat,
    precision: nat,
    grid: nat,
    infinity: nat,
)
    requires
        precision > 0,
        x <= y,
    ensures
        nearest(x, precision, grid, infinity) <= nearest(y, precision, grid, infinity),
{
    let limit = grid + precision;
    let ex = excess(x, limit);
    let ey = excess(y, limit);
    let hidden = pow2((precision - 1) as nat);
    let dx = pow2(grid + ex);
    let dy = pow2(grid + ey);
    lemma_excess_bounds(x, limit);
    lemma_excess_bounds(y, limit);
    lemma_pow2_pos(grid + ex);
    lemma_pow2_pos(grid + ey);
    lemma_pow2_unfold(precision);
    if ex > ey {
        if limit + ey < limit + ex - 1 {
            lemma_pow2_strictly_increases(limit + ey, (limit + ex - 1) as nat);
        }
        assert(false);
    }
    if ex == ey {
        lemma_round_is_monotone(x, y, dx);
    } else {
        // The smaller one is rounded at most to the start of the binade after its own.
        lemma_pow2_adds(precision, grid + ex);
        lemma_fundamental_div_mod(x as int, dx as int);
        lemma_mod_bound(x as int, dx as int);
        let qx = x / dx;
        let p = pow2(precision);
        assert(qx < p) by (nonlinear_arith)
            requires
                dx * qx <= x,
                x < p * dx,
                dx > 0,
        ;
        lemma_pow2_adds((precision - 1) as nat, grid + ey);
        lemma_fundamental_div_mod(y as int, dy as int);
        lemma_mod_bound(y as int, dy as int);
        let qy = y / dy;
        assert(hidden <= qy) by (nonlinear_arith)
            requires
                hidden * dy <= y,
                y < dy * qy + dy,
                dy > 0,
        ;
        assert(ex * hidden + hidden <= ey * hidden) by (nonlinear_arith)
            requires
                ex + 1 <= ey,
                hidden >= 0,
        ;
    }
}

/// Larger encodings stand for larger magnitudes.
pub proof fn law_encodings_are_ordered(a: nat, b: nat, precision: nat, grid: nat)
    requires
        precision > 0,
        a < b,
    ensures
        magnitude(a, precision, grid) < magnitude(b, precision, grid),
    decreases b - a,
{
    if a + 1 < b {
        law_encodings_are_ordered(a, (b - 1) as nat, precision, grid);
        law_encodings_are_ordered((b - 1) as nat, b, precision, grid);
    } else {
        let hidden = pow2((precision - 1) as nat);
        let g = pow2(grid);
        lemma_pow2_pos((precision - 1) as nat);
        lemma_pow2_pos(grid);
        lemma_fundamental_div_mod(a as int, hidden as int);
        let ea = a / hidden;
        let fa = a % hidden;
        let steps_a = if ea == 0 {
            fa
        } else {
            (fa + hidden) * pow2((ea - 1) as nat)
        };
        let eb = b / hidden;
        let fb = b % hidden;
        let steps_b = if eb == 0 {
            fb
        } else {
            (fb + hidden) * pow2((eb - 1) as nat)
        };
        if fa + 1 < hidden {
            lemma_mul_is_commutative(hidden as int, ea as int);
            lemma_fundamental_div_mod_converse(b as int, hidden as int, ea as int, (fa + 1) as int);
            if ea > 0 {
                lemma_pow2_pos((ea - 1) as nat);
                lemma_mul_strict_inequality(
                    (fa + hidden) as int,
                    (fb + hidden) as int,
                    pow2((ea - 1) as nat) as int,
                );
            }
        } else {
            assert(b == (ea + 1) * hidden) by (nonlinear_arith)
                requires
                    b == hidden * ea + hidden,
            ;
            lemma_fundamental_div_mod_converse(b as int, hidden as int, (ea + 1) as int, 0);
            lemma_pow2_pos(ea);
            if ea == 0 {
                lemma2_to64();
                lemma_mul_basics(hidden as int);
            } else {
                let p = pow2((ea - 1) as nat) as int;
                lemma_pow2_unfold(ea);
                lemma_pow2_pos((ea - 1) as nat);
                assert((fa + hidden) * p < hidden * (2 * p)) by (nonlinear_arith)
                    requires
                        fa < hidden,
                        p > 0,
                ;
            }
        }
        lemma_mul_strict_inequality(steps_a as int, steps_b as int, g as int);
    }
}

/// Adding to or taking from a binary64 number less than a quarter of the spacing
/// of its binade rounds back to it.
pub proof fn lemma_absorbed(m: nat, k: nat, small: nat, subtract: bool, infinity: nat)
    requires
        0x10_0000_0000_0000 <= m < 0x20_0000_0000_0000,
        k >= 3,
        small < pow2((k - 3) as nat),
        k * 0x10_0000_0000_0000 + m < infinity,
    ensures
        small <= m * pow2(k),
        nearest(
            if subtract {
                (m * pow2(k) - small) as nat
            } else {
                m * pow2(k) + small
            },
            53,
            0,
            infinity,
        ) == k * 0x10_0000_0000_0000 + m,
{
    let s = pow2(k) as int;
    lemma2_to64_rest();
    lemma2_to64();
    lemma_pow2_adds((k - 3) as nat, 3);
    lemma_pow2_adds(53, k);
    lemma_pow2_adds(52, k);
    lemma_pow2_unfold(k);
    lemma_pow2_pos((k - 3) as nat);
    assert(small <= m * s) by (nonlinear_arith)
        requires
            0 <= small < s,
            m >= 1,
    ;
    assert(pow2(52) == 0x10_0000_0000_0000);
    assert((53 - 1) as nat == 52);
    assert forall|e: nat| #[trigger] (e * pow2(52)) == e * 0x10_0000_0000_0000 by {}
    let x: nat = if subtract {
        (m * pow2(k) - small) as nat
    } else {
        m * pow2(k) + small
    };
    if !subtract || small == 0 {
        assert(x < 0x20_0000_0000_0000 * s) by (nonlinear_arith)
            requires
                x < m * s + s,
                m + 1 <= 0x20_0000_0000_0000,
                s > 0,
        ;
        assert(0x10_0000_0000_0000 * s <= x) by (nonlinear_arith)
            requires
                m * s <= x,
                m >= 0x10_0000_0000_0000,
                s > 0,
        ;
        lemma_excess(x, 53, k);
        lemma_round_split(x, s as nat, m, small);
    } else if m > 0x10_0000_0000_0000 {
        assert(x < 0x20_0000_0000_0000 * s) by (nonlinear_arith)
            requires
                x < m * s,
                m <= 0x20_0000_0000_0000,
                s > 0,
        ;
        assert(0x10_0000_0000_0000 * s <= x) by (nonlinear_arith)
            requires
                m * s - s <= x,
                m >= 0x10_0000_0000_0001,
                s > 0,
        ;
        lemma_excess(x, 53, k);
        assert((m - 1) * s == m * s - s) by (nonlinear_arith);
        lemma_round_split(x, s as nat, (m - 1) as nat, (s - small) as nat);
    } else {
        let h = pow2((k - 1) as nat) as int;
        lemma_pow2_adds(53, (k - 1) as nat);
        lemma_pow2_adds(52, (k - 1) as nat);
        assert(s == 2 * h);
        assert(m * s == 0x20_0000_0000_0000 * h) by (nonlinear_arith)
            requires
                m == 0x10_0000_0000_0000,
                s == 2 * h,
        ;
        assert(53 + (k - 1) == 52 + k);
        assert(h >= small);
        lemma_excess(x, 53, (k - 1) as nat);
        assert(x == 0x1f_ffff_ffff_ffff * h + (h - small));
        lemma_round_split(x, h as nat, 0x1f_ffff_ffff_ffff, (h - small) as nat);
    }
}

/// Shifting one to the left is raising two to a power.
proof fn lemma_shifted_one(s: u32)
    requires
        s < 128,
    ensures
        (1u128 << s) == pow2(s as nat),
    decreases s,
{
    if s == 0 {
        lemma2_to64();
        assert(1u128 << 0u32 == 1) by (bit_vector);
    } else {
        let t = (s - 1) as u32;
        lemma_shifted_one(t);
        lemma_pow2_unfold(s as nat);
        assert(1u128 << s == 2 * (1u128 << t)) by (bit_vector)
            requires
                1 <= s < 128,
                t == s - 1,
        ;
    }
}

/// Two to the power `s`.
pub(crate) fn power_of_two(s: u32) -> (r: u128)
    requires
        s < 128,
    ensures
        r == pow2(s as nat),
{
    proof {
        lemma_shifted_one(s);
    }
    1u128 << s
}

/// The number of binary digits of `m`.
fn digits(m: u128) -> (len: u32)
    ensures
        len <= 128,
        m < pow2(len as nat),
        len > 0 ==> pow2((len - 1) as nat) <= m,
{
    let mut rest: u128 = m;
    let mut len: u32 = 0;
    proof {
        lemma2_to64();
        lemma_mul_basics(m as int);
    }
    while rest != 0
        invariant
            rest * pow2(len as nat) <= m < (rest + 1) * pow2(len as nat),
            len > 0 ==> pow2((len - 1) as nat) <= m,
            len <= 128,
        decreases rest,
    {
        let half: u128 = rest / 2;
        proof {
            let p = pow2(len as nat);
            lemma_pow2_pos(len as nat);
            lemma_pow2_unfold((len + 1) as nat);
            assert(p <= rest * p) by (nonlinear_arith)
                requires
                    rest >= 1,
                    p >= 1,
            ;
            if len >= 128 {
                lemma_pow2_strictly_increases(127, 128);
                lemma_shifted_one(127);
                lemma_pow2_unfold(128);
                assert(2 * (1u128 << 127u32) == 0x1_0000_0000_0000_0000_0000_0000_0000_0000) by (bit_vector);
                if len > 128 {
                    lemma_pow2_strictly_increases(128, len as nat);
                }
                assert(false);
            }
            assert(half * (2 * p) <= rest * p) by (nonlinear_arith)
                requires
                    2 * half <= rest,
                    p >= 1,
            ;
            assert((rest + 1) * p <= (half + 1) * (2 * p)) by (nonlinear_arith)
                requires
                    rest <= 2 * half + 1,
                    p >= 1,
            ;
        }
        rest = half;
        len = len + 1;
    }
    proof {
        lemma_mul_basics(pow2(len as nat) as int);
    }
    len
}

/// The binade of a number with `len` digits, scaled by `2^k`.
proof fn lemma_binade(m: nat, k: nat, len: nat, limit: nat, e: nat)
    requires
        0 < len,
        pow2((len - 1) as nat) <= m < pow2(len),
        e == if len + k > limit {
            (len + k - limit) as nat
        } else {
            0
        },
    ensures
        excess(m * pow2(k), limit) == e,
{
    let p = pow2(k);
    lemma_pow2_pos(k);
    lemma_pow2_adds(len, k);
    lemma_pow2_adds((len - 1) as nat, k);
    lemma_mul_strict_inequality(m as int, pow2(len) as int, p as int);
    lemma_mul_inequality(pow2((len - 1) as nat) as int, m as int, p as int);
    if len + k < limit + e {
        lemma_pow2_strictly_increases(len + k, limit + e);
    }
    lemma_excess(m * p, limit, e);
}

/// `m * 2^up` has no more digits than fit into a significand.
proof fn lemma_shifted_up_bound(m: nat, len: nat, up: nat)
    requires
        m < pow2(len),
        len + up <= 53,
    ensures
        m * pow2(up) < 0x20_0000_0000_0000,
        up < 128,
{
    lemma_pow2_pos(up);
    lemma_pow2_adds(len, up);
    lemma_mul_strict_inequality(m as int, pow2(len) as int, pow2(up) as int);
    lemma2_to64_rest();
    if len + up < 53 {
        lemma_pow2_strictly_increases(len + up, 53);
    }
}

/// `m / 2^down` has no more digits than fit into a significand.
proof fn lemma_shifted_down_bound(m: nat, len: nat, down: nat)
    requires
        m < pow2(len),
        len <= down + 53,
    ensures
        m / pow2(down) < 0x20_0000_0000_0000,
{
    lemma_pow2_pos(down);
    lemma2_to64_rest();
    lemma_pow2_adds(53, down);
    if len < down + 53 {
        lemma_pow2_strictly_increases(len, down + 53);
    }
    let d = pow2(down) as int;
    let q = m as int / d;
    lemma_fundamental_div_mod(m as int, d);
    assert(q < 0x20_0000_0000_0000) by (nonlinear_arith)
        requires
            d * q <= m,
            m < 0x20_0000_0000_0000 * d,
            d > 0,
    ;
}

/// The encoding nearest to `m * 2^k` units, in the format that `precision`,
/// `grid` and `infinity` describe (see `nearest`).
pub fn round_to_nearest(m: u128, k: u32, precision: u32, grid: u32, infinity: u64) -> (r: u64)
    requires
        m < pow2(120),
        k <= 2100,
        1 <= precision <= 53,
        grid <= 1000,
        infinity > 0,
    ensures
        r == nearest(m as nat * pow2(k as nat), precision as nat, grid as nat, infinity as nat),
{
    if m == 0 {
        proof {
            lemma_mul_basics(pow2(k as nat) as int);
            lemma_pow2_pos(grid as nat);
            lemma_round_exact(0, pow2(grid as nat));
            lemma_mul_basics(pow2((precision - 1) as nat) as int);
        }
        return 0;
    }
    let len: u32 = digits(m);
    proof {
        if len > 120 {
            if len > 121 {
                lemma_pow2_strictly_increases(120, (len - 1) as nat);
            }
        }
        lemma2_to64();
    }
    let limit: u32 = grid + precision;
    let e: u32 = if len + k > limit {
        len + k - limit
    } else {
        0
    };
    let step: u32 = grid + e;
    proof {
        lemma_binade(m as nat, k as nat, len as nat, limit as nat, e as nat);
    }
    let significand: u64 = if step <= k {
        let up: u32 = k - step;
        proof {
            lemma_shifted_up_bound(m as nat, len as nat, up as nat);
            lemma_pow2_adds(up as nat, step as nat);
            lemma_pow2_pos(step as nat);
            let u = pow2(up as nat);
            let s = pow2(step as nat);
            assert(m * (u * s) == (m * u) * s) by (nonlinear_arith);
            lemma_round_exact((m * u) as nat, s);
        }
        (m * power_of_two(up)) as u64
    } else {
        let down: u32 = step - k;
        proof {
            lemma_pow2_adds(down as nat, k as nat);
            lemma_pow2_pos(down as nat);
            lemma_pow2_pos(k as nat);
            lemma_round_scales(m as nat, pow2(down as nat), pow2(k as nat));
        }
        if down > 121 {
            proof {
                lemma_pow2_unfold(121);
                lemma_pow2_strictly_increases(121, down as nat);
                lemma_round_split(m as nat, pow2(down as nat), 0, m as nat);
            }
            0
        } else {
            let d: u128 = power_of_two(down);
            let q: u128 = m / d;
            let r: u128 = m % d;
            proof {
                lemma_fundamental_div_mod(m as int, d as int);
                lemma_mul_is_commutative(d as int, q as int);
                lemma_round_split(m as nat, d as nat, q as nat, r as nat);
                lemma_shifted_down_bound(m as nat, len as nat, down as nat);
            }
            if r > d - r || (r == d - r && q % 2 == 1) {
                (q + 1) as u64
            } else {
                q as u64
            }
        }
    };
    proof {
        lemma2_to64_rest();
        if precision < 53 {
            lemma_pow2_strictly_increases((precision - 1) as nat, 52);
        }
    }
    let hidden: u64 = power_of_two(precision - 1) as u64;
    proof {
        assert(e * hidden <= 2220 * 0x10_0000_0000_0000) by (nonlinear_arith)
            requires
                e <= 2220,
                hidden <= 0x10_0000_0000_0000,
        ;
    }
    let encoding: u64 = e as u64 * hidden + significand;
    if encoding < infinity {
        encoding
    } else {
        infinity
    }
}

} // verus!
