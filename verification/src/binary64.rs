//! Products of non-negative binary64 numbers, in integers.
//!
//! A number is kept as a mantissa of at most 53 bits and a power of two. The range of the
//! numbers used here is far from where binary64 overflows or loses precision, so a product is
//! the exact product, rounded to 53 significant bits with ties to even.

use vstd::arithmetic::div_mod::{
    lemma_div_denominator, lemma_fundamental_div_mod, lemma_fundamental_div_mod_converse,
};
use vstd::arithmetic::power2::{
    lemma2_to64, lemma2_to64_rest, lemma_pow2_adds, lemma_pow2_pos, lemma_pow2_strictly_increases,
    lemma_pow2_unfold, pow2,
};
use vstd::math::abs;
use vstd::prelude::*;

verus! {

/// Two to the power of the number of significant bits.
pub const MANTISSA_LIMIT: u64 = 0x20_0000_0000_0000;

/// Two to the power of twice the number of significant bits.
pub const PRODUCT_LIMIT: u128 = 0x400_0000_0000_0000_0000_0000_0000;

/// The number `mantissa * 2^exponent`.
#[verifier::ext_equal]
pub struct Scaled {
    pub mantissa: nat,
    pub exponent: int,
}

/// By how many bits `p` is longer than a mantissa.
pub open spec fn excess_bits(p: nat) -> nat
    decreases p,
{
    if p < MANTISSA_LIMIT {
        0
    } else {
        1 + excess_bits(p / 2)
    }
}

/// `p / 2^bits`, rounded to the nearest integer, with ties to the even one.
pub open spec fn round_half_even(p: nat, bits: nat) -> nat {
    let floor = p / pow2(bits);
    let rest = p % pow2(bits);
    if 2 * rest > pow2(bits) || (2 * rest == pow2(bits) && floor % 2 == 1) {
        floor + 1
    } else {
        floor
    }
}

/// The number `p * 2^exponent`, rounded to the significant bits.
pub open spec fn rounded(p: nat, exponent: int) -> Scaled {
    Scaled {
        mantissa: round_half_even(p, excess_bits(p)),
        exponent: exponent + excess_bits(p),
    }
}

/// The rounded product of two numbers.
pub open spec fn product(a: Scaled, b: Scaled) -> Scaled {
    rounded(a.mantissa * b.mantissa, a.exponent + b.exponent)
}

/// The smallest integer that is no less than the number.
pub open spec fn ceiling(a: Scaled) -> nat {
    if a.exponent >= 0 {
        a.mantissa * pow2(a.exponent as nat)
    } else {
        (a.mantissa + (pow2((-a.exponent) as nat) - 1) as nat) / pow2((-a.exponent) as nat)
    }
}

/// `x` lies within `steps` rounding errors of `y`, each at most one part in
/// [`MANTISSA_LIMIT`].
pub open spec fn within(x: int, y: int, steps: int) -> bool {
    (MANTISSA_LIMIT - steps) * y <= MANTISSA_LIMIT * x <= (MANTISSA_LIMIT + steps) * y
}

/// The value of a number, times `2^shift`.
pub open spec fn shifted_value(a: Scaled, shift: nat) -> int {
    (a.mantissa * pow2((a.exponent + shift) as nat)) as int
}

/// What has excess bits is no smaller than its excess allows.
proof fn lemma_excess_bits(p: nat)
    ensures
        excess_bits(p) > 0 ==> MANTISSA_LIMIT * pow2(excess_bits(p)) <= 2 * p,
    decreases p,
{
    lemma2_to64();
    if p >= MANTISSA_LIMIT {
        lemma_excess_bits(p / 2);
        lemma_pow2_unfold(excess_bits(p));
    }
}

/// Rounding errs by at most one part in [`MANTISSA_LIMIT`].
proof fn lemma_rounded_within(p: nat)
    ensures
        within((round_half_even(p, excess_bits(p)) * pow2(excess_bits(p))) as int, p as int, 1),
{
    let bits = excess_bits(p);
    let unit = pow2(bits) as int;
    let floor = p as int / unit;
    let rest = p as int % unit;
    let mantissa = round_half_even(p, bits) as int;
    lemma2_to64();
    lemma_pow2_pos(bits);
    lemma_excess_bits(p);
    lemma_fundamental_div_mod(p as int, unit);
    assert((floor + 1) * unit == unit * floor + unit) by (nonlinear_arith);
    assert(floor * unit == unit * floor) by (nonlinear_arith);
    if bits == 0 {
        assert(rest == 0);
        assert(mantissa * unit == p);
    } else {
        assert(-unit <= 2 * (mantissa * unit - p) <= unit);
    }
}

/// A rounded integer is near the integer.
pub proof fn lemma_integer_within(p: nat)
    ensures
        within(shifted_value(rounded(p, 0), 0), p as int, 1),
        rounded(p, 0).exponent >= 0,
{
    lemma_rounded_within(p);
}

/// A rounded product is near the product.
pub proof fn lemma_product_within(a: Scaled, b: Scaled, shift_a: nat, shift_b: nat)
    requires
        a.exponent + shift_a >= 0,
        b.exponent + shift_b >= 0,
    ensures
        within(
            shifted_value(product(a, b), shift_a + shift_b),
            shifted_value(a, shift_a) * shifted_value(b, shift_b),
            1,
        ),
        product(a, b).exponent >= a.exponent + b.exponent,
{
    let p = a.mantissa * b.mantissa;
    let bits = excess_bits(p);
    let x = (round_half_even(p, bits) * pow2(bits)) as int;
    let ua = pow2((a.exponent + shift_a) as nat) as int;
    let ub = pow2((b.exponent + shift_b) as nat) as int;
    lemma_rounded_within(p);
    lemma_pow2_adds((a.exponent + shift_a) as nat, (b.exponent + shift_b) as nat);
    lemma_pow2_adds(
        bits,
        ((a.exponent + shift_a) as nat + (b.exponent + shift_b) as nat) as nat,
    );
    lemma_pow2_pos((a.exponent + shift_a) as nat);
    lemma_pow2_pos((b.exponent + shift_b) as nat);
    let rounded_mantissa = round_half_even(p, bits) as int;
    let unit = pow2(bits) as int;
    assert(shifted_value(product(a, b), shift_a + shift_b) == rounded_mantissa * (unit * (ua
        * ub)));
    assert(rounded_mantissa * (unit * (ua * ub)) == x * (ua * ub)) by (nonlinear_arith)
        requires
            x == rounded_mantissa * unit,
    ;
    assert((a.mantissa * ua) * (b.mantissa * ub) == p * (ua * ub)) by (nonlinear_arith)
        requires
            p == a.mantissa * b.mantissa,
    ;
    assert(ua * ub >= 0) by (nonlinear_arith)
        requires
            ua > 0,
            ub > 0,
    ;
    lemma_within_scale(x, p as int, 1, ua * ub);
}

/// Scaling keeps numbers near each other.
proof fn lemma_within_scale(x: int, y: int, steps: int, factor: int)
    requires
        within(x, y, steps),
        factor >= 0,
    ensures
        within(x * factor, y * factor, steps),
{
    let n = MANTISSA_LIMIT as int;
    assert((n - steps) * (y * factor) <= n * (x * factor) <= (n + steps) * (y * factor))
        by (nonlinear_arith)
        requires
            (n - steps) * y <= n * x <= (n + steps) * y,
            factor >= 0,
    ;
}

/// Errors add up: if `z` is near `x * w` and `x` is near `y`, then `z` is near `y * w`.
pub proof fn lemma_within_chain(z: int, x: int, y: int, w: int, steps: int)
    requires
        within(x, y, steps),
        within(z, x * w, 1),
        0 <= steps <= 1000,
        y >= 0,
        w >= 0,
    ensures
        within(z, y * w, steps + 2),
{
    let n = MANTISSA_LIMIT as int;
    lemma_within_scale(x, y, steps, w);
    let u = x * w;
    let v = y * w;
    assert(v >= 0) by (nonlinear_arith)
        requires
            y >= 0,
            w >= 0,
            v == y * w,
    ;
    assert(n * z <= (n + steps + 2) * v) by (nonlinear_arith)
        requires
            n * z <= (n + 1) * u,
            n * u <= (n + steps) * v,
            v >= 0,
            0 <= steps <= 1000,
            n == 0x20_0000_0000_0000,
    ;
    assert((n - (steps + 2)) * v <= n * z) by (nonlinear_arith)
        requires
            (n - 1) * u <= n * z,
            (n - steps) * v <= n * u,
            v >= 0,
            0 <= steps <= 1000,
            n == 0x20_0000_0000_0000,
    ;
}

/// The ceiling of a number with `shift` fractional bits.
pub proof fn lemma_ceiling(a: Scaled, shift: nat)
    requires
        a.exponent + shift >= 0,
    ensures
        (ceiling(a) - 1) * pow2(shift) < shifted_value(a, shift) <= ceiling(a) * pow2(shift),
{
    lemma_pow2_pos(shift);
    let unit = pow2(shift) as int;
    if a.exponent >= 0 {
        lemma_pow2_adds(a.exponent as nat, shift);
        let whole = pow2(a.exponent as nat) as int;
        assert(a.mantissa * (whole * unit) == (a.mantissa * whole) * unit) by (nonlinear_arith);
        let c = a.mantissa * whole;
        assert((c - 1) * unit == c * unit - unit) by (nonlinear_arith);
    } else {
        let low = (-a.exponent) as nat;
        let high = (a.exponent + shift) as nat;
        lemma_pow2_adds(low, high);
        lemma_pow2_pos(low);
        lemma_pow2_pos(high);
        let l = pow2(low) as int;
        let h = pow2(high) as int;
        let m = a.mantissa as int;
        let c = ceiling(a) as int;
        lemma_fundamental_div_mod(m + l - 1, l);
        assert((c - 1) * l == l * c - l) by (nonlinear_arith);
        assert(c * l == l * c) by (nonlinear_arith);
        assert((c - 1) * l < m <= c * l);
        assert((c - 1) * (l * h) < m * h <= c * (l * h)) by (nonlinear_arith)
            requires
                (c - 1) * l < m <= c * l,
                h > 0,
        ;
    }
}

/// `p`, rounded to the significant bits, as an integer.
pub open spec fn rounded_integer(p: nat) -> int {
    (round_half_even(p, excess_bits(p)) * pow2(excess_bits(p))) as int
}

/// What is larger has no fewer excess bits.
proof fn lemma_excess_bits_monotone(p: nat, q: nat)
    requires
        p <= q,
    ensures
        excess_bits(p) <= excess_bits(q),
    decreases p,
{
    if p >= MANTISSA_LIMIT {
        lemma_excess_bits_monotone(p / 2, q / 2);
    }
}

/// Without its excess bits a number is a mantissa.
proof fn lemma_excess_bits_bound(p: nat)
    ensures
        p < MANTISSA_LIMIT * pow2(excess_bits(p)),
    decreases p,
{
    lemma2_to64();
    if p >= MANTISSA_LIMIT {
        lemma_excess_bits_bound(p / 2);
        lemma_pow2_unfold(excess_bits(p));
    }
}

/// Rounding keeps the order of integers.
proof fn lemma_rounding_monotone(p: nat, q: nat)
    requires
        p <= q,
    ensures
        rounded_integer(p) <= rounded_integer(q),
{
    let bits_p = excess_bits(p);
    let bits_q = excess_bits(q);
    let unit_p = pow2(bits_p) as int;
    let unit_q = pow2(bits_q) as int;
    let floor_p = p as int / unit_p;
    let floor_q = q as int / unit_q;
    let mantissa_p = round_half_even(p, bits_p) as int;
    let mantissa_q = round_half_even(q, bits_q) as int;
    lemma_pow2_pos(bits_p);
    lemma_pow2_pos(bits_q);
    lemma_excess_bits_monotone(p, q);
    lemma_fundamental_div_mod(p as int, unit_p);
    lemma_fundamental_div_mod(q as int, unit_q);
    if bits_p == bits_q {
        assert(floor_p <= floor_q) by (nonlinear_arith)
            requires
                unit_p > 0,
                p <= q,
                p == unit_p * floor_p + p as int % unit_p,
                q == unit_p * floor_q + q as int % unit_p,
                0 <= p as int % unit_p,
                q as int % unit_p < unit_p,
        ;
        assert(mantissa_p <= mantissa_q);
        assert(mantissa_p * unit_p <= mantissa_q * unit_p) by (nonlinear_arith)
            requires
                mantissa_p <= mantissa_q,
                unit_p > 0,
        ;
    } else {
        let limit = MANTISSA_LIMIT as int;
        lemma_excess_bits_bound(p);
        lemma_excess_bits(q);
        assert(floor_p < limit) by (nonlinear_arith)
            requires
                unit_p > 0,
                p < limit * unit_p,
                unit_p * floor_p <= p,
        ;
        assert(2 * (floor_q + 1) > limit) by (nonlinear_arith)
            requires
                unit_q > 0,
                limit * unit_q <= 2 * q,
                q < unit_q * floor_q + unit_q,
        ;
        lemma_pow2_unfold((bits_p + 1) as nat);
        if bits_p + 1 < bits_q {
            lemma_pow2_strictly_increases((bits_p + 1) as nat, bits_q);
        }
        assert(mantissa_p * unit_p <= mantissa_q * unit_q) by (nonlinear_arith)
            requires
                mantissa_p <= limit,
                2 * mantissa_q >= limit,
                mantissa_q >= 0,
                2 * unit_p <= unit_q,
                unit_p > 0,
        ;
    }
}

/// Rounding does not depend on how a number is written.
proof fn lemma_rounded_double(p: nat, exponent: int, shift: nat)
    requires
        exponent + shift >= 1,
    ensures
        shifted_value(rounded(2 * p, exponent - 1), shift) == shifted_value(
            rounded(p, exponent),
            shift,
        ),
{
    let bits = excess_bits(p);
    lemma2_to64();
    if 2 * p < MANTISSA_LIMIT {
        let unit = pow2((exponent + shift - 1) as nat) as int;
        lemma_pow2_unfold((exponent + shift) as nat);
        assert(p as int / 1 == p && (2 * p) as int / 1 == 2 * p);
        assert((2 * p) * unit == p * (2 * unit)) by (nonlinear_arith);
    } else {
        let unit = pow2(bits) as int;
        lemma_pow2_pos(bits);
        lemma_pow2_unfold(bits + 1);
        assert((2 * p) / 2 == p);
        assert(excess_bits(2 * p) == bits + 1);
        lemma_fundamental_div_mod(p as int, unit);
        let floor = p as int / unit;
        let rest = p as int % unit;
        assert(2 * p == (2 * unit) * floor + 2 * rest) by (nonlinear_arith)
            requires
                p == unit * floor + rest,
        ;
        lemma_fundamental_div_mod_converse((2 * p) as int, 2 * unit, floor, 2 * rest);
    }
}

/// Rounding does not depend on how a number is written.
proof fn lemma_rounded_shift(p: nat, exponent: int, bits: nat, shift: nat)
    requires
        exponent - bits + shift >= 0,
    ensures
        shifted_value(rounded(p * pow2(bits), exponent - bits), shift) == shifted_value(
            rounded(p, exponent),
            shift,
        ),
    decreases bits,
{
    lemma2_to64();
    if bits > 0 {
        let less = (bits - 1) as nat;
        let unit = pow2(less);
        lemma_rounded_shift(p, exponent, less, shift);
        lemma_rounded_double(p * unit, exponent - less, shift);
        lemma_pow2_unfold(bits);
        assert(2 * (p * unit) == p * (2 * unit)) by (nonlinear_arith);
    } else {
        assert(p * 1 == p);
    }
}

/// A rounded product is the product of the values, rounded.
proof fn lemma_product_value(a: Scaled, b: Scaled, shift_a: nat, shift_b: nat)
    requires
        a.exponent + shift_a >= 0,
        b.exponent + shift_b >= 0,
    ensures
        shifted_value(product(a, b), shift_a + shift_b) == rounded_integer(
            (shifted_value(a, shift_a) * shifted_value(b, shift_b)) as nat,
        ),
{
    let bits_a = (a.exponent + shift_a) as nat;
    let bits_b = (b.exponent + shift_b) as nat;
    let p = a.mantissa * b.mantissa;
    let ua = pow2(bits_a);
    let ub = pow2(bits_b);
    lemma_pow2_adds(bits_a, bits_b);
    lemma_rounded_shift(p, a.exponent + b.exponent, bits_a + bits_b, shift_a + shift_b);
    assert((a.mantissa * ua) * (b.mantissa * ub) == p * (ua * ub)) by (nonlinear_arith)
        requires
            p == a.mantissa * b.mantissa,
    ;
}

/// A rounded integer grows with the integer.
pub proof fn lemma_integer_monotone(p: nat, q: nat)
    requires
        p <= q,
    ensures
        shifted_value(rounded(p, 0), 0) <= shifted_value(rounded(q, 0), 0),
{
    lemma_rounding_monotone(p, q);
}

/// A rounded product grows with its factors.
pub proof fn lemma_product_monotone(
    a: Scaled,
    b: Scaled,
    c: Scaled,
    d: Scaled,
    shift_1: nat,
    shift_2: nat,
)
    requires
        a.exponent + shift_1 >= 0,
        c.exponent + shift_1 >= 0,
        b.exponent + shift_2 >= 0,
        d.exponent + shift_2 >= 0,
        shifted_value(a, shift_1) <= shifted_value(c, shift_1),
        shifted_value(b, shift_2) <= shifted_value(d, shift_2),
    ensures
        shifted_value(product(a, b), shift_1 + shift_2) <= shifted_value(
            product(c, d),
            shift_1 + shift_2,
        ),
        product(a, b).exponent >= a.exponent + b.exponent,
        product(c, d).exponent >= c.exponent + d.exponent,
{
    let va = shifted_value(a, shift_1);
    let vb = shifted_value(b, shift_2);
    let vc = shifted_value(c, shift_1);
    let vd = shifted_value(d, shift_2);
    lemma_product_value(a, b, shift_1, shift_2);
    lemma_product_value(c, d, shift_1, shift_2);
    assert(0 <= va * vb <= vc * vd) by (nonlinear_arith)
        requires
            0 <= va <= vc,
            0 <= vb <= vd,
    ;
    lemma_rounding_monotone((va * vb) as nat, (vc * vd) as nat);
}

/// A number that is no smaller has no smaller ceiling.
pub proof fn lemma_ceiling_monotone(a: Scaled, b: Scaled, shift: nat)
    requires
        a.exponent + shift >= 0,
        b.exponent + shift >= 0,
        shifted_value(a, shift) <= shifted_value(b, shift),
    ensures
        ceiling(a) <= ceiling(b),
{
    lemma_pow2_pos(shift);
    lemma_ceiling(a, shift);
    lemma_ceiling(b, shift);
    let unit = pow2(shift) as int;
    let ca = ceiling(a) as int;
    let cb = ceiling(b) as int;
    assert(ca - 1 < cb) by (nonlinear_arith)
        requires
            (ca - 1) * unit < cb * unit,
            unit > 0,
    ;
}

/// A rounded number is the nearest of all numbers whose mantissa fits in the significant bits, and
/// where another one is just as near, it is the one with an even mantissa.
pub proof fn law_rounded_is_nearest(p: nat, exponent: int, mantissa: nat, bits: nat)
    requires
        mantissa <= 0x20_0000_0000_0000,
    ensures
        ({
            let number = rounded(p, exponent);
            let value = number.mantissa * pow2((number.exponent - exponent) as nat);
            let other = mantissa * pow2(bits);
            &&& number.exponent >= exponent
            &&& number.mantissa <= 0x20_0000_0000_0000
            &&& abs(value - p) <= abs(other - p)
            &&& abs(value - p) == abs(other - p) && other != value ==> number.mantissa % 2 == 0
        }),
{
    let excess = excess_bits(p);
    let unit = pow2(excess) as int;
    let floor = p as int / unit;
    let rest = p as int % unit;
    let limit = MANTISSA_LIMIT as int;
    let number = rounded(p, exponent);
    let m = number.mantissa as int;
    let other = (mantissa * pow2(bits)) as int;
    lemma2_to64();
    lemma_pow2_pos(excess);
    lemma_pow2_pos(bits);
    lemma_excess_bits_bound(p);
    lemma_excess_bits(p);
    lemma_fundamental_div_mod(p as int, unit);
    assert(floor < limit) by (nonlinear_arith)
        requires
            unit > 0,
            p < limit * unit,
            unit * floor <= p,
    ;
    assert(floor * unit == unit * floor && (floor + 1) * unit == unit * floor + unit)
        by (nonlinear_arith);
    if excess == 0 {
        assert(unit == 1 && rest == 0 && m == p);
        assert(m * unit == p);
    } else {
        let low = floor * unit;
        assert(m * unit == low || m * unit == low + unit);
        if bits < excess {
            let step = pow2(bits) as int;
            lemma_pow2_unfold((bits + 1) as nat);
            if bits + 1 < excess {
                lemma_pow2_strictly_increases((bits + 1) as nat, excess);
            }
            assert(2 * (floor + 1) > limit) by (nonlinear_arith)
                requires
                    unit > 0,
                    limit * unit <= 2 * p,
                    p < unit * floor + unit,
            ;
            assert(other <= low) by (nonlinear_arith)
                requires
                    other == mantissa * step,
                    mantissa <= limit,
                    2 * step <= unit,
                    2 * floor >= limit,
                    low == floor * unit,
                    step > 0,
            ;
        } else {
            let times = pow2((bits - excess) as nat) as int;
            lemma_pow2_adds(excess, (bits - excess) as nat);
            let n = mantissa * times;
            assert(other == n * unit) by (nonlinear_arith)
                requires
                    other == mantissa * (unit * times),
                    n == mantissa * times,
            ;
            assert(n * unit <= floor * unit || n * unit >= (floor + 1) * unit)
                by (nonlinear_arith)
                requires
                    unit > 0,
            ;
        }
        assert(other <= low || other >= low + unit);
    }
}

/// The ceiling of a number is the least integer that is no smaller: the value, times `2^shift`,
/// lies above one less and no higher than the ceiling.
pub proof fn law_ceiling_is_least(a: Scaled, shift: nat)
    requires
        a.exponent + shift >= 0,
    ensures
        a.mantissa * pow2((a.exponent + shift) as nat) <= ceiling(a) * pow2(shift),
        (ceiling(a) - 1) * pow2(shift) < a.mantissa * pow2((a.exponent + shift) as nat),
{
    lemma_ceiling(a, shift);
}

/// The value of a large power of two.
proof fn lemma_pow2_120()
    ensures
        pow2(120) == 0x100_0000_0000_0000 * 0x1_0000_0000_0000_0000,
{
    lemma2_to64_rest();
    lemma_pow2_adds(56, 64);
}

/// A number `mantissa * 2^exponent`.
#[derive(Debug, Clone, Copy)]
pub struct Binary64 {
    pub mantissa: u64,
    pub exponent: i32,
}

impl View for Binary64 {
    type V = Scaled;

    open spec fn view(&self) -> Scaled {
        Scaled { mantissa: self.mantissa as nat, exponent: self.exponent as int }
    }
}

impl Binary64 {
    /// The mantissa fits in the significant bits.
    pub open spec fn wf(&self) -> bool {
        self.mantissa <= MANTISSA_LIMIT
    }

    /// The number `p * 2^exponent`, rounded to the significant bits.
    fn round(p: u128, exponent: i32) -> (number: Self)
        requires
            p <= PRODUCT_LIMIT,
            -1000 <= exponent <= 1000,
        ensures
            number.wf(),
            number@ == rounded(p as nat, exponent as int),
            exponent <= number.exponent <= exponent + 54,
    {
        let mut floor: u128 = p;
        let mut unit: u128 = 1;
        let mut bits: i32 = 0;
        proof {
            lemma2_to64();
            assert(p as nat / pow2(0) == p);
        }
        while floor >= MANTISSA_LIMIT as u128
            invariant
                0 <= bits <= 54,
                p <= PRODUCT_LIMIT,
                1 <= unit <= 2 * MANTISSA_LIMIT,
                unit == pow2(bits as nat),
                floor == p as nat / pow2(bits as nat),
                bits + excess_bits(floor as nat) == excess_bits(p as nat),
            decreases floor,
        {
            proof {
                lemma_fundamental_div_mod(p as int, unit as int);
                assert(unit <= MANTISSA_LIMIT) by (nonlinear_arith)
                    requires
                        unit * floor <= p,
                        p <= PRODUCT_LIMIT,
                        floor >= MANTISSA_LIMIT,
                ;
                if bits >= 54 {
                    lemma2_to64_rest();
                    if bits > 54 {
                        lemma_pow2_strictly_increases(54, bits as nat);
                    }
                }
                lemma_pow2_unfold((bits + 1) as nat);
                lemma_pow2_pos(bits as nat);
                lemma_div_denominator(p as int, pow2(bits as nat) as int, 2);
            }
            floor = floor / 2;
            unit = unit * 2;
            bits = bits + 1;
        }
        let rest: u128 = p % unit;
        let up: bool = 2 * rest > unit || (2 * rest == unit && floor % 2 == 1);
        let mantissa: u64 = if up {
            floor as u64 + 1
        } else {
            floor as u64
        };
        Binary64 { mantissa, exponent: exponent + bits }
    }

    /// The number nearest to `n`.
    pub(crate) fn from_usize(n: usize) -> (number: Self)
        ensures
            number.wf(),
            number@ == rounded(n as nat, 0),
            0 <= number.exponent <= 54,
    {
        Self::round(n as u128, 0)
    }

    /// The rounded product of `self` and `other`.
    pub(crate) fn times(self, other: Self) -> (number: Self)
        requires
            self.wf(),
            other.wf(),
            -1000 <= self.exponent + other.exponent <= 1000,
        ensures
            number.wf(),
            number@ == product(self@, other@),
            self.exponent + other.exponent <= number.exponent <= self.exponent + other.exponent
                + 54,
    {
        let a: u128 = self.mantissa as u128;
        let b: u128 = other.mantissa as u128;
        assert(a * b <= PRODUCT_LIMIT) by (nonlinear_arith)
            requires
                a <= MANTISSA_LIMIT,
                b <= MANTISSA_LIMIT,
        ;
        Self::round(a * b, self.exponent + other.exponent)
    }

    /// The smallest integer that is no less than the number, or `usize::MAX` where that is
    /// smaller.
    pub(crate) fn ceil_to_usize(self) -> (n: usize)
        requires
            self.wf(),
            -120 <= self.exponent <= 1000,
        ensures
            n == if ceiling(self@) <= usize::MAX {
                ceiling(self@) as int
            } else {
                usize::MAX as int
            },
    {
        if self.exponent >= 0 {
            let mut value: u128 = self.mantissa as u128;
            let mut bits: i32 = 0;
            proof {
                lemma2_to64();
                assert(self.mantissa * pow2(0) == self.mantissa) by (nonlinear_arith)
                    requires
                        pow2(0) == 1,
                ;
            }
            while bits < self.exponent
                invariant
                    0 <= bits <= self.exponent <= 1000,
                    self.mantissa <= MANTISSA_LIMIT,
                    value <= u64::MAX,
                    value == self.mantissa * pow2(bits as nat),
                decreases self.exponent - bits,
            {
                proof {
                    lemma_pow2_unfold((bits + 1) as nat);
                    let unit = pow2(bits as nat);
                    assert(self.mantissa * (2 * unit) == 2 * (self.mantissa * unit))
                        by (nonlinear_arith);
                }
                value = value * 2;
                bits = bits + 1;
                if value > usize::MAX as u128 {
                    proof {
                        let unit = pow2(bits as nat);
                        if bits < self.exponent {
                            lemma_pow2_strictly_increases(bits as nat, self.exponent as nat);
                        }
                        let whole = pow2(self.exponent as nat);
                        assert(self.mantissa * unit <= self.mantissa * whole) by (nonlinear_arith)
                            requires
                                unit <= whole,
                                self.mantissa >= 0,
                        ;
                    }
                    return usize::MAX;
                }
            }
            if value > usize::MAX as u128 {
                usize::MAX
            } else {
                value as usize
            }
        } else {
            let mut unit: u128 = 1;
            let mut bits: i32 = 0;
            proof {
                lemma2_to64();
            }
            while bits < -self.exponent
                invariant
                    0 <= bits <= -self.exponent <= 120,
                    unit == pow2(bits as nat),
                    unit <= 0x8000_0000_0000_0000_0000_0000_0000_0000u128,
                decreases -self.exponent - bits,
            {
                proof {
                    lemma_pow2_unfold((bits + 1) as nat);
                    if bits < 120 {
                        lemma_pow2_strictly_increases(bits as nat, 120);
                    }
                    lemma_pow2_120();
                }
                unit = unit * 2;
                bits = bits + 1;
            }
            proof {
                lemma_pow2_pos(bits as nat);
                lemma_pow2_120();
                if bits < 120 {
                    lemma_pow2_strictly_increases(bits as nat, 120);
                }
            }
            let value: u128 = (self.mantissa as u128 + (unit - 1)) / unit;
            assert(value <= MANTISSA_LIMIT) by (nonlinear_arith)
                requires
                    value == (self.mantissa + (unit - 1)) / unit as int,
                    self.mantissa <= MANTISSA_LIMIT,
                    unit >= 1,
            ;
            if value > usize::MAX as u128 {
                usize::MAX
            } else {
                value as usize
            }
        }
    }
}

} // verus!
