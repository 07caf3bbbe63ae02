//! Floating-point values as IEEE 754 bit patterns.
//!
//! A double is held as the `u64` of its bits and a single as the `u32` of
//! its bits. Classifying, comparing, ordering, negating and truncating such
//! values are exact operations on integers, and all of them live here; what
//! rounds is left to a [`FloatUnit`](crate::unit::FloatUnit).
use vstd::arithmetic::div_mod::{lemma_basic_div, lemma_div_is_ordered, lemma_div_multiples_vanish_quotient};
use vstd::arithmetic::power2::{
    lemma2_to64, lemma_pow2_adds, lemma_pow2_pos, lemma_pow2_strictly_increases, lemma_pow2_unfold, pow2,
};
use vstd::prelude::*;

verus! {

/// `-0.0`: the sign bit alone.
pub const NEG_ZERO: u64 = 0x8000_0000_0000_0000;

/// `+inf`.
pub const INFINITY: u64 = 0x7ff0_0000_0000_0000;

/// The quiet NaN that stands for a missing angle.
pub const NAN: u64 = 0x7ff8_0000_0000_0000;

/// `0.0`.
pub const ZERO: u64 = 0;

/// `0.5`.
pub const HALF: u64 = 0x3fe0_0000_0000_0000;

/// `1.0`.
pub const ONE: u64 = 0x3ff0_0000_0000_0000;

/// `-1.0`.
pub const NEG_ONE: u64 = 0xbff0_0000_0000_0000;

/// `2.0`.
pub const TWO: u64 = 0x4000_0000_0000_0000;

/// `180.0`.
pub const HALF_TURN: u64 = 0x4066_8000_0000_0000;

/// `360.0`.
pub const FULL_TURN: u64 = 0x4076_8000_0000_0000;

/// `1e-12`, below which a spread counts as none.
pub const TINY: u64 = 0x3d71_9799_812d_ea11;

/// The sign bit of a single.
pub const NEG_ZERO_32: u32 = 0x8000_0000;

/// `+inf` as a single.
pub const INFINITY_32: u32 = 0x7f80_0000;

/// `0.0` as a single.
pub const ZERO_32: u32 = 0;

/// `1.0` as a single.
pub const ONE_32: u32 = 0x3f80_0000;

/// `255.0` as a single.
pub const WHITE_32: u32 = 0x437f_0000;

/// Weight of the least exponent bit of a double.
pub const EXPONENT_UNIT: u64 = 0x10_0000_0000_0000;

/// Weight of the least exponent bit of a single.
pub const EXPONENT_UNIT_32: u32 = 0x80_0000;

/// Whether the sign bit is set.
pub open spec fn negative(b: u64) -> bool {
    b >= NEG_ZERO
}

/// The bits below the sign bit; they grow with the absolute value.
pub open spec fn magnitude(b: u64) -> int {
    if negative(b) {
        b - NEG_ZERO
    } else {
        b as int
    }
}

/// Neither infinite nor a NaN.
pub open spec fn finite(b: u64) -> bool {
    magnitude(b) < INFINITY
}

/// A NaN.
pub open spec fn nan(b: u64) -> bool {
    magnitude(b) > INFINITY
}

/// A number whose sign bit is not set.
pub open spec fn not_negative(b: u64) -> bool {
    !nan(b) && !negative(b)
}

/// The place of a number on the real line: equal for equal numbers (both
/// zeros are 0) and growing with them.
pub open spec fn rank(b: u64) -> int {
    if negative(b) {
        -magnitude(b)
    } else {
        magnitude(b)
    }
}

/// `a <= b` as numbers; false as soon as one is a NaN.
pub open spec fn at_most(a: u64, b: u64) -> bool {
    !nan(a) && !nan(b) && rank(a) <= rank(b)
}

/// `a < b` as numbers; false as soon as one is a NaN.
pub open spec fn below(a: u64, b: u64) -> bool {
    !nan(a) && !nan(b) && rank(a) < rank(b)
}

/// The place in the IEEE 754 `totalOrder`: negative NaNs first, then the
/// numbers with `-0.0` before `+0.0`, then positive NaNs.
pub open spec fn total_place(b: u64) -> int {
    if negative(b) {
        -1 - magnitude(b)
    } else {
        magnitude(b)
    }
}

/// The absolute value: the sign bit cleared.
pub open spec fn absolute(b: u64) -> u64 {
    magnitude(b) as u64
}

/// The opposite: the sign bit flipped.
pub open spec fn opposite(b: u64) -> u64 {
    if negative(b) {
        (b - NEG_ZERO) as u64
    } else {
        (b + NEG_ZERO) as u64
    }
}

/// `x` brought into `[lo, hi]`; a NaN stays as it is.
pub open spec fn clamped(x: u64, lo: u64, hi: u64) -> u64 {
    if below(x, lo) {
        lo
    } else if below(hi, x) {
        hi
    } else {
        x
    }
}

/// The number as a multiple of the smallest positive double: every finite
/// double is a whole multiple of it.
pub open spec fn scaled(b: u64) -> int {
    if negative(b) {
        -scaled_magnitude(magnitude(b))
    } else {
        scaled_magnitude(magnitude(b))
    }
}

/// The multiple that the bits below the sign stand for.
pub open spec fn scaled_magnitude(m: int) -> int {
    let exponent = m / EXPONENT_UNIT as int;
    if exponent <= 0 {
        m
    } else {
        (m % EXPONENT_UNIT as int + EXPONENT_UNIT) * pow2((exponent - 1) as nat)
    }
}

/// Whether a double has the value `n`.
pub open spec fn representable(n: int) -> bool {
    exists|b: u64| finite(b) && #[trigger] scaled(b) == n
}

/// Whether `n / d` is a whole multiple of the smallest positive double, and a
/// double has that value.
pub open spec fn divides(n: int, d: int) -> bool {
    d != 0 && n % d == 0 && representable(n / d)
}

/// [`scaled`] for a single, in the same units.
pub open spec fn scaled32(b: u32) -> int {
    if b >= NEG_ZERO_32 {
        -scaled_magnitude32(magnitude32(b))
    } else {
        scaled_magnitude32(magnitude32(b))
    }
}

/// The multiple of the smallest positive double that the bits of a single
/// below the sign stand for.
pub open spec fn scaled_magnitude32(m: int) -> int {
    let exponent = m / EXPONENT_UNIT_32 as int;
    if exponent <= 0 {
        m * pow2(925)
    } else {
        (m % EXPONENT_UNIT_32 as int + EXPONENT_UNIT_32) * pow2((exponent - 1) as nat) * pow2(925)
    }
}

/// Whether `b` is zero or far from both ends of the range: neither it nor twice
/// or four times it overflows or is denormal.
pub open spec fn moderate(b: u64) -> bool {
    magnitude(b) == 0 || 2 <= magnitude(b) / EXPONENT_UNIT as int <= 2040
}

/// Whether `r` is zero only where `a` is.
pub open spec fn vanishes_with(r: u64, a: u64) -> bool {
    magnitude(r) == 0 ==> magnitude(a) == 0
}

/// Twice a moderate number: its exponent is one larger.
pub open spec fn doubled(b: u64) -> u64 {
    if magnitude(b) == 0 {
        b
    } else {
        (b + EXPONENT_UNIT) as u64
    }
}

/// [`moderate`] for a single.
pub open spec fn moderate32(b: u32) -> bool {
    magnitude32(b) == 0 || 2 <= magnitude32(b) / EXPONENT_UNIT_32 as int <= 250
}

/// [`doubled`] for a single.
pub open spec fn doubled32(b: u32) -> u32 {
    if magnitude32(b) == 0 {
        b
    } else {
        (b + EXPONENT_UNIT_32) as u32
    }
}

/// The larger of `x` and the number `floor`; `floor` for a NaN.
pub open spec fn raised(x: u64, floor: u64) -> u64 {
    if below(floor, x) {
        x
    } else {
        floor
    }
}

/// The smaller of `x` and the number `ceiling`; `ceiling` for a NaN.
pub open spec fn lowered(x: u64, ceiling: u64) -> u64 {
    if below(x, ceiling) {
        x
    } else {
        ceiling
    }
}

/// The integer part of the non-negative finite number `m` bits stand for:
/// an implied leading one and 52 fraction bits, scaled by the exponent.
pub open spec fn whole_part(m: int) -> int {
    let exponent = m / EXPONENT_UNIT as int;
    let significand = m % EXPONENT_UNIT as int + EXPONENT_UNIT;
    if exponent >= 1075 {
        significand * pow2((exponent - 1075) as nat)
    } else {
        significand / pow2((1075 - exponent) as nat) as int
    }
}

/// Conversion to an index: towards zero, NaN and negatives to 0, what is
/// too large to the largest index.
pub open spec fn index_of(b: u64) -> int {
    if nan(b) || negative(b) {
        0
    } else if !finite(b) || whole_part(b as int) > usize::MAX {
        usize::MAX as int
    } else {
        whole_part(b as int)
    }
}

/// [`magnitude`] of a single.
pub open spec fn magnitude32(b: u32) -> int {
    if b >= NEG_ZERO_32 {
        b - NEG_ZERO_32
    } else {
        b as int
    }
}

/// [`finite`] for a single.
pub open spec fn finite32(b: u32) -> bool {
    magnitude32(b) < INFINITY_32
}

/// [`nan`] for a single.
pub open spec fn nan32(b: u32) -> bool {
    magnitude32(b) > INFINITY_32
}

/// [`rank`] of a single.
pub open spec fn rank32(b: u32) -> int {
    if b >= NEG_ZERO_32 {
        -magnitude32(b)
    } else {
        magnitude32(b)
    }
}

/// [`below`] for singles.
pub open spec fn below32(a: u32, b: u32) -> bool {
    !nan32(a) && !nan32(b) && rank32(a) < rank32(b)
}

/// [`total_place`] of a single.
pub open spec fn total_place32(b: u32) -> int {
    if b >= NEG_ZERO_32 {
        -1 - magnitude32(b)
    } else {
        magnitude32(b)
    }
}

/// [`absolute`] for a single.
pub open spec fn absolute32(b: u32) -> u32 {
    magnitude32(b) as u32
}

/// [`clamped`] for singles.
pub open spec fn clamped32(x: u32, lo: u32, hi: u32) -> u32 {
    if below32(x, lo) {
        lo
    } else if below32(hi, x) {
        hi
    } else {
        x
    }
}

/// [`whole_part`] of a single.
pub open spec fn whole_part32(m: int) -> int {
    let exponent = m / EXPONENT_UNIT_32 as int;
    let significand = m % EXPONENT_UNIT_32 as int + EXPONENT_UNIT_32;
    if exponent >= 150 {
        significand * pow2((exponent - 150) as nat)
    } else {
        significand / pow2((150 - exponent) as nat) as int
    }
}

/// Conversion of a single to a byte: towards zero, NaN and negatives to 0,
/// what is too large to 255.
pub open spec fn byte_of(b: u32) -> int {
    if nan32(b) || b >= NEG_ZERO_32 {
        0
    } else if !finite32(b) || whole_part32(b as int) > 255 {
        255
    } else {
        whole_part32(b as int)
    }
}

/// Whether `b` is neither infinite nor a NaN.
pub fn is_finite(b: u64) -> (r: bool)
    ensures
        r == finite(b),
{
    abs(b) < INFINITY
}

/// Whether `b` is a NaN.
pub fn is_nan(b: u64) -> (r: bool)
    ensures
        r == nan(b),
{
    abs(b) > INFINITY
}

/// The absolute value.
pub fn abs(b: u64) -> (r: u64)
    ensures
        r == absolute(b),
        r == magnitude(b),
{
    if b >= NEG_ZERO {
        b - NEG_ZERO
    } else {
        b
    }
}

/// The opposite.
pub fn negate(b: u64) -> (r: u64)
    ensures
        r == opposite(b),
{
    if b >= NEG_ZERO {
        b - NEG_ZERO
    } else {
        b + NEG_ZERO
    }
}

/// `a < b` as numbers.
pub fn less(a: u64, b: u64) -> (r: bool)
    ensures
        r == below(a, b),
{
    if is_nan(a) || is_nan(b) {
        false
    } else if a >= NEG_ZERO {
        if b >= NEG_ZERO {
            abs(a) > abs(b)
        } else {
            abs(a) > 0 || b > 0
        }
    } else {
        b < NEG_ZERO && a < b
    }
}

/// `a <= b` as numbers.
pub fn less_or_equal(a: u64, b: u64) -> (r: bool)
    ensures
        r == at_most(a, b),
{
    !is_nan(a) && !is_nan(b) && !less(b, a)
}

/// The place in the total order, as a signed integer.
pub fn total_key(b: u64) -> (r: i64)
    ensures
        r == total_place(b),
{
    if b >= NEG_ZERO {
        -1 - ((b - NEG_ZERO) as i64)
    } else {
        b as i64
    }
}

/// `x` brought into `[lo, hi]`.
pub fn clamp(x: u64, lo: u64, hi: u64) -> (r: u64)
    ensures
        r == clamped(x, lo, hi),
{
    if less(x, lo) {
        lo
    } else if less(hi, x) {
        hi
    } else {
        x
    }
}

/// The larger of `x` and the number `floor`.
pub fn raise(x: u64, floor: u64) -> (r: u64)
    ensures
        r == raised(x, floor),
{
    if less(floor, x) {
        x
    } else {
        floor
    }
}

/// The smaller of `x` and the number `ceiling`.
pub fn lower(x: u64, ceiling: u64) -> (r: u64)
    ensures
        r == lowered(x, ceiling),
{
    if less(x, ceiling) {
        x
    } else {
        ceiling
    }
}

/// Two to a power that a 64-bit word can hold.
fn power_of_two(k: u64) -> (r: u64)
    requires
        k <= 63,
    ensures
        r == pow2(k as nat),
        r >= 1,
{
    let mut r: u64 = 1;
    let mut i: u64 = 0;
    proof {
        lemma2_to64();
    }
    while i < k
        invariant
            i <= k <= 63,
            r == pow2(i as nat),
            r >= 1,
        decreases k - i,
    {
        proof {
            lemma2_to64();
            lemma_pow2_adds(i as nat, 1);
            if i + 1 < 63 {
                lemma_pow2_strictly_increases((i + 1) as nat, 63);
            }
            assert(pow2(63) == 0x8000_0000_0000_0000) by {
                vstd::arithmetic::power2::lemma2_to64_rest();
            }
        }
        r = r * 2;
        i = i + 1;
    }
    r
}

/// The conversion of a number to an index, as an `as usize` cast makes it.
pub fn to_index(b: u64) -> (r: usize)
    ensures
        r == index_of(b),
{
    if is_nan(b) || b >= NEG_ZERO {
        return 0;
    }
    if b >= INFINITY {
        return usize::MAX;
    }
    let exponent: u64 = b / EXPONENT_UNIT;
    let significand: u64 = b % EXPONENT_UNIT + EXPONENT_UNIT;
    if exponent >= 1075 {
        if exponent > 1086 {
            proof {
                let k = (exponent - 1075) as nat;
                lemma_pow2_adds(12, (k - 12) as nat);
                lemma_pow2_pos((k - 12) as nat);
                lemma2_to64();
                assert(pow2(k) >= 4096) by (nonlinear_arith)
                    requires
                        pow2(k) == 4096 * pow2((k - 12) as nat),
                        pow2((k - 12) as nat) >= 1,
                ;
                assert(significand * pow2(k) >= 0x10_0000_0000_0000 * 4096) by (nonlinear_arith)
                    requires
                        significand >= 0x10_0000_0000_0000,
                        pow2(k) >= 4096,
                ;
            }
            return usize::MAX;
        }
        let scale: u64 = power_of_two(exponent - 1075);
        proof {
            if exponent < 1086 {
                lemma_pow2_strictly_increases((exponent - 1075) as nat, 11);
            }
            lemma2_to64();
            assert(significand * scale <= 0x1f_ffff_ffff_ffff * 2048) by (nonlinear_arith)
                requires
                    significand <= 0x1f_ffff_ffff_ffff,
                    scale <= 2048,
            ;
        }
        let whole: u64 = significand * scale;
        if whole > usize::MAX as u64 {
            usize::MAX
        } else {
            whole as usize
        }
    } else {
        if exponent < 1022 {
            proof {
                let k = (1075 - exponent) as nat;
                lemma_pow2_strictly_increases(53, k);
                lemma2_to64();
                vstd::arithmetic::power2::lemma2_to64_rest();
                lemma_basic_div(significand as int, pow2(k) as int);
            }
            return 0;
        }
        let scale: u64 = power_of_two(1075 - exponent);
        proof {
            vstd::arithmetic::div_mod::lemma_div_is_ordered_by_denominator(significand as int, 1, scale as int);
        }
        let whole: u64 = significand / scale;
        if whole > usize::MAX as u64 {
            usize::MAX
        } else {
            whole as usize
        }
    }
}

/// Whether the single `b` is neither infinite nor a NaN.
pub fn is_finite32(b: u32) -> (r: bool)
    ensures
        r == finite32(b),
{
    abs32(b) < INFINITY_32
}

/// The absolute value of a single.
pub fn abs32(b: u32) -> (r: u32)
    ensures
        r == absolute32(b),
        r == magnitude32(b),
{
    if b >= NEG_ZERO_32 {
        b - NEG_ZERO_32
    } else {
        b
    }
}

/// `a < b` as numbers, for singles.
pub fn less32(a: u32, b: u32) -> (r: bool)
    ensures
        r == below32(a, b),
{
    if abs32(a) > INFINITY_32 || abs32(b) > INFINITY_32 {
        false
    } else if a >= NEG_ZERO_32 {
        if b >= NEG_ZERO_32 {
            abs32(a) > abs32(b)
        } else {
            abs32(a) > 0 || b > 0
        }
    } else {
        b < NEG_ZERO_32 && a < b
    }
}

/// The place of a single in the total order, as a signed integer.
pub fn total_key32(b: u32) -> (r: i64)
    ensures
        r == total_place32(b),
{
    if b >= NEG_ZERO_32 {
        -1 - ((b - NEG_ZERO_32) as i64)
    } else {
        b as i64
    }
}

/// `x` brought into `[lo, hi]`, for singles.
pub fn clamp32(x: u32, lo: u32, hi: u32) -> (r: u32)
    ensures
        r == clamped32(x, lo, hi),
{
    if less32(x, lo) {
        lo
    } else if less32(hi, x) {
        hi
    } else {
        x
    }
}

/// The conversion of a single to a byte, as an `as u8` cast makes it.
pub fn to_byte(b: u32) -> (r: u8)
    ensures
        r == byte_of(b),
{
    if abs32(b) > INFINITY_32 || b >= NEG_ZERO_32 {
        return 0;
    }
    if b >= INFINITY_32 {
        return 255;
    }
    let exponent: u32 = b / EXPONENT_UNIT_32;
    let significand: u32 = b % EXPONENT_UNIT_32 + EXPONENT_UNIT_32;
    if exponent >= 150 {
        proof {
            let k = (exponent - 150) as nat;
            lemma_pow2_pos(k);
            assert(significand * pow2(k) >= 0x80_0000) by (nonlinear_arith)
                requires
                    significand >= 0x80_0000,
                    pow2(k) >= 1,
            ;
        }
        return 255;
    }
    if exponent < 120 {
        proof {
            let k = (150 - exponent) as nat;
            lemma_pow2_strictly_increases(24, k);
            lemma2_to64();
            lemma_basic_div(significand as int, pow2(k) as int);
        }
        return 0;
    }
    let scale: u64 = power_of_two((150 - exponent) as u64);
    let whole: u64 = significand as u64 / scale;
    if whole > 255 {
        255
    } else {
        whole as u8
    }
}

/// The total order refines the order of the numbers: a smaller number has a
/// smaller place.
pub proof fn law_total_order_refines_less(a: u64, b: u64)
    requires
        below(a, b),
    ensures
        total_place(a) < total_place(b),
{
}

/// The integer part of the smallest number with this exponent.
spec fn least_whole(exponent: int) -> int {
    if exponent >= 1075 {
        EXPONENT_UNIT * pow2((exponent - 1075) as nat)
    } else {
        EXPONENT_UNIT as int / pow2((1075 - exponent) as nat) as int
    }
}

proof fn lemma_whole_part_bounds(m: int)
    requires
        0 <= m,
    ensures
        least_whole(m / EXPONENT_UNIT as int) <= whole_part(m) <= least_whole(m / EXPONENT_UNIT as int + 1),
{
    let e = m / EXPONENT_UNIT as int;
    let s = m % EXPONENT_UNIT as int + EXPONENT_UNIT;
    if e >= 1075 {
        let p = pow2((e - 1075) as nat) as int;
        lemma_pow2_unfold((e - 1074) as nat);
        assert(EXPONENT_UNIT * p <= s * p <= EXPONENT_UNIT * (2 * p)) by (nonlinear_arith)
            requires
                EXPONENT_UNIT <= s <= 2 * EXPONENT_UNIT,
                p >= 0,
        ;
    } else {
        let q = pow2((1075 - e) as nat) as int;
        lemma_pow2_pos((1075 - e) as nat);
        lemma_pow2_unfold((1075 - e) as nat);
        let r = pow2((1074 - e) as nat) as int;
        lemma_pow2_pos((1074 - e) as nat);
        lemma_div_is_ordered(EXPONENT_UNIT as int, s, q);
        lemma_div_is_ordered(s, 2 * EXPONENT_UNIT, q);
        lemma_div_multiples_vanish_quotient(2, EXPONENT_UNIT as int, r);
        lemma2_to64();
    }
}

proof fn lemma_least_whole_grows(e: int, f: int)
    requires
        0 <= e <= f,
    ensures
        least_whole(e) <= least_whole(f),
    decreases f - e,
{
    if e < f {
        let m = (f - 1) * EXPONENT_UNIT;
        assert(m / EXPONENT_UNIT as int == f - 1);
        lemma_whole_part_bounds(m);
        lemma_least_whole_grows(e, f - 1);
    }
}

proof fn lemma_whole_part_grows(m: int, n: int)
    requires
        0 <= m <= n,
    ensures
        whole_part(m) <= whole_part(n),
{
    let (e, f) = (m / EXPONENT_UNIT as int, n / EXPONENT_UNIT as int);
    let (s, t) = (m % EXPONENT_UNIT as int + EXPONENT_UNIT, n % EXPONENT_UNIT as int + EXPONENT_UNIT);
    if e == f {
        assert(s <= t);
        if e >= 1075 {
            let p = pow2((e - 1075) as nat) as int;
            assert(s * p <= t * p) by (nonlinear_arith)
                requires
                    s <= t,
                    p >= 0,
            ;
        } else {
            lemma_pow2_pos((1075 - e) as nat);
            lemma_div_is_ordered(s, t, pow2((1075 - e) as nat) as int);
        }
    } else {
        assert(e + 1 <= f);
        lemma_whole_part_bounds(m);
        lemma_whole_part_bounds(n);
        lemma_least_whole_grows(e + 1, f);
    }
}

/// A larger number has no smaller index.
pub proof fn law_index_grows_with_the_number(a: u64, b: u64)
    requires
        at_most(a, b),
    ensures
        index_of(a) <= index_of(b),
{
    if !negative(a) && !negative(b) && finite(a) && finite(b) {
        lemma_whole_part_grows(a as int, b as int);
    }
    lemma_zero_is_whole();
    if !negative(b) {
        lemma_whole_part_grows(0, b as int);
    }
}

/// The integer part of zero.
pub proof fn lemma_zero_is_whole()
    ensures
        whole_part(0) == 0,
        index_of(ZERO) == 0,
{
    lemma_pow2_strictly_increases(53, 1075);
    vstd::arithmetic::power2::lemma2_to64_rest();
    lemma_basic_div(EXPONENT_UNIT as int, pow2(1075) as int);
}

proof fn lemma_scaled_magnitude_grows(m: int, n: int)
    requires
        0 <= m < n,
    ensures
        scaled_magnitude(m) < scaled_magnitude(n),
{
    let u = EXPONENT_UNIT as int;
    let (e, f) = (m / u, n / u);
    let (s, t) = (m % u + u, n % u + u);
    if e == f {
        if e > 0 {
            let p = pow2((e - 1) as nat) as int;
            lemma_pow2_pos((e - 1) as nat);
            assert(s * p < t * p) by (nonlinear_arith)
                requires
                    s < t,
                    p > 0,
            ;
        }
    } else {
        assert(e < f);
        let p = pow2((f - 1) as nat) as int;
        assert(u * p <= t * p) by (nonlinear_arith)
            requires
                u <= t,
                p >= 0,
        ;
        let q = pow2(e as nat) as int;
        assert(q <= p) by {
            if e < f - 1 {
                lemma_pow2_strictly_increases(e as nat, (f - 1) as nat);
            }
        }
        assert(u * q <= u * p) by (nonlinear_arith)
            requires
                q <= p,
                u > 0,
        ;
        if e > 0 {
            let r = pow2((e - 1) as nat) as int;
            lemma_pow2_pos((e - 1) as nat);
            lemma_pow2_unfold(e as nat);
            assert(s * r < u * (2 * r)) by (nonlinear_arith)
                requires
                    s < 2 * u,
                    r > 0,
            ;
        } else {
            lemma2_to64();
        }
    }
}

/// The order of the numbers is that of their values.
pub proof fn law_rank_orders_the_values(a: u64, b: u64)
    ensures
        rank(a) <= rank(b) <==> scaled(a) <= scaled(b),
        rank(a) == 0 <==> scaled(a) == 0,
{
    let (m, n) = (magnitude(a), magnitude(b));
    assert(scaled_magnitude(0) == 0);
    if m > 0 {
        lemma_scaled_magnitude_grows(0, m);
    }
    if n > 0 {
        lemma_scaled_magnitude_grows(0, n);
    }
    if m < n {
        lemma_scaled_magnitude_grows(m, n);
    }
    if n < m {
        lemma_scaled_magnitude_grows(n, m);
    }
}

/// The values of the constants.
pub proof fn lemma_scaled_constants()
    ensures
        scaled(ZERO) == 0,
        scaled(NEG_ZERO) == 0,
        scaled(ONE) > 0,
        scaled(NEG_ONE) == -scaled(ONE),
        2 * scaled(HALF) == scaled(ONE),
        scaled(TWO) == 2 * scaled(ONE),
{
    lemma_pow2_pos(1021);
    lemma_pow2_unfold(1022);
    lemma_pow2_unfold(1023);
    assert(ONE / EXPONENT_UNIT == 1023 && ONE % EXPONENT_UNIT == 0);
    assert(HALF / EXPONENT_UNIT == 1022 && HALF % EXPONENT_UNIT == 0);
    assert(TWO / EXPONENT_UNIT == 1024 && TWO % EXPONENT_UNIT == 0);
    assert(scaled(HALF) == EXPONENT_UNIT * pow2(1021));
    assert(scaled(ONE) == EXPONENT_UNIT * pow2(1022));
    assert(scaled(TWO) == EXPONENT_UNIT * pow2(1023));
}

proof fn lemma_unity()
    ensures
        scaled(ONE) == pow2(1074),
        EXPONENT_UNIT == pow2(52),
{
    assert(ONE / EXPONENT_UNIT == 1023 && ONE % EXPONENT_UNIT == 0);
    vstd::arithmetic::power2::lemma2_to64_rest();
    lemma_pow2_adds(52, 1022);
}

/// The values of a half and a full turn.
pub proof fn lemma_turns()
    ensures
        scaled(HALF_TURN) == 180 * scaled(ONE),
        scaled(FULL_TURN) == 360 * scaled(ONE),
        scaled(ONE) > 0,
{
    lemma_unity();
    lemma_pow2_pos(1074);
    assert(FULL_TURN / EXPONENT_UNIT == 1031 && FULL_TURN % EXPONENT_UNIT == 0x6_8000_0000_0000);
    assert(HALF_TURN / EXPONENT_UNIT == 1030 && HALF_TURN % EXPONENT_UNIT == 0x6_8000_0000_0000);
    lemma_pow2_adds(44, 1030);
    lemma_pow2_adds(45, 1029);
    vstd::arithmetic::power2::lemma2_to64_rest();
    let (p, q, u) = (pow2(1030) as int, pow2(1029) as int, pow2(1074) as int);
    assert(0x16_8000_0000_0000 * p == 360 * u) by (nonlinear_arith)
        requires
            0x1000_0000_0000 * p == u,
    ;
    assert(0x16_8000_0000_0000 * q == 180 * u) by (nonlinear_arith)
        requires
            0x2000_0000_0000 * q == u,
    ;
}

proof fn lemma_whole_part_value(m: int)
    requires
        0 <= m,
    ensures
        whole_part(m) * scaled(ONE) <= scaled_magnitude(m) < (whole_part(m) + 1) * scaled(ONE),
{
    lemma_unity();
    let e = m / EXPONENT_UNIT as int;
    let s = m % EXPONENT_UNIT as int + EXPONENT_UNIT;
    let u = scaled(ONE);
    let k = whole_part(m);
    lemma_pow2_pos(1074);
    if e >= 1075 {
        let (p, r) = (pow2((e - 1075) as nat) as int, pow2((e - 1) as nat) as int);
        lemma_pow2_adds((e - 1075) as nat, 1074);
        assert(k * u == s * r) by (nonlinear_arith)
            requires
                k == s * p,
                p * u == r,
        ;
        assert((k + 1) * u == k * u + u) by (nonlinear_arith);
    } else if e >= 1 {
        let (q, r) = (pow2((1075 - e) as nat) as int, pow2((e - 1) as nat) as int);
        lemma_pow2_pos((1075 - e) as nat);
        lemma_pow2_pos((e - 1) as nat);
        lemma_pow2_adds((e - 1) as nat, (1075 - e) as nat);
        vstd::arithmetic::div_mod::lemma_fundamental_div_mod(s, q);
        vstd::arithmetic::div_mod::lemma_mod_division_less_than_divisor(s, q);
        let rest = s % q;
        assert(k * u <= s * r < (k + 1) * u) by (nonlinear_arith)
            requires
                s == q * k + rest,
                0 <= rest < q,
                u == r * q,
                r > 0,
        ;
    } else {
        lemma_pow2_strictly_increases(53, 1075);
        vstd::arithmetic::power2::lemma2_to64_rest();
        lemma_basic_div(s, pow2(1075) as int);
        lemma_pow2_strictly_increases(52, 1074);
        assert(e == 0 && k == 0);
        assert(0 * u == 0 && (0 + 1) * u == u) by (nonlinear_arith);
    }
}

/// The index of a number that is not negative is its integer part, where there
/// is such an index.
pub proof fn law_index_is_the_integer_part(b: u64)
    requires
        at_most(ZERO, b),
        index_of(b) < usize::MAX,
    ensures
        index_of(b) * scaled(ONE) <= scaled(b) < (index_of(b) + 1) * scaled(ONE),
{
    lemma_scaled_constants();
    if negative(b) {
        assert(magnitude(b) == 0);
        assert(scaled_magnitude(0) == 0);
        assert(0 * scaled(ONE) == 0 && (0 + 1) * scaled(ONE) == scaled(ONE)) by (nonlinear_arith);
    } else {
        lemma_whole_part_value(b as int);
    }
}

/// The index of a number that is not negative and not beyond all indices is its
/// value in units of one, rounded down.
pub proof fn law_index_value(b: u64)
    requires
        finite(b),
        0 <= scaled(b) < usize::MAX * scaled(ONE),
    ensures
        index_of(b) == scaled(b) / scaled(ONE),
{
    lemma_scaled_constants();
    law_rank_orders_the_values(ZERO, b);
    let u = scaled(ONE);
    if negative(b) {
        assert(magnitude(b) == 0);
        assert(scaled_magnitude(0) == 0);
        lemma_basic_div(0, u);
    } else {
        let k = whole_part(b as int);
        lemma_whole_part_value(b as int);
        let v = scaled(b);
        assert(k < usize::MAX) by (nonlinear_arith)
            requires
                k * u <= v,
                v < usize::MAX * u,
                u > 0,
        ;
        assert((k + 1) * u == k * u + u) by (nonlinear_arith);
        vstd::arithmetic::div_mod::lemma_fundamental_div_mod_converse(v, u, k, v - k * u);
    }
}

/// Below what a spread counts as none: the double nearest to `1e-12`.
pub proof fn law_tiny_is_small()
    ensures
        ({
            let place = scaled((TINY + 1) as u64) - scaled(TINY);
            &&& place > 0
            &&& -1_000_000_000_000 * place <= 2 * (1_000_000_000_000 * scaled(TINY) - scaled(ONE)) <= 1_000_000_000_000 * place
        }),
{
    lemma_unity();
    let place = pow2(982) as int;
    lemma_pow2_pos(982);
    assert(TINY / EXPONENT_UNIT == 983 && TINY % EXPONENT_UNIT == 0x1_9799_812d_ea11);
    assert((TINY + 1) / EXPONENT_UNIT as int == 983 && (TINY + 1) % EXPONENT_UNIT as int == 0x1_9799_812d_ea12);
    lemma_pow2_adds(982, 92);
    lemma_pow2_adds(46, 46);
    vstd::arithmetic::power2::lemma2_to64_rest();
    assert(pow2(46) == 0x4000_0000_0000);
    assert(0x4000_0000_0000 * 0x4000_0000_0000 == 0x1000_0000_0000_0000_0000_0000int) by (nonlinear_arith);
    assert(pow2(92) == 0x1000_0000_0000_0000_0000_0000);
    let u = pow2(1074) as int;
    assert(u == 0x1000_0000_0000_0000_0000_0000 * place) by (nonlinear_arith)
        requires
            place * pow2(92) as int == u,
            pow2(92) == 0x1000_0000_0000_0000_0000_0000,
    ;
    assert(scaled(TINY) == 0x11_9799_812d_ea11 * place);
    assert(scaled((TINY + 1) as u64) == 0x11_9799_812d_ea12 * place);
    assert(0x11_9799_812d_ea12 * place == 0x11_9799_812d_ea11 * place + place) by (nonlinear_arith);
}

proof fn lemma_scaled_magnitude32_grows(m: int, n: int)
    requires
        0 <= m < n,
    ensures
        scaled_magnitude32(m) < scaled_magnitude32(n),
{
    let u = EXPONENT_UNIT_32 as int;
    let (e, f) = (m / u, n / u);
    let (s, t) = (m % u + u, n % u + u);
    let z = pow2(925) as int;
    lemma_pow2_pos(925);
    let a = if e <= 0 {
        m
    } else {
        s * pow2((e - 1) as nat)
    };
    let b = if f <= 0 {
        n
    } else {
        t * pow2((f - 1) as nat)
    };
    if e == f {
        if e > 0 {
            let p = pow2((e - 1) as nat) as int;
            lemma_pow2_pos((e - 1) as nat);
            assert(s * p < t * p) by (nonlinear_arith)
                requires
                    s < t,
                    p > 0,
            ;
        }
    } else {
        assert(e < f);
        let p = pow2((f - 1) as nat) as int;
        assert(u * p <= t * p) by (nonlinear_arith)
            requires
                u <= t,
                p >= 0,
        ;
        let q = pow2(e as nat) as int;
        assert(q <= p) by {
            if e < f - 1 {
                lemma_pow2_strictly_increases(e as nat, (f - 1) as nat);
            }
        }
        assert(u * q <= u * p) by (nonlinear_arith)
            requires
                q <= p,
                u > 0,
        ;
        if e > 0 {
            let r = pow2((e - 1) as nat) as int;
            lemma_pow2_pos((e - 1) as nat);
            lemma_pow2_unfold(e as nat);
            assert(s * r < u * (2 * r)) by (nonlinear_arith)
                requires
                    s < 2 * u,
                    r > 0,
            ;
        } else {
            lemma2_to64();
        }
    }
    assert(a * z < b * z) by (nonlinear_arith)
        requires
            a < b,
            z > 0,
    ;
}

/// [`law_rank_orders_the_values`] for singles.
pub proof fn law_rank32_orders_the_values(a: u32, b: u32)
    ensures
        rank32(a) <= rank32(b) <==> scaled32(a) <= scaled32(b),
        rank32(a) == 0 <==> scaled32(a) == 0,
{
    let (m, n) = (magnitude32(a), magnitude32(b));
    assert(scaled_magnitude32(0) == 0) by {
        assert(0 * pow2(925) == 0) by (nonlinear_arith);
    }
    if m > 0 {
        lemma_scaled_magnitude32_grows(0, m);
    }
    if n > 0 {
        lemma_scaled_magnitude32_grows(0, n);
    }
    if m < n {
        lemma_scaled_magnitude32_grows(m, n);
    }
    if n < m {
        lemma_scaled_magnitude32_grows(n, m);
    }
}

/// The values of the single constants.
pub proof fn lemma_scaled32_constants()
    ensures
        scaled32(ZERO_32) == 0,
        scaled32(ONE_32) == scaled(ONE),
        scaled32(WHITE_32) == 255 * scaled(ONE),
        scaled(ONE) > 0,
{
    lemma_unity();
    lemma_pow2_pos(1074);
    law_rank32_orders_the_values(ZERO_32, ZERO_32);
    assert(ONE_32 / EXPONENT_UNIT_32 == 127 && ONE_32 % EXPONENT_UNIT_32 == 0);
    assert(WHITE_32 / EXPONENT_UNIT_32 == 134 && WHITE_32 % EXPONENT_UNIT_32 == 0x7f_0000);
    lemma2_to64();
    lemma_pow2_adds(23, 126);
    lemma_pow2_adds(149, 925);
    lemma_pow2_adds(16, 133);
    let (p, q, z, u) = (pow2(126) as int, pow2(133) as int, pow2(925) as int, pow2(1074) as int);
    assert(0x80_0000 * p * z == u) by (nonlinear_arith)
        requires
            0x80_0000 * p == pow2(149) as int,
            pow2(149) as int * z == u,
    ;
    assert(0xff_0000 * q * z == 255 * u) by (nonlinear_arith)
        requires
            0x1_0000 * q == pow2(149) as int,
            pow2(149) as int * z == u,
    ;
}

proof fn lemma_whole_part32_value(m: int)
    requires
        0 <= m,
    ensures
        whole_part32(m) * scaled(ONE) <= scaled_magnitude32(m) < (whole_part32(m) + 1) * scaled(ONE),
{
    lemma_unity();
    let e = m / EXPONENT_UNIT_32 as int;
    let s = m % EXPONENT_UNIT_32 as int + EXPONENT_UNIT_32;
    let (u, z) = (scaled(ONE), pow2(925) as int);
    let k = whole_part32(m);
    lemma_pow2_pos(1074);
    lemma_pow2_pos(925);
    if e >= 150 {
        let (p, r) = (pow2((e - 150) as nat) as int, pow2((e - 1) as nat) as int);
        lemma_pow2_adds((e - 150) as nat, 149);
        lemma_pow2_adds(149, 925);
        let c = pow2(149) as int;
        assert(k * u == s * r * z) by (nonlinear_arith)
            requires
                k == s * p,
                p * c == r,
                c * z == u,
        ;
        assert((k + 1) * u == k * u + u) by (nonlinear_arith);
    } else if e >= 1 {
        let (q, r) = (pow2((150 - e) as nat) as int, pow2((e - 1) as nat) as int);
        lemma_pow2_pos((150 - e) as nat);
        lemma_pow2_pos((e - 1) as nat);
        lemma_pow2_adds((e - 1) as nat, (150 - e) as nat);
        lemma_pow2_adds(149, 925);
        let c = pow2(149) as int;
        vstd::arithmetic::div_mod::lemma_fundamental_div_mod(s, q);
        vstd::arithmetic::div_mod::lemma_mod_division_less_than_divisor(s, q);
        let (rest, y) = (s % q, r * z);
        assert(u == y * q) by (nonlinear_arith)
            requires
                r * q == c,
                c * z == u,
                y == r * z,
        ;
        assert(y > 0) by (nonlinear_arith)
            requires
                r > 0,
                z > 0,
                y == r * z,
        ;
        assert(s * r * z == s * y) by (nonlinear_arith)
            requires
                y == r * z,
        ;
        assert(k * u <= s * y < (k + 1) * u) by (nonlinear_arith)
            requires
                s == q * k + rest,
                0 <= rest < q,
                u == y * q,
                y > 0,
        ;
    } else {
        lemma_pow2_strictly_increases(24, 150);
        lemma2_to64();
        lemma_basic_div(s, pow2(150) as int);
        lemma_pow2_adds(149, 925);
        lemma_pow2_strictly_increases(23, 149);
        let c = pow2(149) as int;
        assert(e == 0 && k == 0);
        assert(0 * u == 0 && (0 + 1) * u == u) by (nonlinear_arith);
        assert(0 <= m * z < c * z) by (nonlinear_arith)
            requires
                0 <= m < c,
                z > 0,
        ;
    }
}

/// The byte of a single that is not negative and below 256 is its value in
/// units of one, rounded down.
pub proof fn law_byte_value(b: u32)
    requires
        finite32(b),
        0 <= scaled32(b) < 256 * scaled(ONE),
    ensures
        byte_of(b) == scaled32(b) / scaled(ONE),
{
    lemma_scaled32_constants();
    law_rank32_orders_the_values(ZERO_32, b);
    let u = scaled(ONE);
    if b >= NEG_ZERO_32 {
        assert(magnitude32(b) == 0);
        law_rank32_orders_the_values(b, ZERO_32);
        lemma_basic_div(0, u);
    } else {
        let k = whole_part32(b as int);
        lemma_whole_part32_value(b as int);
        let v = scaled32(b);
        assert(k < 256) by (nonlinear_arith)
            requires
                k * u <= v,
                v < 256 * u,
                u > 0,
        ;
        assert((k + 1) * u == k * u + u) by (nonlinear_arith);
        vstd::arithmetic::div_mod::lemma_fundamental_div_mod_converse(v, u, k, v - k * u);
    }
}

/// The opposite has the opposite value.
pub proof fn lemma_opposite_value(b: u64)
    ensures
        scaled(opposite(b)) == -scaled(b),
        finite(b) ==> finite(opposite(b)),
{
    assert(magnitude(opposite(b)) == magnitude(b));
}

/// A point that was kept between zero and a last place has no index beyond that
/// of the last place.
pub proof fn law_clamped_points_stay_in_range(x: u64, last: u64)
    requires
        at_most(ZERO, last),
    ensures
        index_of(clamped(x, ZERO, last)) <= index_of(last),
{
    let c = clamped(x, ZERO, last);
    if nan(c) {
        law_index_grows_with_the_number(ZERO, last);
        lemma_zero_is_whole();
    } else {
        law_index_grows_with_the_number(c, last);
    }
}

} // verus!
