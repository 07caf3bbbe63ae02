//! The operations on floating-point values that round, or that print.
//!
//! The library decides in which order, and on which values, these operations
//! are applied; how each of them rounds is up to the unit. Nothing is assumed
//! of a unit: a contract that speaks of one says that its result came out of
//! calls of the unit's operations, and of which ones. A law that needs more of
//! a unit takes it as a hypothesis: those stand at the end of this module.
use crate::ieee;
use vstd::prelude::*;

verus! {

/// Arithmetic on bit patterns of doubles (`u64`) and singles (`u32`).
pub trait FloatUnit: Sized {
    /// `a + b`.
    fn plus(a: u64, b: u64) -> u64;

    /// `a - b`.
    fn minus(a: u64, b: u64) -> u64;

    /// `a * b`.
    fn times(a: u64, b: u64) -> u64;

    /// `a / b`.
    fn over(a: u64, b: u64) -> u64;

    /// The least non-negative remainder of `a` by `b`.
    fn remainder(a: u64, b: u64) -> u64;

    /// `a` to the power of two.
    fn square(a: u64) -> u64;

    /// The square root.
    fn root(a: u64) -> u64;

    /// The nearest whole number, halves away from zero.
    fn rounded(a: u64) -> u64;

    /// The arc tangent, in radians.
    fn arctan(a: u64) -> u64;

    /// Radians to degrees.
    fn degrees(a: u64) -> u64;

    /// Degrees to radians.
    fn radians(a: u64) -> u64;

    /// Sine and cosine of an angle in radians.
    fn sine_cosine(a: u64) -> (u64, u64);

    /// A count as a double.
    fn count(n: usize) -> u64;

    /// A signed offset as a double.
    fn offset(s: isize) -> u64;

    /// A single as a double.
    fn widen(p: u32) -> u64;

    /// A double as a single.
    fn narrow(a: u64) -> u32;

    /// `p + q` on singles.
    fn plus32(p: u32, q: u32) -> u32;

    /// `p - q` on singles.
    fn minus32(p: u32, q: u32) -> u32;

    /// `p * q` on singles.
    fn times32(p: u32, q: u32) -> u32;

    /// `p / q` on singles.
    fn over32(p: u32, q: u32) -> u32;

    /// The decimal text with two digits behind the point.
    fn fixed2(a: u64) -> String;

    /// The decimal text with three digits behind the point.
    fn fixed3(a: u64) -> String;

    /// The decimal text with its sign and three digits behind the point.
    fn signed3(a: u64) -> String;

    /// The text as a JSON number; `null` for what JSON has no number for.
    fn json_number(a: u64) -> String;
}

/// `r` is `a * b + c * d + e`, added from the left.
pub open spec fn affine<A: FloatUnit>(a: u64, b: u64, c: u64, d: u64, e: u64, r: u64) -> bool {
    exists|p: u64, q: u64, s: u64|
        #[trigger] call_ensures(A::times, (a, b), p) && #[trigger] call_ensures(A::times, (c, d), q)
            && #[trigger] call_ensures(A::plus, (p, q), s) && call_ensures(A::plus, (s, e), r)
}

/// `r` is `a * b * c`, multiplied from the left.
pub open spec fn product3<A: FloatUnit>(a: u64, b: u64, c: u64, r: u64) -> bool {
    exists|p: u64| #[trigger] call_ensures(A::times, (a, b), p) && call_ensures(A::times, (p, c), r)
}

/// `r` is the middle `(n - 1) / 2` of `n` places.
pub open spec fn middle<A: FloatUnit>(n: usize, r: u64) -> bool {
    exists|m: u64| #[trigger] last_place::<A>(n, m) && call_ensures(A::over, (m, ieee::TWO), r)
}

/// `r` is the last place `n - 1` of `n` places.
pub open spec fn last_place<A: FloatUnit>(n: usize, r: u64) -> bool {
    exists|c: u64| #[trigger] call_ensures(A::count, (n,), c) && call_ensures(A::minus, (c, ieee::ONE), r)
}

/// `a * b + c * d + e`.
pub fn affine_of<A: FloatUnit>(a: u64, b: u64, c: u64, d: u64, e: u64) -> (r: u64)
    ensures
        affine::<A>(a, b, c, d, e, r),
{
    A::plus(A::plus(A::times(a, b), A::times(c, d)), e)
}

/// `a * b * c`.
pub fn product3_of<A: FloatUnit>(a: u64, b: u64, c: u64) -> (r: u64)
    ensures
        product3::<A>(a, b, c, r),
{
    A::times(A::times(a, b), c)
}

/// The last place of `n`.
pub fn last_place_of<A: FloatUnit>(n: usize) -> (r: u64)
    ensures
        last_place::<A>(n, r),
{
    A::minus(A::count(n), ieee::ONE)
}

/// The middle of `n` places.
pub fn middle_of<A: FloatUnit>(n: usize) -> (r: u64)
    ensures
        middle::<A>(n, r),
{
    A::over(last_place_of::<A>(n), ieee::TWO)
}

/// Whether a unit repeats its results: the same operation on the same values
/// gives the same.
pub open spec fn repeats<A: FloatUnit>() -> bool {
    &&& forall|a: u64, b: u64, r: u64, s: u64| #[trigger]
        call_ensures(A::plus, (a, b), r) && #[trigger] call_ensures(A::plus, (a, b), s) ==> r == s
    &&& forall|a: u64, b: u64, r: u64, s: u64| #[trigger]
        call_ensures(A::minus, (a, b), r) && #[trigger] call_ensures(A::minus, (a, b), s) ==> r == s
    &&& forall|a: u64, b: u64, r: u64, s: u64| #[trigger]
        call_ensures(A::times, (a, b), r) && #[trigger] call_ensures(A::times, (a, b), s) ==> r == s
    &&& forall|a: u64, b: u64, r: u64, s: u64| #[trigger]
        call_ensures(A::over, (a, b), r) && #[trigger] call_ensures(A::over, (a, b), s) ==> r == s
    &&& forall|a: u64, r: u64, s: u64| #[trigger]
        call_ensures(A::square, (a,), r) && #[trigger] call_ensures(A::square, (a,), s) ==> r == s
    &&& forall|a: u64, r: u64, s: u64| #[trigger]
        call_ensures(A::root, (a,), r) && #[trigger] call_ensures(A::root, (a,), s) ==> r == s
    &&& forall|a: u64, r: u64, s: u64| #[trigger]
        call_ensures(A::arctan, (a,), r) && #[trigger] call_ensures(A::arctan, (a,), s) ==> r == s
    &&& forall|a: u64, r: u64, s: u64| #[trigger]
        call_ensures(A::degrees, (a,), r) && #[trigger] call_ensures(A::degrees, (a,), s) ==> r == s
    &&& forall|a: u64, r: u64, s: u64| #[trigger]
        call_ensures(A::radians, (a,), r) && #[trigger] call_ensures(A::radians, (a,), s) ==> r == s
    &&& forall|a: u64, r: (u64, u64), s: (u64, u64)| #[trigger]
        call_ensures(A::sine_cosine, (a,), r) && #[trigger] call_ensures(A::sine_cosine, (a,), s) ==> r == s
    &&& forall|n: usize, r: u64, s: u64| #[trigger]
        call_ensures(A::count, (n,), r) && #[trigger] call_ensures(A::count, (n,), s) ==> r == s
    &&& forall|o: isize, r: u64, s: u64| #[trigger]
        call_ensures(A::offset, (o,), r) && #[trigger] call_ensures(A::offset, (o,), s) ==> r == s
    &&& forall|p: u32, r: u64, s: u64| #[trigger]
        call_ensures(A::widen, (p,), r) && #[trigger] call_ensures(A::widen, (p,), s) ==> r == s
    &&& forall|a: u64, r: u32, s: u32| #[trigger]
        call_ensures(A::narrow, (a,), r) && #[trigger] call_ensures(A::narrow, (a,), s) ==> r == s
}

/// Whether adding a number to `-0.0` gives that number.
pub open spec fn adds_to_nothing<A: FloatUnit>() -> bool {
    forall|e: u64, r: u64| !ieee::nan(e) ==> (#[trigger] call_ensures(A::plus, (ieee::NEG_ZERO, e), r) <==> r == e)
}

/// `q` is the square of `x - y`.
pub open spec fn difference_squared<A: FloatUnit>(x: u64, y: u64, q: u64) -> bool {
    exists|d: u64| #[trigger] call_ensures(A::minus, (x, y), d) && call_ensures(A::times, (d, d), q)
}

/// Whether the square of a difference of two numbers does not depend on which
/// is taken from which.
pub open spec fn squares_alike<A: FloatUnit>() -> bool {
    forall|x: u64, y: u64, q: u64|
        !ieee::nan(x) && !ieee::nan(y) && #[trigger] difference_squared::<A>(x, y, q) ==> difference_squared::<A>(y, x, q)
}

/// Whether doubling commutes with the operations where nothing overflows,
/// underflows or is denormal.
pub open spec fn doubles_evenly<A: FloatUnit>() -> bool {
    &&& forall|p: u32, v: u64|
        ieee::moderate32(p) && #[trigger] call_ensures(A::widen, (p,), v) ==> ieee::moderate(v) && call_ensures(
            A::widen,
            (ieee::doubled32(p),),
            ieee::doubled(v),
        )
    &&& forall|a: u64, b: u64, r: u64|
        ieee::moderate(a) && ieee::moderate(b) && ieee::moderate(r) && #[trigger] call_ensures(A::plus, (a, b), r)
            ==> call_ensures(A::plus, (ieee::doubled(a), ieee::doubled(b)), ieee::doubled(r)) && call_ensures(
            A::plus,
            (ieee::doubled(ieee::doubled(a)), ieee::doubled(ieee::doubled(b))),
            ieee::doubled(ieee::doubled(r)),
        )
    &&& forall|a: u64, b: u64, r: u64|
        ieee::moderate(a) && ieee::moderate(b) && ieee::moderate(r) && #[trigger] call_ensures(A::minus, (a, b), r)
            ==> call_ensures(A::minus, (ieee::doubled(a), ieee::doubled(b)), ieee::doubled(r))
    &&& forall|a: u64, n: u64, r: u64|
        ieee::moderate(a) && ieee::moderate(r) && ieee::vanishes_with(r, a) && #[trigger] call_ensures(A::over, (a, n), r)
            ==> call_ensures(A::over, (ieee::doubled(a), n), ieee::doubled(r)) && call_ensures(
            A::over,
            (ieee::doubled(ieee::doubled(a)), n),
            ieee::doubled(ieee::doubled(r)),
        )
    &&& forall|a: u64, b: u64, r: u64|
        ieee::moderate(a) && ieee::moderate(b) && #[trigger] call_ensures(A::over, (a, b), r) ==> call_ensures(
            A::over,
            (ieee::doubled(a), ieee::doubled(b)),
            r,
        )
    &&& forall|a: u64, r: u64|
        ieee::moderate(a) && ieee::moderate(r) && ieee::vanishes_with(r, a) && #[trigger] call_ensures(A::square, (a,), r)
            ==> call_ensures(A::square, (ieee::doubled(a),), ieee::doubled(ieee::doubled(r)))
    &&& forall|a: u64, r: u64|
        ieee::moderate(a) && ieee::moderate(r) && #[trigger] call_ensures(A::root, (a,), r) ==> call_ensures(
            A::root,
            (ieee::doubled(ieee::doubled(a)),),
            ieee::doubled(r),
        )
}

/// Whether what cancels is zero: a finite number less itself, and the square, the
/// sum and the mean of zeros.
pub open spec fn cancels<A: FloatUnit>() -> bool {
    &&& forall|x: u64, r: u64| ieee::finite(x) && #[trigger] call_ensures(A::minus, (x, x), r) ==> r == ieee::ZERO
    &&& forall|r: u64| #[trigger] call_ensures(A::times, (ieee::ZERO, ieee::ZERO), r) ==> r == ieee::ZERO
    &&& forall|r: u64| #[trigger] call_ensures(A::plus, (ieee::ZERO, ieee::ZERO), r) ==> r == ieee::ZERO
    &&& forall|c: isize, n: u64, r: u64|
        c >= 1 && #[trigger] call_ensures(A::offset, (c,), n) && #[trigger] call_ensures(A::over, (ieee::ZERO, n), r) ==> r
            == ieee::ZERO
}

/// Whether differences of finite numbers are no NaN, and squares, sums and
/// means of what is not negative are not negative.
pub open spec fn keeps_signs<A: FloatUnit>() -> bool {
    &&& forall|x: u64, y: u64, d: u64|
        ieee::finite(x) && ieee::finite(y) && #[trigger] call_ensures(A::minus, (x, y), d) ==> !ieee::nan(d)
    &&& forall|d: u64, q: u64| !ieee::nan(d) && #[trigger] call_ensures(A::times, (d, d), q) ==> ieee::not_negative(q)
    &&& forall|p: u64, q: u64, r: u64|
        ieee::not_negative(p) && ieee::not_negative(q) && #[trigger] call_ensures(A::plus, (p, q), r) ==> ieee::not_negative(r)
    &&& forall|c: isize, n: u64, p: u64, r: u64|
        c >= 1 && ieee::not_negative(p) && #[trigger] call_ensures(A::offset, (c,), n) && #[trigger] call_ensures(
            A::over,
            (p, n),
            r,
        ) ==> ieee::not_negative(r)
}

/// Whether zero and one are neutral, on finite numbers: one as a factor and zero
/// as a term change no value, zero as a factor and the difference of equal
/// numbers are zero, and a single that was widened is narrowed back to itself.
pub open spec fn neutral<A: FloatUnit>() -> bool {
    &&& forall|d: u64, r: u64| ieee::finite(d) && #[trigger] call_ensures(A::times, (ieee::ONE, d), r) ==> r == d
    &&& forall|d: u64, r: u64| ieee::finite(d) && #[trigger] call_ensures(A::times, (d, ieee::ONE), r) ==> r == d
    &&& forall|z: u64, d: u64, r: u64|
        ieee::magnitude(z) == 0 && ieee::finite(d) && #[trigger] call_ensures(A::times, (z, d), r) ==> ieee::magnitude(r) == 0
    &&& forall|z: u64, d: u64, r: u64|
        ieee::magnitude(z) == 0 && ieee::finite(d) && #[trigger] call_ensures(A::times, (d, z), r) ==> ieee::magnitude(r) == 0
    &&& forall|z: u64, a: u64, r: u64|
        ieee::magnitude(z) == 0 && ieee::finite(a) && #[trigger] call_ensures(A::plus, (a, z), r) ==> ieee::rank(r) == ieee::rank(a)
    &&& forall|z: u64, a: u64, r: u64|
        ieee::magnitude(z) == 0 && ieee::finite(a) && #[trigger] call_ensures(A::plus, (z, a), r) ==> ieee::rank(r) == ieee::rank(a)
    &&& forall|z: u64, r: u64| ieee::magnitude(z) == 0 && #[trigger] call_ensures(A::minus, (ieee::ONE, z), r) ==> r == ieee::ONE
    &&& forall|a: u64, b: u64, r: u64|
        ieee::finite(a) && ieee::rank(a) == ieee::rank(b) && #[trigger] call_ensures(A::minus, (a, b), r) ==> ieee::magnitude(r) == 0
    &&& forall|p: u32, v: u64| ieee::finite32(p) && #[trigger] call_ensures(A::widen, (p,), v) ==> ieee::finite(v)
    &&& forall|p: u32, v: u64, u: u64, q: u32|
        ieee::finite32(p) && ieee::rank(u) == ieee::rank(v) && #[trigger] call_ensures(A::widen, (p,), v) && #[trigger] call_ensures(
            A::narrow,
            (u,),
            q,
        ) ==> ieee::rank32(q) == ieee::rank32(p)
}

/// Whether an angle of zero has the sine zero and the cosine one.
pub open spec fn turns_nothing<A: FloatUnit>() -> bool {
    &&& forall|r: u64| #[trigger] call_ensures(A::radians, (ieee::ZERO,), r) ==> r == ieee::ZERO
    &&& forall|r: (u64, u64)| #[trigger] call_ensures(A::sine_cosine, (ieee::ZERO,), r) ==> r == (ieee::ZERO, ieee::ONE)
}

/// Whether opposite angles turn opposite ways: they have the opposite sine and
/// the same cosine.
pub open spec fn turns_oddly<A: FloatUnit>() -> bool {
    &&& forall|a: u64, r: u64, s: u64| #[trigger]
        call_ensures(A::radians, (a,), r) && #[trigger] call_ensures(A::radians, (ieee::opposite(a),), s) ==> s == ieee::opposite(r)
    &&& forall|a: u64, r: (u64, u64), s: (u64, u64)| #[trigger]
        call_ensures(A::sine_cosine, (a,), r) && #[trigger] call_ensures(A::sine_cosine, (ieee::opposite(a),), s) ==> s == (
            ieee::opposite(r.0),
            r.1,
        )
}

/// Whether the last of `n` places is the number that it should be.
pub open spec fn last_place_whole<A: FloatUnit>(n: usize) -> bool {
    forall|last: u64| #[trigger] last_place::<A>(n, last) ==> ieee::at_most(ieee::ZERO, last) && ieee::index_of(last) == n - 1
}

/// Whether a unit rounds only where it has to: an operation on finite numbers
/// whose result is a double gives that double, and likewise for the singles.
pub open spec fn rounds_only_if_needed<A: FloatUnit>() -> bool {
    let one = ieee::scaled(ieee::ONE);
    &&& forall|a: u64, b: u64, r: u64|
        ieee::finite(a) && ieee::finite(b) && #[trigger] call_ensures(A::plus, (a, b), r) && ieee::representable(
            ieee::scaled(a) + ieee::scaled(b),
        ) ==> ieee::finite(r) && ieee::scaled(r) == ieee::scaled(a) + ieee::scaled(b)
    &&& forall|a: u64, b: u64, r: u64|
        ieee::finite(a) && ieee::finite(b) && #[trigger] call_ensures(A::minus, (a, b), r) && ieee::representable(
            ieee::scaled(a) - ieee::scaled(b),
        ) ==> ieee::finite(r) && ieee::scaled(r) == ieee::scaled(a) - ieee::scaled(b)
    &&& forall|a: u64, b: u64, r: u64|
        ieee::finite(a) && ieee::finite(b) && #[trigger] call_ensures(A::times, (a, b), r) && ieee::divides(
            ieee::scaled(a) * ieee::scaled(b),
            one,
        ) ==> ieee::finite(r) && ieee::scaled(r) == ieee::scaled(a) * ieee::scaled(b) / one
    &&& forall|a: u64, b: u64, r: u64|
        ieee::finite(a) && ieee::finite(b) && #[trigger] call_ensures(A::over, (a, b), r) && ieee::divides(
            ieee::scaled(a) * one,
            ieee::scaled(b),
        ) ==> ieee::finite(r) && ieee::scaled(r) == ieee::scaled(a) * one / ieee::scaled(b)
    &&& forall|a: u64, b: u64, r: u64|
        ieee::finite(a) && ieee::finite(b) && ieee::scaled(b) > 0 && #[trigger] call_ensures(A::remainder, (a, b), r)
            && ieee::representable(ieee::scaled(a) % ieee::scaled(b)) ==> ieee::finite(r) && ieee::scaled(r) == ieee::scaled(a)
            % ieee::scaled(b)
    &&& forall|a: u64, r: u64|
        ieee::finite(a) && #[trigger] call_ensures(A::square, (a,), r) && ieee::divides(ieee::scaled(a) * ieee::scaled(a), one)
            ==> ieee::finite(r) && ieee::scaled(r) == ieee::scaled(a) * ieee::scaled(a) / one
    &&& forall|a: u64, r: u64, n: int|
        ieee::finite(a) && #[trigger] call_ensures(A::root, (a,), r) && 0 <= n && n * n == ieee::scaled(a) * one
            && #[trigger] ieee::representable(n) ==> ieee::finite(r) && ieee::scaled(r) == n
    &&& forall|n: usize, r: u64| #[trigger]
        call_ensures(A::count, (n,), r) && ieee::representable(n * one) ==> ieee::finite(r) && ieee::scaled(r) == n * one
    &&& forall|s: isize, r: u64| #[trigger]
        call_ensures(A::offset, (s,), r) && ieee::representable(s * one) ==> ieee::finite(r) && ieee::scaled(r) == s * one
    &&& forall|p: u32, r: u64|
        ieee::finite32(p) && #[trigger] call_ensures(A::widen, (p,), r) ==> ieee::finite(r) && ieee::scaled(r) == ieee::scaled32(p)
    &&& forall|a: u64, r: u32, p: u32|
        ieee::finite(a) && ieee::finite32(p) && #[trigger] call_ensures(A::narrow, (a,), r) && #[trigger] ieee::scaled32(p)
            == ieee::scaled(a) ==> ieee::finite32(r) && ieee::scaled32(r) == ieee::scaled(a)
    &&& forall|a: u64, r: u64, n: int|
        ieee::finite(a) && #[trigger] call_ensures(A::rounded, (a,), r) && #[trigger] ieee::representable(n * one) && -one <= 2 * (
        ieee::scaled(a) - n * one) <= one && (2 * (ieee::scaled(a) - n * one) == one ==> n < 0) && (2 * (ieee::scaled(a) - n * one)
            == -one ==> n > 0) ==> ieee::finite(r) && ieee::scaled(r) == n * one
}

/// [`rounds_only_if_needed`] for the operations on singles.
pub open spec fn rounds32_only_if_needed<A: FloatUnit>() -> bool {
    let one = ieee::scaled(ieee::ONE);
    &&& forall|p: u32, q: u32, r: u32, e: u32|
        ieee::finite32(p) && ieee::finite32(q) && #[trigger] call_ensures(A::plus32, (p, q), r) && ieee::finite32(e)
            && #[trigger] ieee::scaled32(e) == ieee::scaled32(p) + ieee::scaled32(q) ==> ieee::finite32(r) && ieee::scaled32(r)
            == ieee::scaled32(e)
    &&& forall|p: u32, q: u32, r: u32, e: u32|
        ieee::finite32(p) && ieee::finite32(q) && #[trigger] call_ensures(A::minus32, (p, q), r) && ieee::finite32(e)
            && #[trigger] ieee::scaled32(e) == ieee::scaled32(p) - ieee::scaled32(q) ==> ieee::finite32(r) && ieee::scaled32(r)
            == ieee::scaled32(e)
    &&& forall|p: u32, q: u32, r: u32, e: u32|
        ieee::finite32(p) && ieee::finite32(q) && #[trigger] call_ensures(A::times32, (p, q), r) && ieee::finite32(e)
            && #[trigger] ieee::scaled32(e) * one == ieee::scaled32(p) * ieee::scaled32(q) ==> ieee::finite32(r) && ieee::scaled32(r)
            == ieee::scaled32(e)
    &&& forall|p: u32, q: u32, r: u32, e: u32|
        ieee::finite32(p) && ieee::finite32(q) && ieee::scaled32(q) != 0 && #[trigger] call_ensures(A::over32, (p, q), r)
            && ieee::finite32(e) && #[trigger] ieee::scaled32(e) * ieee::scaled32(q) == ieee::scaled32(p) * one ==> ieee::finite32(r)
            && ieee::scaled32(r) == ieee::scaled32(e)
}

/// Whether a unit hands on what is no number: an operation on it gives none,
/// and a number is narrowed to a number.
pub open spec fn hands_on_nan<A: FloatUnit>() -> bool {
    &&& forall|a: u64, b: u64, r: u64| #[trigger] call_ensures(A::plus, (a, b), r) && (ieee::nan(a) || ieee::nan(b)) ==> ieee::nan(r)
    &&& forall|a: u64, b: u64, r: u64|
        #[trigger] call_ensures(A::minus, (a, b), r) && (ieee::nan(a) || ieee::nan(b)) ==> ieee::nan(r)
    &&& forall|a: u64, b: u64, r: u64|
        #[trigger] call_ensures(A::times, (a, b), r) && (ieee::nan(a) || ieee::nan(b)) ==> ieee::nan(r)
    &&& forall|a: u64, b: u64, r: u64| #[trigger] call_ensures(A::over, (a, b), r) && (ieee::nan(a) || ieee::nan(b)) ==> ieee::nan(r)
    &&& forall|p: u32, r: u64| #[trigger] call_ensures(A::widen, (p,), r) && ieee::nan32(p) ==> ieee::nan(r)
    &&& forall|a: u64, r: u32| #[trigger] call_ensures(A::narrow, (a,), r) && !ieee::nan(a) ==> !ieee::nan32(r)
}

/// Whether `a + b` does not round.
pub open spec fn plus_exact<A: FloatUnit>(a: u64, b: u64) -> bool {
    forall|r: u64| #[trigger] call_ensures(A::plus, (a, b), r) ==> ieee::scaled(r) == ieee::scaled(a) + ieee::scaled(b)
}

/// Whether `a - b` does not round.
pub open spec fn minus_exact<A: FloatUnit>(a: u64, b: u64) -> bool {
    forall|r: u64| #[trigger] call_ensures(A::minus, (a, b), r) ==> ieee::scaled(r) == ieee::scaled(a) - ieee::scaled(b)
}

/// Whether `a * b` does not round.
pub open spec fn times_exact<A: FloatUnit>(a: u64, b: u64) -> bool {
    forall|r: u64| #[trigger]
        call_ensures(A::times, (a, b), r) ==> ieee::scaled(r) * ieee::scaled(ieee::ONE) == ieee::scaled(a) * ieee::scaled(b)
}

/// Whether `a / b` does not round.
pub open spec fn over_exact<A: FloatUnit>(a: u64, b: u64) -> bool {
    forall|r: u64| #[trigger]
        call_ensures(A::over, (a, b), r) ==> ieee::scaled(r) * ieee::scaled(b) == ieee::scaled(a) * ieee::scaled(ieee::ONE)
}

/// Whether the square of `a` does not round.
pub open spec fn square_exact<A: FloatUnit>(a: u64) -> bool {
    forall|r: u64| #[trigger]
        call_ensures(A::square, (a,), r) ==> ieee::scaled(r) * ieee::scaled(ieee::ONE) == ieee::scaled(a) * ieee::scaled(a)
}

/// Whether the root of `a` does not round.
pub open spec fn root_exact<A: FloatUnit>(a: u64) -> bool {
    forall|r: u64| #[trigger]
        call_ensures(A::root, (a,), r) ==> ieee::scaled(r) * ieee::scaled(r) == ieee::scaled(a) * ieee::scaled(ieee::ONE)
}

/// Whether the count `n` does not round.
pub open spec fn count_exact<A: FloatUnit>(n: usize) -> bool {
    forall|r: u64| #[trigger] call_ensures(A::count, (n,), r) ==> ieee::scaled(r) == n * ieee::scaled(ieee::ONE)
}

/// Whether the offset `s` does not round.
pub open spec fn offset_exact<A: FloatUnit>(s: isize) -> bool {
    forall|r: u64| #[trigger] call_ensures(A::offset, (s,), r) ==> ieee::scaled(r) == s * ieee::scaled(ieee::ONE)
}

} // verus!
