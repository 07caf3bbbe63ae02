//! What holds of profiles, shift errors and refined shifts, for units that
//! behave as arithmetic does.
use crate::ieee;
use crate::ieee::{
    at_most, below, doubled, doubled32, law_rank_orders_the_values, lemma_scaled_constants, moderate, moderate32, nan, scaled,
    vanishes_with,
};
use crate::order::first_least;
use crate::profile::{
    aligning_shift, column_sum, column_sums, deviation, difference_added, difference_sum, error_curve, matching_error, mean_of,
    normalized_profile, overlap_count, overlap_from, overlap_to, refined_shift, sample_added, search_radius,
    shifted_by_vertex, squared_distance, squared_distances, standardized, sum, vertex_offset, vertex_quotient,
};
use crate::unit::{
    count_exact, difference_squared, doubles_evenly, minus_exact, offset_exact, over_exact, plus_exact, root_exact,
    square_exact, squares_alike, times_exact, FloatUnit,
};
use vstd::prelude::*;

verus! {

/// Whether two planes hold the same samples in `band` rows from `y0` on.
pub open spec fn agree_in_band(p: Seq<u32>, q: Seq<u32>, width: usize, y0: int, band: int) -> bool {
    forall|x: int, k: int| 0 <= x < width && 0 <= k < band ==> #[trigger] in_row(p, width, y0 + k, x) == in_row(q, width, y0 + k, x)
}

/// The sample at column `x` of row `y`.
pub open spec fn in_row(p: Seq<u32>, width: usize, y: int, x: int) -> u32 {
    p[y * width + x]
}

proof fn lemma_column_sum_agrees<A: FloatUnit>(p: Seq<u32>, q: Seq<u32>, width: usize, y0: int, band: int, x: int, k: int, acc: u64)
    requires
        agree_in_band(p, q, width, y0, band),
        0 <= x < width,
        0 <= k <= band,
        column_sum::<A>(p, width, y0, x, k, acc),
    ensures
        column_sum::<A>(q, width, y0, x, k, acc),
    decreases k,
{
    if k > 0 {
        let prev = choose|prev: u64|
            column_sum::<A>(p, width, y0, x, k - 1, prev) && #[trigger] sample_added::<A>(prev, p[(y0 + k - 1) * width + x], acc);
        lemma_column_sum_agrees::<A>(p, q, width, y0, band, x, k - 1, prev);
        assert(in_row(p, width, y0 + (k - 1), x) == in_row(q, width, y0 + (k - 1), x));
        assert(y0 + (k - 1) == y0 + k - 1);
        assert(sample_added::<A>(prev, q[(y0 + k - 1) * width + x], acc));
    }
}

/// Rows outside the band have no influence: a profile of one plane is a profile
/// of every plane with the same samples in the band.
pub proof fn law_rows_outside_the_band_do_not_count<A: FloatUnit>(
    p: Seq<u32>,
    q: Seq<u32>,
    width: usize,
    y0: int,
    band: int,
    out: Seq<u64>,
)
    requires
        band >= 0,
        agree_in_band(p, q, width, y0, band),
        normalized_profile::<A>(p, width, y0, band, out),
    ensures
        normalized_profile::<A>(q, width, y0, band, out),
{
    let (sums, mean, std) = choose|sums: Seq<u64>, mean: u64, std: u64|
        #[trigger] column_sums::<A>(p, width, y0, band, sums) && #[trigger] mean_of::<A>(sums, mean)
            && #[trigger] deviation::<A>(sums, mean, std) && out.len() == width && (forall|x: int|
            0 <= x < width ==> standardized::<A>(sums[x], mean, std, #[trigger] out[x]));
    assert forall|x: int| 0 <= x < width implies column_sum::<A>(q, width, y0, x, band, #[trigger] sums[x]) by {
        lemma_column_sum_agrees::<A>(p, q, width, y0, band, x, band, sums[x]);
    }
    assert(column_sums::<A>(q, width, y0, band, sums));
}

/// Whether all the values are numbers.
pub open spec fn numbers(values: Seq<u64>) -> bool {
    forall|x: int| 0 <= x < values.len() ==> !nan(#[trigger] values[x])
}

proof fn lemma_difference_added_either_way<A: FloatUnit>(prev: u64, x: u64, y: u64, acc: u64)
    requires
        squares_alike::<A>(),
        !nan(x),
        !nan(y),
        difference_added::<A>(prev, x, y, acc),
    ensures
        difference_added::<A>(prev, y, x, acc),
{
    let (d, q) = choose|d: u64, q: u64|
        #[trigger] call_ensures(A::minus, (x, y), d) && #[trigger] call_ensures(A::times, (d, d), q) && call_ensures(
            A::plus,
            (prev, q),
            acc,
        );
    assert(difference_squared::<A>(x, y, q));
    assert(difference_squared::<A>(y, x, q));
}

proof fn lemma_difference_sum_either_way<A: FloatUnit>(a: Seq<u64>, f: Seq<u64>, s: int, k: int, acc: u64)
    requires
        squares_alike::<A>(),
        a.len() == f.len(),
        k <= overlap_to(a.len() as int, s) - overlap_from(s),
        numbers(a),
        numbers(f),
        difference_sum::<A>(a, f, s, k, acc),
    ensures
        difference_sum::<A>(f, a, -s, k, acc),
    decreases k,
{
    if k > 0 {
        let prev = choose|prev: u64|
            difference_sum::<A>(a, f, s, k - 1, prev) && #[trigger] difference_added::<A>(
                prev,
                a[overlap_from(s) + k - 1],
                f[overlap_from(s) + k - 1 + s],
                acc,
            );
        lemma_difference_sum_either_way::<A>(a, f, s, k - 1, prev);
        lemma_difference_added_either_way::<A>(prev, a[overlap_from(s) + k - 1], f[overlap_from(s) + k - 1 + s], acc);
        assert(overlap_from(-s) == overlap_from(s) + s);
        assert(difference_added::<A>(prev, f[overlap_from(-s) + k - 1], a[overlap_from(-s) + k - 1 + (-s)], acc));
    }
}

proof fn lemma_matching_error_either_way<A: FloatUnit>(a: Seq<u64>, f: Seq<u64>, s: int, e: u64)
    requires
        squares_alike::<A>(),
        a.len() == f.len(),
        numbers(a),
        numbers(f),
        matching_error::<A>(a, f, s, e),
    ensures
        matching_error::<A>(f, a, -s, e),
{
    let w = a.len() as int;
    let k = overlap_to(w, s) - overlap_from(s);
    let (total, n) = choose|total: u64, n: u64|
        #[trigger] difference_sum::<A>(a, f, s, overlap_to(a.len() as int, s) - overlap_from(s), total)
            && #[trigger] call_ensures(A::offset, (overlap_count(a.len() as int, s) as isize,), n)
            && call_ensures(A::over, (total, n), e);
    lemma_difference_sum_either_way::<A>(a, f, s, k, total);
    assert(overlap_to(w, -s) - overlap_from(-s) == k);
    assert(overlap_count(w, -s) == overlap_count(w, s));
    assert(difference_sum::<A>(f, a, -s, overlap_to(f.len() as int, -s) - overlap_from(-s), total));
    assert(call_ensures(A::offset, (overlap_count(f.len() as int, -s) as isize,), n));
}

/// The shift error is symmetric: swapping the profiles and negating the shift
/// gives the same errors, where the profiles are numbers.
pub proof fn law_shift_error_is_symmetric<A: FloatUnit>(a: Seq<u64>, f: Seq<u64>, s: int, e: u64)
    requires
        squares_alike::<A>(),
        a.len() == f.len(),
        numbers(a),
        numbers(f),
    ensures
        matching_error::<A>(a, f, s, e) <==> matching_error::<A>(f, a, -s, e),
{
    if matching_error::<A>(a, f, s, e) {
        lemma_matching_error_either_way::<A>(a, f, s, e);
    }
    if matching_error::<A>(f, a, -s, e) {
        lemma_matching_error_either_way::<A>(f, a, -s, e);
        assert(-(-s) == s);
    }
}

/// The refinement moves a shift by at most one pixel, whatever the unit does.
pub proof fn law_vertex_lies_within_a_pixel<A: FloatUnit>(e0: u64, e1: u64, e2: u64, delta: u64)
    requires
        vertex_offset::<A>(e0, e1, e2, delta),
    ensures
        nan(delta) || (at_most(ieee::NEG_ONE, delta) && at_most(delta, ieee::ONE)),
{
}

/// The curvature of the parabola through three errors, as a value.
pub open spec fn curvature(e0: u64, e1: u64, e2: u64) -> int {
    scaled(e0) - 2 * scaled(e1) + scaled(e2)
}

/// Whether the curvature of the parabola through three errors does not round.
pub open spec fn curvature_exact<A: FloatUnit>(e0: u64, e1: u64, e2: u64) -> bool {
    &&& times_exact::<A>(ieee::TWO, e1)
    &&& forall|twice: u64| #[trigger] call_ensures(A::times, (ieee::TWO, e1), twice) ==> minus_exact::<A>(e0, twice)
    &&& forall|twice: u64, d: u64| #[trigger]
        call_ensures(A::times, (ieee::TWO, e1), twice) && #[trigger] call_ensures(A::minus, (e0, twice), d) ==> plus_exact::<A>(d, e2)
}

/// Whether the vertex of the parabola through three errors does not round.
pub open spec fn vertex_exact<A: FloatUnit>(e0: u64, e1: u64, e2: u64) -> bool {
    &&& curvature_exact::<A>(e0, e1, e2)
    &&& minus_exact::<A>(e0, e2)
    &&& forall|g: u64| #[trigger] call_ensures(A::minus, (e0, e2), g) ==> times_exact::<A>(ieee::HALF, g)
    &&& forall|g: u64, half: u64, twice: u64, d: u64, denom: u64| #[trigger]
        call_ensures(A::minus, (e0, e2), g) && #[trigger] call_ensures(A::times, (ieee::HALF, g), half) && #[trigger] call_ensures(
            A::times,
            (ieee::TWO, e1),
            twice,
        ) && #[trigger] call_ensures(A::minus, (e0, twice), d) && #[trigger] call_ensures(A::plus, (d, e2), denom)
            ==> over_exact::<A>(half, denom)
}

/// Whether the refinement of the first least shift does not round.
pub open spec fn refinement_exact<A: FloatUnit>(errors: Seq<u64>, m: int) -> bool {
    forall|k: int| #[trigger]
        first_least(errors, k) ==> offset_exact::<A>((k - m) as isize) && (0 < k < errors.len() - 1 ==> vertex_exact::<A>(
            errors[k - 1],
            errors[k],
            errors[k + 1],
        ) && (forall|s: u64, delta: u64| #[trigger]
            call_ensures(A::offset, ((k - m) as isize,), s) && #[trigger] vertex_offset::<A>(
                errors[k - 1],
                errors[k],
                errors[k + 1],
                delta,
            ) ==> plus_exact::<A>(s, delta)))
}

/// The vertex of the parabola is within half a pixel of the least of three
/// errors, where nothing rounds.
proof fn lemma_vertex_is_near<A: FloatUnit>(e0: u64, e1: u64, e2: u64, delta: u64)
    requires
        vertex_exact::<A>(e0, e1, e2),
        scaled(e1) <= scaled(e0),
        scaled(e1) <= scaled(e2),
        vertex_offset::<A>(e0, e1, e2, delta),
    ensures
        -scaled(ieee::ONE) <= 2 * scaled(delta) <= scaled(ieee::ONE),
        curvature(e0, e1, e2) < scaled(ieee::INFINITY) ==> if curvature(e0, e1, e2) > scaled(ieee::TINY) {
            2 * scaled(delta) * curvature(e0, e1, e2) == (scaled(e0) - scaled(e2)) * scaled(ieee::ONE)
        } else {
            scaled(delta) == 0
        },
{
    lemma_scaled_constants();
    let one = scaled(ieee::ONE);
    let (twice, d, denom) = choose|twice: u64, d: u64, denom: u64|
        #[trigger] call_ensures(A::times, (ieee::TWO, e1), twice) && #[trigger] call_ensures(A::minus, (e0, twice), d)
            && #[trigger] call_ensures(A::plus, (d, e2), denom) && if below(ieee::TINY, ieee::absolute(denom)) {
            vertex_quotient::<A>(e0, e2, denom, delta)
        } else {
            delta == ieee::ZERO
        };
    assert(scaled(twice) == 2 * scaled(e1)) by (nonlinear_arith)
        requires
            scaled(twice) * one == scaled(ieee::TWO) * scaled(e1),
            scaled(ieee::TWO) == 2 * one,
            one > 0,
    ;
    let big = scaled(denom);
    assert(big == curvature(e0, e1, e2));
    law_rank_orders_the_values(denom, ieee::INFINITY);
    law_rank_orders_the_values(ieee::INFINITY, denom);
    law_rank_orders_the_values(ieee::absolute(denom), ieee::TINY);
    law_rank_orders_the_values(ieee::ZERO, denom);
    if below(ieee::TINY, ieee::absolute(denom)) {
        law_rank_orders_the_values(denom, denom);
        assert(big > 0);
        let (g, half, q) = choose|g: u64, half: u64, q: u64|
            #[trigger] call_ensures(A::minus, (e0, e2), g) && #[trigger] call_ensures(A::times, (ieee::HALF, g), half)
                && #[trigger] call_ensures(A::over, (half, denom), q) && delta == ieee::clamped(q, ieee::NEG_ONE, ieee::ONE);
        assert(2 * scaled(half) == scaled(g)) by (nonlinear_arith)
            requires
                scaled(half) * one == scaled(ieee::HALF) * scaled(g),
                2 * scaled(ieee::HALF) == one,
                one > 0,
        ;
        assert(-big <= scaled(g) <= big);
        assert(-one <= 2 * scaled(q) <= one) by (nonlinear_arith)
            requires
                scaled(q) * big == scaled(half) * one,
                2 * scaled(half) == scaled(g),
                -big <= scaled(g) <= big,
                big > 0,
                one > 0,
        ;
        law_rank_orders_the_values(ieee::NEG_ONE, q);
        law_rank_orders_the_values(q, ieee::ONE);
        assert(delta == q);
        let (vq, vh, vg) = (scaled(q), scaled(half), scaled(g));
        assert(2 * vq * big == vg * one) by (nonlinear_arith)
            requires
                vq * big == vh * one,
                2 * vh == vg,
        ;
    }
}

/// Whether `r` is near the least shift `k - m`: within half a pixel of it and
/// within the range, the least shift itself at the ends of the range, and else
/// the vertex of the parabola through its error and the two beside it, where
/// that has a curvature.
pub open spec fn near_least(errors: Seq<u64>, m: int, k: int, r: u64) -> bool {
    let (one, least) = (scaled(ieee::ONE), (k - m) * scaled(ieee::ONE));
    &&& -one <= 2 * (scaled(r) - least) <= one
    &&& -(m * one) <= scaled(r) <= m * one
    &&& k == 0 || k == 2 * m ==> scaled(r) == least
    &&& 0 < k < 2 * m ==> {
        let (e0, e2) = (errors[k - 1], errors[k + 1]);
        let bend = curvature(e0, errors[k], e2);
        bend < scaled(ieee::INFINITY) ==> if bend > scaled(ieee::TINY) {
            2 * (scaled(r) - least) * bend == (scaled(e0) - scaled(e2)) * one
        } else {
            scaled(r) == least
        }
    }
}

/// The refined shift is near the first least shift, where nothing rounds.
pub proof fn law_refined_shift_is_near_the_least<A: FloatUnit>(errors: Seq<u64>, m: int, r: u64)
    requires
        refinement_exact::<A>(errors, m),
        0 <= m <= isize::MAX,
        errors.len() == 2 * m + 1,
        refined_shift::<A>(errors, m, r),
    ensures
        exists|k: int| #[trigger] first_least(errors, k) && near_least(errors, m, k, r),
{
    lemma_scaled_constants();
    let one = scaled(ieee::ONE);
    let (k, s) = choose|k: int, s: u64|
        #[trigger] first_least(errors, k) && #[trigger] call_ensures(A::offset, ((k - m) as isize,), s) && if k == 0 || k
            == errors.len() - 1 {
            r == s
        } else {
            shifted_by_vertex::<A>(s, errors[k - 1], errors[k], errors[k + 1], r)
        };
    assert(((k - m) as isize) as int == k - m);
    let least = (k - m) * one;
    assert(scaled(s) == least);
    assert(-(m * one) <= least <= m * one) by (nonlinear_arith)
        requires
            least == (k - m) * one,
            0 <= k <= 2 * m,
            one > 0,
    ;
    if k != 0 && k != 2 * m {
        let (e0, e1, e2) = (errors[k - 1], errors[k], errors[k + 1]);
        let delta = choose|delta: u64| #[trigger] vertex_offset::<A>(e0, e1, e2, delta) && call_ensures(A::plus, (s, delta), r);
        assert(ieee::total_place(e1) <= ieee::total_place(errors[k - 1]));
        assert(ieee::total_place(e1) <= ieee::total_place(errors[k + 1]));
        law_rank_orders_the_values(e1, e0);
        law_rank_orders_the_values(e1, e2);
        lemma_vertex_is_near::<A>(e0, e1, e2, delta);
        assert(-(m * one) + one <= least <= m * one - one) by (nonlinear_arith)
            requires
                least == (k - m) * one,
                1 <= k <= 2 * m - 1,
                one > 0,
        ;
    }
    assert(first_least(errors, k));
}

/// The shift that aligns two profiles is near the first of the shifts with the
/// least error, where its refinement does not round.
pub proof fn law_aligning_shift_is_near_the_least<A: FloatUnit>(a: Seq<u64>, f: Seq<u64>, max_shift: usize, r: u64)
    requires
        a.len() <= isize::MAX,
        forall|errors: Seq<u64>| #[trigger]
            error_curve::<A>(a, f, search_radius(a.len() as int, max_shift), errors) ==> refinement_exact::<A>(
                errors,
                search_radius(a.len() as int, max_shift),
            ),
        aligning_shift::<A>(a, f, max_shift, r),
    ensures
        exists|errors: Seq<u64>, k: int| #[trigger]
            error_curve::<A>(a, f, search_radius(a.len() as int, max_shift), errors) && #[trigger] first_least(errors, k)
                && near_least(errors, search_radius(a.len() as int, max_shift), k, r),
{
    let m = search_radius(a.len() as int, max_shift);
    let errors = choose|errors: Seq<u64>| #[trigger] error_curve::<A>(a, f, m, errors) && refined_shift::<A>(errors, m, r);
    law_refined_shift_is_near_the_least::<A>(errors, m, r);
    let k = choose|k: int| #[trigger] first_least(errors, k) && near_least(errors, m, k, r);
    assert(error_curve::<A>(a, f, m, errors) && first_least(errors, k));
}

/// The sum of the squared differences of the first `k` overlapping columns, as
/// a value.
pub open spec fn squared_differences(a: Seq<u64>, f: Seq<u64>, s: int, k: int) -> int
    decreases k,
{
    if k <= 0 {
        0
    } else {
        let x = overlap_from(s) + k - 1;
        squared_differences(a, f, s, k - 1) + (scaled(a[x]) - scaled(f[x + s])) * (scaled(a[x]) - scaled(f[x + s]))
    }
}

/// Whether the shift error does not round.
pub open spec fn error_exact<A: FloatUnit>(a: Seq<u64>, f: Seq<u64>, s: int) -> bool {
    let (from, to) = (overlap_from(s), overlap_to(a.len() as int, s));
    &&& forall|x: int| from <= x < to ==> minus_exact::<A>(#[trigger] a[x], f[x + s])
    &&& forall|x: int, d: u64| from <= x < to && #[trigger] call_ensures(A::minus, (a[x], f[x + s]), d) ==> times_exact::<A>(d, d)
    &&& forall|k: int, prev: u64, d: u64, q: u64|
        0 <= k < to - from && #[trigger] difference_sum::<A>(a, f, s, k, prev) && #[trigger] call_ensures(
            A::minus,
            (a[from + k], f[from + k + s]),
            d,
        ) && #[trigger] call_ensures(A::times, (d, d), q) ==> plus_exact::<A>(prev, q)
    &&& offset_exact::<A>(overlap_count(a.len() as int, s) as isize)
    &&& forall|total: u64, n: u64| #[trigger]
        difference_sum::<A>(a, f, s, to - from, total) && #[trigger] call_ensures(
            A::offset,
            (overlap_count(a.len() as int, s) as isize,),
            n,
        ) ==> over_exact::<A>(total, n)
}

proof fn lemma_exact_differences<A: FloatUnit>(a: Seq<u64>, f: Seq<u64>, s: int, k: int, acc: u64)
    requires
        error_exact::<A>(a, f, s),
        k <= overlap_to(a.len() as int, s) - overlap_from(s),
        difference_sum::<A>(a, f, s, k, acc),
    ensures
        scaled(acc) * scaled(ieee::ONE) == squared_differences(a, f, s, k),
    decreases k,
{
    lemma_scaled_constants();
    let one = scaled(ieee::ONE);
    if k <= 0 {
        assert(0 * one == 0) by (nonlinear_arith);
    } else {
        let x = overlap_from(s) + (k - 1);
        let prev = choose|prev: u64|
            difference_sum::<A>(a, f, s, k - 1, prev) && #[trigger] difference_added::<A>(
                prev,
                a[overlap_from(s) + k - 1],
                f[overlap_from(s) + k - 1 + s],
                acc,
            );
        lemma_exact_differences::<A>(a, f, s, k - 1, prev);
        let (d, q) = choose|d: u64, q: u64|
            #[trigger] call_ensures(A::minus, (a[x], f[x + s]), d) && #[trigger] call_ensures(A::times, (d, d), q) && call_ensures(
                A::plus,
                (prev, q),
                acc,
            );
        assert(minus_exact::<A>(a[x], f[x + s]));
        assert(times_exact::<A>(d, d));
        assert(call_ensures(A::minus, (a[overlap_from(s) + (k - 1)], f[overlap_from(s) + (k - 1) + s]), d));
        assert(plus_exact::<A>(prev, q));
        let (v, w) = (scaled(prev), scaled(q));
        assert((v + w) * one == v * one + w * one) by (nonlinear_arith);
    }
}

/// The shift error is the mean of the squared differences over exactly the
/// overlapping columns, where nothing rounds.
pub proof fn law_shift_error_is_the_mean<A: FloatUnit>(a: Seq<u64>, f: Seq<u64>, s: int, e: u64)
    requires
        a.len() <= isize::MAX,
        error_exact::<A>(a, f, s),
        matching_error::<A>(a, f, s, e),
    ensures
        scaled(e) * scaled(ieee::ONE) * overlap_count(a.len() as int, s) == squared_differences(
            a,
            f,
            s,
            overlap_to(a.len() as int, s) - overlap_from(s),
        ),
{
    lemma_scaled_constants();
    let one = scaled(ieee::ONE);
    let count = overlap_count(a.len() as int, s);
    let k = overlap_to(a.len() as int, s) - overlap_from(s);
    let (total, n) = choose|total: u64, n: u64|
        #[trigger] difference_sum::<A>(a, f, s, overlap_to(a.len() as int, s) - overlap_from(s), total)
            && #[trigger] call_ensures(A::offset, (overlap_count(a.len() as int, s) as isize,), n) && call_ensures(
            A::over,
            (total, n),
            e,
        );
    lemma_exact_differences::<A>(a, f, s, k, total);
    assert(count as isize == count);
    assert(over_exact::<A>(total, n));
    let (ve, vt) = (scaled(e), scaled(total));
    assert(ve * one * count == vt * one) by (nonlinear_arith)
        requires
            ve * scaled(n) == vt * one,
            scaled(n) == count * one,
    ;
}

/// Whether all partial sums of the values are moderate, and the values too.
pub open spec fn adds_moderately<A: FloatUnit>(values: Seq<u64>) -> bool {
    &&& forall|k: int| 0 <= k < values.len() ==> moderate(#[trigger] values[k])
    &&& forall|k: int, s: u64| 0 <= k <= values.len() && #[trigger] sum::<A>(values, k, s) ==> moderate(s)
}

/// Whether a mean is moderate, and zero only where the sum is.
pub open spec fn moderate_mean<A: FloatUnit>(values: Seq<u64>, mean: u64) -> bool {
    &&& moderate(mean)
    &&& forall|s: u64| #[trigger] sum::<A>(values, values.len() as int, s) ==> vanishes_with(mean, s)
}

/// Whether nothing overflows, underflows or is denormal in the profile of a
/// band, and its columns spread.
pub open spec fn stays_in_range<A: FloatUnit>(plane: Seq<u32>, width: usize, y0: int, band: int) -> bool {
    &&& forall|x: int, k: int| 0 <= x < width && 0 <= k < band ==> moderate32(#[trigger] in_row(plane, width, y0 + k, x))
    &&& forall|x: int, k: int, acc: u64|
        0 <= x < width && 0 <= k <= band && #[trigger] column_sum::<A>(plane, width, y0, x, k, acc) ==> moderate(acc)
    &&& forall|sums: Seq<u64>| #[trigger] column_sums::<A>(plane, width, y0, band, sums) ==> adds_moderately::<A>(sums)
    &&& forall|sums: Seq<u64>, mean: u64| #[trigger]
        column_sums::<A>(plane, width, y0, band, sums) && #[trigger] mean_of::<A>(sums, mean) ==> moderate_mean::<A>(sums, mean)
            && (forall|x: int, d: u64| 0 <= x < width && #[trigger] call_ensures(A::minus, (sums[x], mean), d) ==> moderate(d))
    &&& forall|sums: Seq<u64>, mean: u64, squares: Seq<u64>| #[trigger]
        column_sums::<A>(plane, width, y0, band, sums) && #[trigger] mean_of::<A>(sums, mean) && #[trigger] squared_distances::<A>(
            sums,
            mean,
            squares,
        ) ==> spreads_moderately::<A>(squares) && (forall|x: int, d: u64|
            0 <= x < width && #[trigger] call_ensures(A::minus, (sums[x], mean), d) ==> vanishes_with(squares[x], d))
}

/// Whether the squares add up moderately, and so do their mean and its root,
/// which is not tiny.
pub open spec fn spreads_moderately<A: FloatUnit>(squares: Seq<u64>) -> bool {
    &&& adds_moderately::<A>(squares)
    &&& forall|var: u64, root: u64| #[trigger]
        mean_of::<A>(squares, var) && #[trigger] call_ensures(A::root, (var,), root) ==> moderate_mean::<A>(squares, var)
            && moderate(root) && below(ieee::TINY, root)
}

/// Every value twice.
pub open spec fn twice(values: Seq<u64>) -> Seq<u64> {
    Seq::new(values.len(), |k: int| doubled(values[k]))
}

/// Whether the samples of `q` in a band are twice those of `p`.
pub open spec fn twice_in_band(p: Seq<u32>, q: Seq<u32>, width: usize, y0: int, band: int) -> bool {
    forall|x: int, k: int|
        0 <= x < width && 0 <= k < band ==> in_row(q, width, y0 + k, x) == doubled32(#[trigger] in_row(p, width, y0 + k, x))
}

proof fn lemma_column_sum_doubles<A: FloatUnit>(p: Seq<u32>, q: Seq<u32>, width: usize, y0: int, band: int, x: int, k: int, acc: u64)
    requires
        doubles_evenly::<A>(),
        stays_in_range::<A>(p, width, y0, band),
        twice_in_band(p, q, width, y0, band),
        0 <= x < width,
        0 <= k <= band,
        column_sum::<A>(p, width, y0, x, k, acc),
    ensures
        column_sum::<A>(q, width, y0, x, k, doubled(acc)),
    decreases k,
{
    if k > 0 {
        let at = (y0 + k - 1) * width + x;
        let prev = choose|prev: u64|
            column_sum::<A>(p, width, y0, x, k - 1, prev) && #[trigger] sample_added::<A>(prev, p[(y0 + k - 1) * width + x], acc);
        lemma_column_sum_doubles::<A>(p, q, width, y0, band, x, k - 1, prev);
        let v = choose|v: u64| #[trigger] call_ensures(A::widen, (p[at],), v) && call_ensures(A::plus, (prev, v), acc);
        assert(y0 + (k - 1) == y0 + k - 1);
        assert(moderate32(in_row(p, width, y0 + (k - 1), x)));
        assert(q[at] == doubled32(p[at]));
        assert(moderate(prev) && moderate(v) && moderate(acc));
        assert(call_ensures(A::widen, (q[at],), doubled(v)));
        assert(call_ensures(A::plus, (doubled(prev), doubled(v)), doubled(acc)));
        assert(sample_added::<A>(doubled(prev), q[(y0 + k - 1) * width + x], doubled(acc)));
    }
}

proof fn lemma_sum_doubles<A: FloatUnit>(values: Seq<u64>, k: int, s: u64)
    requires
        doubles_evenly::<A>(),
        adds_moderately::<A>(values),
        0 <= k <= values.len(),
        sum::<A>(values, k, s),
    ensures
        sum::<A>(twice(values), k, doubled(s)),
        sum::<A>(twice(twice(values)), k, doubled(doubled(s))),
    decreases k,
{
    if k > 0 {
        let prev = choose|prev: u64| sum::<A>(values, k - 1, prev) && #[trigger] call_ensures(A::plus, (prev, values[k - 1]), s);
        lemma_sum_doubles::<A>(values, k - 1, prev);
        assert(moderate(prev) && moderate(values[k - 1]) && moderate(s));
        assert(call_ensures(A::plus, (doubled(prev), twice(values)[k - 1]), doubled(s)));
        assert(call_ensures(A::plus, (doubled(doubled(prev)), twice(twice(values))[k - 1]), doubled(doubled(s))));
    }
}

proof fn lemma_mean_doubles<A: FloatUnit>(values: Seq<u64>, mean: u64)
    requires
        doubles_evenly::<A>(),
        adds_moderately::<A>(values),
        moderate_mean::<A>(values, mean),
        mean_of::<A>(values, mean),
    ensures
        mean_of::<A>(twice(values), doubled(mean)),
        mean_of::<A>(twice(twice(values)), doubled(doubled(mean))),
{
    let (s, n) = choose|s: u64, n: u64|
        #[trigger] sum::<A>(values, values.len() as int, s) && #[trigger] call_ensures(A::count, (values.len() as usize,), n)
            && call_ensures(A::over, (s, n), mean);
    lemma_sum_doubles::<A>(values, values.len() as int, s);
    assert(call_ensures(A::count, (twice(values).len() as usize,), n));
    assert(call_ensures(A::count, (twice(twice(values)).len() as usize,), n));
    assert(sum::<A>(twice(values), twice(values).len() as int, doubled(s)));
    assert(sum::<A>(twice(twice(values)), twice(twice(values)).len() as int, doubled(doubled(s))));
}

/// The overall intensity does not matter: a profile of a plane is a profile of
/// the plane with every sample of the band doubled, where nothing overflows,
/// underflows or is denormal and the columns spread.
pub proof fn law_overall_intensity_does_not_count<A: FloatUnit>(
    p: Seq<u32>,
    q: Seq<u32>,
    width: usize,
    y0: int,
    band: int,
    out: Seq<u64>,
)
    requires
        doubles_evenly::<A>(),
        band >= 0,
        stays_in_range::<A>(p, width, y0, band),
        twice_in_band(p, q, width, y0, band),
        normalized_profile::<A>(p, width, y0, band, out),
    ensures
        normalized_profile::<A>(q, width, y0, band, out),
{
    let (sums, mean, std) = choose|sums: Seq<u64>, mean: u64, std: u64|
        #[trigger] column_sums::<A>(p, width, y0, band, sums) && #[trigger] mean_of::<A>(sums, mean)
            && #[trigger] deviation::<A>(sums, mean, std) && out.len() == width && (forall|x: int|
            0 <= x < width ==> standardized::<A>(sums[x], mean, std, #[trigger] out[x]));
    let sums2 = twice(sums);
    assert(adds_moderately::<A>(sums));
    assert forall|x: int| 0 <= x < width implies column_sum::<A>(q, width, y0, x, band, #[trigger] sums2[x]) by {
        lemma_column_sum_doubles::<A>(p, q, width, y0, band, x, band, sums[x]);
    }
    assert(column_sums::<A>(q, width, y0, band, sums2));
    assert(moderate_mean::<A>(sums, mean));
    lemma_mean_doubles::<A>(sums, mean);
    let (squares, var, root) = choose|squares: Seq<u64>, var: u64, root: u64|
        #[trigger] squared_distances::<A>(sums, mean, squares) && #[trigger] mean_of::<A>(squares, var)
            && #[trigger] call_ensures(A::root, (var,), root) && std == ieee::raised(root, ieee::TINY);
    assert(spreads_moderately::<A>(squares));
    assert(moderate_mean::<A>(squares, var) && moderate(root) && below(ieee::TINY, root));
    let squares2 = twice(twice(squares));
    assert forall|x: int| 0 <= x < sums2.len() implies squared_distance::<A>(sums2[x], doubled(mean), #[trigger] squares2[x]) by {
        assert(squared_distance::<A>(sums[x], mean, squares[x]));
        let d = choose|d: u64| #[trigger] call_ensures(A::minus, (sums[x], mean), d) && call_ensures(A::square, (d,), squares[x]);
        assert(moderate(d) && moderate(sums[x]) && moderate(squares[x]) && vanishes_with(squares[x], d));
        assert(call_ensures(A::minus, (sums2[x], doubled(mean)), doubled(d)));
        assert(call_ensures(A::square, (doubled(d),), squares2[x]));
    }
    assert(squared_distances::<A>(sums2, doubled(mean), squares2));
    lemma_mean_doubles::<A>(squares, var);
    assert(call_ensures(A::root, (doubled(doubled(var)),), doubled(root)));
    assert(below(ieee::TINY, doubled(root)));
    assert(deviation::<A>(sums2, doubled(mean), doubled(root)));
    assert forall|x: int| 0 <= x < width implies standardized::<A>(sums2[x], doubled(mean), doubled(std), #[trigger] out[x]) by {
        let d = choose|d: u64| #[trigger] call_ensures(A::minus, (sums[x], mean), d) && call_ensures(A::over, (d, std), out[x]);
        assert(moderate(d) && moderate(sums[x]));
        assert(call_ensures(A::minus, (sums2[x], doubled(mean)), doubled(d)));
        assert(call_ensures(A::over, (doubled(d), doubled(std)), out[x]));
    }
}

/// The sum of the values of the first `k` numbers.
pub open spec fn total(values: Seq<u64>, k: int) -> int
    decreases k,
{
    if k <= 0 {
        0
    } else {
        total(values, k - 1) + scaled(values[k - 1])
    }
}

/// The sum of the squared values of the first `k` numbers.
pub open spec fn total_squares(values: Seq<u64>, k: int) -> int
    decreases k,
{
    if k <= 0 {
        0
    } else {
        total_squares(values, k - 1) + scaled(values[k - 1]) * scaled(values[k - 1])
    }
}

/// Whether adding the values up does not round.
pub open spec fn sum_exact<A: FloatUnit>(values: Seq<u64>) -> bool {
    forall|k: int, s: u64| 0 <= k < values.len() && #[trigger] sum::<A>(values, k, s) ==> plus_exact::<A>(s, values[k])
}

/// Whether the mean of the values does not round.
pub open spec fn mean_exact<A: FloatUnit>(values: Seq<u64>) -> bool {
    &&& sum_exact::<A>(values)
    &&& count_exact::<A>(values.len() as usize)
    &&& forall|s: u64, n: u64| #[trigger]
        sum::<A>(values, values.len() as int, s) && #[trigger] call_ensures(A::count, (values.len() as usize,), n)
            ==> over_exact::<A>(s, n)
}

/// Whether the distances of the values from `mean` and their squares do not
/// round.
pub open spec fn distances_exact<A: FloatUnit>(values: Seq<u64>, mean: u64) -> bool {
    &&& forall|x: int| 0 <= x < values.len() ==> minus_exact::<A>(#[trigger] values[x], mean)
    &&& forall|x: int, d: u64|
        0 <= x < values.len() && #[trigger] call_ensures(A::minus, (values[x], mean), d) ==> square_exact::<A>(d)
}

/// Whether the distances of the values from `mean` are divided by `std`
/// without rounding.
pub open spec fn quotients_exact<A: FloatUnit>(values: Seq<u64>, mean: u64, std: u64) -> bool {
    forall|x: int, d: u64|
        0 <= x < values.len() && #[trigger] call_ensures(A::minus, (values[x], mean), d) ==> over_exact::<A>(d, std)
}

/// Whether the deviation of the values from `mean` does not round.
pub open spec fn deviation_exact<A: FloatUnit>(values: Seq<u64>, mean: u64) -> bool {
    &&& distances_exact::<A>(values, mean)
    &&& forall|squares: Seq<u64>| #[trigger] squared_distances::<A>(values, mean, squares) ==> mean_exact::<A>(squares)
    &&& forall|squares: Seq<u64>, var: u64| #[trigger]
        squared_distances::<A>(values, mean, squares) && #[trigger] mean_of::<A>(squares, var) ==> root_exact::<A>(var)
}

/// Whether the normalization of the column sums of a band does not round, and
/// they spread.
pub open spec fn normalization_exact<A: FloatUnit>(plane: Seq<u32>, width: usize, y0: int, band: int) -> bool {
    &&& forall|sums: Seq<u64>| #[trigger] column_sums::<A>(plane, width, y0, band, sums) ==> mean_exact::<A>(sums)
    &&& forall|sums: Seq<u64>, mean: u64| #[trigger]
        column_sums::<A>(plane, width, y0, band, sums) && #[trigger] mean_of::<A>(sums, mean) ==> deviation_exact::<A>(sums, mean)
    &&& forall|sums: Seq<u64>, mean: u64, std: u64| #[trigger]
        column_sums::<A>(plane, width, y0, band, sums) && #[trigger] mean_of::<A>(sums, mean) && #[trigger] deviation::<A>(
            sums,
            mean,
            std,
        ) ==> quotients_exact::<A>(sums, mean, std) && below(ieee::TINY, std)
}

proof fn lemma_exact_sum<A: FloatUnit>(values: Seq<u64>, k: int, s: u64)
    requires
        sum_exact::<A>(values),
        k <= values.len(),
        sum::<A>(values, k, s),
    ensures
        scaled(s) == total(values, k),
    decreases k,
{
    lemma_scaled_constants();
    if k > 0 {
        let prev = choose|prev: u64| sum::<A>(values, k - 1, prev) && #[trigger] call_ensures(A::plus, (prev, values[k - 1]), s);
        lemma_exact_sum::<A>(values, k - 1, prev);
    }
}

proof fn lemma_exact_mean<A: FloatUnit>(values: Seq<u64>, mean: u64)
    requires
        mean_exact::<A>(values),
        0 < values.len() <= usize::MAX,
        mean_of::<A>(values, mean),
    ensures
        scaled(mean) * values.len() == total(values, values.len() as int),
{
    lemma_scaled_constants();
    let len = values.len() as int;
    let one = scaled(ieee::ONE);
    let (s, n) = choose|s: u64, n: u64|
        #[trigger] sum::<A>(values, values.len() as int, s) && #[trigger] call_ensures(A::count, (values.len() as usize,), n)
            && call_ensures(A::over, (s, n), mean);
    lemma_exact_sum::<A>(values, len, s);
    assert(scaled(n) == len * one);
    assert(scaled(n) > 0) by (nonlinear_arith)
        requires
            scaled(n) == len * one,
            len > 0,
            one > 0,
    ;
    assert(scaled(mean) * len == scaled(s)) by (nonlinear_arith)
        requires
            scaled(mean) * scaled(n) == scaled(s) * one,
            scaled(n) == len * one,
            one > 0,
    ;
}

/// How the values, their squared distances and the standardized values add up.
proof fn lemma_exact_totals<A: FloatUnit>(sums: Seq<u64>, mean: u64, std: u64, squares: Seq<u64>, out: Seq<u64>, k: int)
    requires
        distances_exact::<A>(sums, mean),
        quotients_exact::<A>(sums, mean, std),
        0 <= k <= sums.len(),
        squared_distances::<A>(sums, mean, squares),
        out.len() == sums.len(),
        forall|x: int| 0 <= x < sums.len() ==> standardized::<A>(sums[x], mean, std, #[trigger] out[x]),
    ensures
        ({
            let (one, m, s) = (scaled(ieee::ONE), scaled(mean), scaled(std));
            &&& total(out, k) * s == (total(sums, k) - k * m) * one
            &&& total_squares(out, k) * (s * s) == total(squares, k) * (one * one * one)
            &&& total(squares, k) >= 0
        }),
    decreases k,
{
    lemma_scaled_constants();
    if k <= 0 {
        let (one, m, s) = (scaled(ieee::ONE), scaled(mean), scaled(std));
        assert(0 * s == (0 - 0 * m) * one && 0 * (s * s) == 0 * (one * one * one)) by (nonlinear_arith);
    } else {
        lemma_exact_totals::<A>(sums, mean, std, squares, out, k - 1);
        let (one, m, s) = (scaled(ieee::ONE), scaled(mean), scaled(std));
        let x = k - 1;
        assert(standardized::<A>(sums[x], mean, std, out[x]));
        assert(squared_distance::<A>(sums[x], mean, squares[x]));
        let d = choose|d: u64| #[trigger] call_ensures(A::minus, (sums[x], mean), d) && call_ensures(A::over, (d, std), out[x]);
        let c = choose|c: u64| #[trigger] call_ensures(A::minus, (sums[x], mean), c) && call_ensures(A::square, (c,), squares[x]);
        let (v, o, q) = (scaled(d), scaled(out[x]), scaled(squares[x]));
        assert(v == scaled(sums[x]) - m && v == scaled(c));
        assert(o * s == v * one && q * one == v * v);
        let (t0, t1) = (total(out, k - 1), total(sums, k - 1));
        assert((t0 + o) * s == (t1 + scaled(sums[x]) - k * m) * one) by (nonlinear_arith)
            requires
                t0 * s == (t1 - (k - 1) * m) * one,
                o * s == v * one,
                v == scaled(sums[x]) - m,
        ;
        let (u0, u1) = (total_squares(out, k - 1), total(squares, k - 1));
        assert((o * o) * (s * s) == q * (one * one * one)) by (nonlinear_arith)
            requires
                o * s == v * one,
                q * one == v * v,
        ;
        assert((u0 + o * o) * (s * s) == (u1 + q) * (one * one * one)) by (nonlinear_arith)
            requires
                u0 * (s * s) == u1 * (one * one * one),
                (o * o) * (s * s) == q * (one * one * one),
        ;
        assert(q >= 0) by (nonlinear_arith)
            requires
                q * one == v * v,
                one > 0,
        ;
    }
}

/// A profile is normalized: its mean is zero and its mean square is one, where
/// its columns spread and nothing rounds.
pub proof fn law_profile_is_normalized<A: FloatUnit>(plane: Seq<u32>, width: usize, y0: int, band: int, out: Seq<u64>)
    requires
        width > 0,
        normalized_profile::<A>(plane, width, y0, band, out),
        normalization_exact::<A>(plane, width, y0, band),
    ensures
        total(out, width as int) == 0,
        total_squares(out, width as int) == width * (scaled(ieee::ONE) * scaled(ieee::ONE)),
{
    lemma_scaled_constants();
    let one = scaled(ieee::ONE);
    let w = width as int;
    let (sums, mean, std) = choose|sums: Seq<u64>, mean: u64, std: u64|
        #[trigger] column_sums::<A>(plane, width, y0, band, sums) && #[trigger] mean_of::<A>(sums, mean)
            && #[trigger] deviation::<A>(sums, mean, std) && out.len() == width && (forall|x: int|
            0 <= x < width ==> standardized::<A>(sums[x], mean, std, #[trigger] out[x]));
    let (squares, var, root) = choose|squares: Seq<u64>, var: u64, root: u64|
        #[trigger] squared_distances::<A>(sums, mean, squares) && #[trigger] mean_of::<A>(squares, var)
            && #[trigger] call_ensures(A::root, (var,), root) && std == ieee::raised(root, ieee::TINY);
    assert(below(ieee::TINY, std));
    assert(std == root);
    law_rank_orders_the_values(std, std);
    let s = scaled(std);
    assert(s != 0);
    lemma_exact_mean::<A>(sums, mean);
    lemma_exact_mean::<A>(squares, var);
    lemma_exact_totals::<A>(sums, mean, std, squares, out, w);
    assert(total(out, w) == 0) by (nonlinear_arith)
        requires
            total(out, w) * s == (total(sums, w) - w * scaled(mean)) * one,
            scaled(mean) * w == total(sums, w),
            s != 0,
    ;
    let v = scaled(var);
    assert(v >= 0) by (nonlinear_arith)
        requires
            v * w == total(squares, w),
            total(squares, w) >= 0,
            w > 0,
    ;
    assert(s * s == v * one);
    let (u, n2) = (total_squares(out, w), w * (one * one));
    assert(total(squares, w) * (one * one * one) == n2 * (s * s)) by (nonlinear_arith)
        requires
            total(squares, w) == v * w,
            s * s == v * one,
            n2 == w * (one * one),
    ;
    assert(u == n2) by (nonlinear_arith)
        requires
            u * (s * s) == n2 * (s * s),
            s != 0,
    ;
}

} // verus!
