//! With a unit that repeats its results, the estimators repeat theirs.
use crate::algorithms::{
    axis_column, band_center, bands_of, law_band_starts_are_determined, pair_axis, pair_columns, pair_profiles, Params,
};
use crate::fit::{
    center, estimate_of, estimated, explained, fitted, intercept_at, law_kept_points_are_determined, line_of, marked,
    marks_best, moment_added, moments, point_added, point_sums, product_added, refitted, residual, residuals, trimmed, Estimate,
    Line, Moments,
};
use crate::ieee;
use crate::ieee::{absolute, below, clamped};
use crate::order::first_least;
use crate::pairs::Pair;
use crate::profile::{
    aligning_shift, column_sum, column_sums, degenerate, deviation, difference_added, difference_sum, error_curve,
    matching_error, mean_of, normalized_profile, overlap_count, overlap_from, overlap_to, refined_shift, sample_added,
    search_radius, shifted_by_vertex, squared_distance, squared_distances, standardized, sum, vertex_offset, vertex_quotient,
};
use crate::stack::Stack;
use crate::unit::{last_place, middle, repeats, FloatUnit};
use vstd::prelude::*;

verus! {

proof fn lemma_column_sum_repeats<A: FloatUnit>(plane: Seq<u32>, width: usize, y0: int, x: int, k: int, r: u64, s: u64)
    requires
        repeats::<A>(),
        column_sum::<A>(plane, width, y0, x, k, r),
        column_sum::<A>(plane, width, y0, x, k, s),
    ensures
        r == s,
    decreases k,
{
    if k > 0 {
        let p = choose|prev: u64|
            column_sum::<A>(plane, width, y0, x, k - 1, prev) && #[trigger] sample_added::<A>(
                prev,
                plane[(y0 + k - 1) * width + x],
                r,
            );
        let q = choose|prev: u64|
            column_sum::<A>(plane, width, y0, x, k - 1, prev) && #[trigger] sample_added::<A>(
                prev,
                plane[(y0 + k - 1) * width + x],
                s,
            );
        lemma_column_sum_repeats::<A>(plane, width, y0, x, k - 1, p, q);
    }
}

proof fn lemma_sum_repeats<A: FloatUnit>(values: Seq<u64>, k: int, r: u64, s: u64)
    requires
        repeats::<A>(),
        sum::<A>(values, k, r),
        sum::<A>(values, k, s),
    ensures
        r == s,
    decreases k,
{
    if k > 0 {
        let p = choose|prev: u64| sum::<A>(values, k - 1, prev) && #[trigger] call_ensures(A::plus, (prev, values[k - 1]), r);
        let q = choose|prev: u64| sum::<A>(values, k - 1, prev) && #[trigger] call_ensures(A::plus, (prev, values[k - 1]), s);
        lemma_sum_repeats::<A>(values, k - 1, p, q);
    }
}

proof fn lemma_mean_repeats<A: FloatUnit>(values: Seq<u64>, r: u64, s: u64)
    requires
        repeats::<A>(),
        mean_of::<A>(values, r),
        mean_of::<A>(values, s),
    ensures
        r == s,
{
    let (p, m) = choose|t: u64, n: u64|
        #[trigger] sum::<A>(values, values.len() as int, t) && #[trigger] call_ensures(A::count, (values.len() as usize,), n)
            && call_ensures(A::over, (t, n), r);
    let (q, n) = choose|t: u64, n: u64|
        #[trigger] sum::<A>(values, values.len() as int, t) && #[trigger] call_ensures(A::count, (values.len() as usize,), n)
            && call_ensures(A::over, (t, n), s);
    lemma_sum_repeats::<A>(values, values.len() as int, p, q);
    assert(m == n);
}

proof fn lemma_deviation_repeats<A: FloatUnit>(values: Seq<u64>, mean: u64, r: u64, s: u64)
    requires
        repeats::<A>(),
        deviation::<A>(values, mean, r),
        deviation::<A>(values, mean, s),
    ensures
        r == s,
{
    let (p, v, a) = choose|squares: Seq<u64>, var: u64, root: u64|
        #[trigger] squared_distances::<A>(values, mean, squares) && #[trigger] mean_of::<A>(squares, var)
            && #[trigger] call_ensures(A::root, (var,), root) && r == ieee::raised(root, ieee::TINY);
    let (q, w, b) = choose|squares: Seq<u64>, var: u64, root: u64|
        #[trigger] squared_distances::<A>(values, mean, squares) && #[trigger] mean_of::<A>(squares, var)
            && #[trigger] call_ensures(A::root, (var,), root) && s == ieee::raised(root, ieee::TINY);
    assert(p =~= q) by {
        assert forall|x: int| 0 <= x < p.len() implies p[x] == q[x] by {
            assert(squared_distance::<A>(values[x], mean, p[x]) && squared_distance::<A>(values[x], mean, q[x]));
        }
    }
    lemma_mean_repeats::<A>(p, v, w);
}

/// The profile of a band repeats with the unit.
pub proof fn law_profile_repeats<A: FloatUnit>(plane: Seq<u32>, width: usize, y0: int, band: int, a: Seq<u64>, b: Seq<u64>)
    requires
        repeats::<A>(),
        normalized_profile::<A>(plane, width, y0, band, a),
        normalized_profile::<A>(plane, width, y0, band, b),
    ensures
        a == b,
{
    let (p, m, r) = choose|sums: Seq<u64>, mean: u64, std: u64|
        #[trigger] column_sums::<A>(plane, width, y0, band, sums) && #[trigger] mean_of::<A>(sums, mean)
            && #[trigger] deviation::<A>(sums, mean, std) && a.len() == width && (forall|x: int|
            0 <= x < width ==> standardized::<A>(sums[x], mean, std, #[trigger] a[x]));
    let (q, n, s) = choose|sums: Seq<u64>, mean: u64, std: u64|
        #[trigger] column_sums::<A>(plane, width, y0, band, sums) && #[trigger] mean_of::<A>(sums, mean)
            && #[trigger] deviation::<A>(sums, mean, std) && b.len() == width && (forall|x: int|
            0 <= x < width ==> standardized::<A>(sums[x], mean, std, #[trigger] b[x]));
    assert(p =~= q) by {
        assert forall|x: int| 0 <= x < width implies p[x] == q[x] by {
            lemma_column_sum_repeats::<A>(plane, width, y0, x, band, p[x], q[x]);
        }
    }
    lemma_mean_repeats::<A>(p, m, n);
    lemma_deviation_repeats::<A>(p, m, r, s);
    assert forall|x: int| 0 <= x < width implies a[x] == b[x] by {
        assert(standardized::<A>(p[x], m, r, a[x]) && standardized::<A>(p[x], m, r, b[x]));
    }
    assert(a =~= b);
}

proof fn lemma_difference_sum_repeats<A: FloatUnit>(a: Seq<u64>, f: Seq<u64>, s: int, k: int, p: u64, q: u64)
    requires
        repeats::<A>(),
        difference_sum::<A>(a, f, s, k, p),
        difference_sum::<A>(a, f, s, k, q),
    ensures
        p == q,
    decreases k,
{
    if k > 0 {
        let at = overlap_from(s) + k - 1;
        let c = choose|prev: u64|
            difference_sum::<A>(a, f, s, k - 1, prev) && #[trigger] difference_added::<A>(
                prev,
                a[overlap_from(s) + k - 1],
                f[overlap_from(s) + k - 1 + s],
                p,
            );
        let d = choose|prev: u64|
            difference_sum::<A>(a, f, s, k - 1, prev) && #[trigger] difference_added::<A>(
                prev,
                a[overlap_from(s) + k - 1],
                f[overlap_from(s) + k - 1 + s],
                q,
            );
        lemma_difference_sum_repeats::<A>(a, f, s, k - 1, c, d);
        assert(difference_added::<A>(c, a[at], f[at + s], p) && difference_added::<A>(c, a[at], f[at + s], q));
    }
}

proof fn lemma_matching_error_repeats<A: FloatUnit>(a: Seq<u64>, f: Seq<u64>, s: int, p: u64, q: u64)
    requires
        repeats::<A>(),
        matching_error::<A>(a, f, s, p),
        matching_error::<A>(a, f, s, q),
    ensures
        p == q,
{
    let k = overlap_to(a.len() as int, s) - overlap_from(s);
    let count = overlap_count(a.len() as int, s) as isize;
    let (t, m) = choose|t: u64, n: u64|
        #[trigger] difference_sum::<A>(a, f, s, k, t) && #[trigger] call_ensures(A::offset, (count,), n) && call_ensures(
            A::over,
            (t, n),
            p,
        );
    let (u, n) = choose|t: u64, n: u64|
        #[trigger] difference_sum::<A>(a, f, s, k, t) && #[trigger] call_ensures(A::offset, (count,), n) && call_ensures(
            A::over,
            (t, n),
            q,
        );
    lemma_difference_sum_repeats::<A>(a, f, s, k, t, u);
    assert(m == n);
}

proof fn lemma_vertex_repeats<A: FloatUnit>(e0: u64, e1: u64, e2: u64, r: u64, s: u64)
    requires
        repeats::<A>(),
        vertex_offset::<A>(e0, e1, e2, r),
        vertex_offset::<A>(e0, e1, e2, s),
    ensures
        r == s,
{
    let (t, d, p) = choose|twice: u64, d: u64, denom: u64|
        #[trigger] call_ensures(A::times, (ieee::TWO, e1), twice) && #[trigger] call_ensures(A::minus, (e0, twice), d)
            && #[trigger] call_ensures(A::plus, (d, e2), denom) && if below(ieee::TINY, absolute(denom)) {
            vertex_quotient::<A>(e0, e2, denom, r)
        } else {
            r == ieee::ZERO
        };
    let (u, e, q) = choose|twice: u64, d: u64, denom: u64|
        #[trigger] call_ensures(A::times, (ieee::TWO, e1), twice) && #[trigger] call_ensures(A::minus, (e0, twice), d)
            && #[trigger] call_ensures(A::plus, (d, e2), denom) && if below(ieee::TINY, absolute(denom)) {
            vertex_quotient::<A>(e0, e2, denom, s)
        } else {
            s == ieee::ZERO
        };
    assert(t == u && d == e && p == q);
    if below(ieee::TINY, absolute(p)) {
        let (g, half, x) = choose|g: u64, half: u64, x: u64|
            #[trigger] call_ensures(A::minus, (e0, e2), g) && #[trigger] call_ensures(A::times, (ieee::HALF, g), half)
                && #[trigger] call_ensures(A::over, (half, p), x) && r == clamped(x, ieee::NEG_ONE, ieee::ONE);
        let (i, other, y) = choose|g: u64, half: u64, x: u64|
            #[trigger] call_ensures(A::minus, (e0, e2), g) && #[trigger] call_ensures(A::times, (ieee::HALF, g), half)
                && #[trigger] call_ensures(A::over, (half, p), x) && s == clamped(x, ieee::NEG_ONE, ieee::ONE);
        assert(g == i && half == other && x == y);
    }
}

proof fn lemma_refined_repeats<A: FloatUnit>(errors: Seq<u64>, m: int, r: u64, s: u64)
    requires
        repeats::<A>(),
        refined_shift::<A>(errors, m, r),
        refined_shift::<A>(errors, m, s),
    ensures
        r == s,
{
    let last = errors.len() - 1;
    let (k, p) = choose|k: int, p: u64|
        #[trigger] first_least(errors, k) && #[trigger] call_ensures(A::offset, ((k - m) as isize,), p) && if k == 0 || k
            == errors.len() - 1 {
            r == p
        } else {
            shifted_by_vertex::<A>(p, errors[k - 1], errors[k], errors[k + 1], r)
        };
    let (l, q) = choose|k: int, p: u64|
        #[trigger] first_least(errors, k) && #[trigger] call_ensures(A::offset, ((k - m) as isize,), p) && if k == 0 || k
            == errors.len() - 1 {
            s == p
        } else {
            shifted_by_vertex::<A>(p, errors[k - 1], errors[k], errors[k + 1], s)
        };
    assert(k == l) by {
        assert(ieee::total_place(errors[k]) <= ieee::total_place(errors[l]));
        assert(ieee::total_place(errors[l]) <= ieee::total_place(errors[k]));
    }
    assert(p == q);
    if k != 0 && k != last {
        let (e0, e1, e2) = (errors[k - 1], errors[k], errors[k + 1]);
        let d = choose|delta: u64| #[trigger] vertex_offset::<A>(e0, e1, e2, delta) && call_ensures(A::plus, (p, delta), r);
        let e = choose|delta: u64| #[trigger] vertex_offset::<A>(e0, e1, e2, delta) && call_ensures(A::plus, (p, delta), s);
        lemma_vertex_repeats::<A>(e0, e1, e2, d, e);
    }
}

/// The shift that aligns two profiles repeats with the unit.
pub proof fn law_shift_repeats<A: FloatUnit>(a: Seq<u64>, f: Seq<u64>, max_shift: usize, r: u64, s: u64)
    requires
        repeats::<A>(),
        aligning_shift::<A>(a, f, max_shift, r),
        aligning_shift::<A>(a, f, max_shift, s),
    ensures
        r == s,
{
    let m = search_radius(a.len() as int, max_shift);
    let p = choose|errors: Seq<u64>| #[trigger] error_curve::<A>(a, f, m, errors) && refined_shift::<A>(errors, m, r);
    let q = choose|errors: Seq<u64>| #[trigger] error_curve::<A>(a, f, m, errors) && refined_shift::<A>(errors, m, s);
    assert(p =~= q) by {
        assert forall|k: int| 0 <= k <= 2 * m implies p[k] == q[k] by {
            lemma_matching_error_repeats::<A>(a, f, k - m, p[k], q[k]);
        }
    }
    lemma_refined_repeats::<A>(p, m, r, s);
}

/// The places of `n` repeat with the unit.
pub proof fn lemma_places_repeat<A: FloatUnit>(n: usize, r: u64, s: u64)
    requires
        repeats::<A>(),
    ensures
        last_place::<A>(n, r) && last_place::<A>(n, s) ==> r == s,
        middle::<A>(n, r) && middle::<A>(n, s) ==> r == s,
{
    if middle::<A>(n, r) && middle::<A>(n, s) {
        let a = choose|m: u64| #[trigger] last_place::<A>(n, m) && call_ensures(A::over, (m, ieee::TWO), r);
        let b = choose|m: u64| #[trigger] last_place::<A>(n, m) && call_ensures(A::over, (m, ieee::TWO), s);
        assert(a == b);
    }
}

proof fn lemma_axis_column_repeats<A: FloatUnit>(w: usize, s: u64, c: u64, d: u64)
    requires
        repeats::<A>(),
        axis_column::<A>(w, s, c),
        axis_column::<A>(w, s, d),
    ensures
        c == d,
{
    let (p, x) = choose|last: u64, d: u64|
        #[trigger] last_place::<A>(w, last) && #[trigger] call_ensures(A::minus, (last, s), d) && call_ensures(
            A::over,
            (d, ieee::TWO),
            c,
        );
    let (q, y) = choose|last: u64, e: u64|
        #[trigger] last_place::<A>(w, last) && #[trigger] call_ensures(A::minus, (last, s), e) && call_ensures(
            A::over,
            (e, ieee::TWO),
            d,
        );
    lemma_places_repeat::<A>(w, p, q);
    assert(x == y);
}

/// The axis column that a pair gives at a band repeats with the unit.
pub proof fn law_pair_axis_repeats<A: FloatUnit>(stack: &Stack, pair: Pair, y0: int, band: int, max_shift: usize, c: u64, d: u64)
    requires
        repeats::<A>(),
        pair_axis::<A>(stack, pair, y0, band, max_shift, c),
        pair_axis::<A>(stack, pair, y0, band, max_shift, d),
    ensures
        c == d,
{
    let (a, f, r) = choose|a: Seq<u64>, f: Seq<u64>, s: u64|
        #[trigger] pair_profiles::<A>(stack, pair, y0, band, a, f) && #[trigger] aligning_shift::<A>(a, f, max_shift, s)
            && axis_column::<A>(stack.width, s, c);
    let (b, g, s) = choose|a: Seq<u64>, f: Seq<u64>, s: u64|
        #[trigger] pair_profiles::<A>(stack, pair, y0, band, a, f) && #[trigger] aligning_shift::<A>(a, f, max_shift, s)
            && axis_column::<A>(stack.width, s, d);
    let (i, j) = (stack.plane_at(pair.i as int), stack.plane_at(pair.j as int));
    law_profile_repeats::<A>(i, stack.width, y0, band, a, b);
    let p = choose|g: Seq<u64>| #[trigger] normalized_profile::<A>(j, stack.width, y0, band, g) && f == g.reverse();
    let q = choose|h: Seq<u64>| #[trigger] normalized_profile::<A>(j, stack.width, y0, band, h) && g == h.reverse();
    law_profile_repeats::<A>(j, stack.width, y0, band, p, q);
    law_shift_repeats::<A>(a, f, max_shift, r, s);
    lemma_axis_column_repeats::<A>(stack.width, r, c, d);
}

/// The bands of the same settings repeat with the unit.
pub proof fn law_bands_repeat<A: FloatUnit>(height: usize, params: Params, a: Seq<(usize, u64)>, b: Seq<(usize, u64)>)
    requires
        repeats::<A>(),
        bands_of::<A>(height, params, a),
        bands_of::<A>(height, params, b),
    ensures
        a == b,
{
    law_band_starts_are_determined::<A>(height, params, a, b);
    let band = params.band_rows();
    assert forall|k: int| 0 <= k < a.len() implies a[k] == b[k] by {
        assert(a[k].0 == b[k].0);
        assert(band_center::<A>(a[k].0, band, a[k].1) && band_center::<A>(a[k].0, band, b[k].1));
        let (p, x) = choose|start: u64, half: u64|
            #[trigger] call_ensures(A::count, (a[k].0,), start) && #[trigger] middle::<A>(band, half) && call_ensures(
                A::plus,
                (start, half),
                a[k].1,
            );
        let (q, y) = choose|start: u64, half: u64|
            #[trigger] call_ensures(A::count, (a[k].0,), start) && #[trigger] middle::<A>(band, half) && call_ensures(
                A::plus,
                (start, half),
                b[k].1,
            );
        lemma_places_repeat::<A>(band, x, y);
        assert(p == q);
    }
    assert(a =~= b);
}

/// The axis columns that a pair gives at the bands repeat with the unit.
pub proof fn law_pair_columns_repeat<A: FloatUnit>(
    stack: &Stack,
    pair: Pair,
    params: Params,
    list: Seq<(usize, u64)>,
    a: Seq<(u64, u64)>,
    b: Seq<(u64, u64)>,
)
    requires
        repeats::<A>(),
        pair_columns::<A>(stack, pair, params, list, a),
        pair_columns::<A>(stack, pair, params, list, b),
    ensures
        a == b,
{
    if !degenerate(stack.width as int, params.max_shift) {
        assert forall|k: int| 0 <= k < list.len() implies a[k] == b[k] by {
            let band = params.band_rows() as int;
            assert(a[k].0 == b[k].0);
            law_pair_axis_repeats::<A>(stack, pair, list[k].0 as int, band, params.max_shift, a[k].1, b[k].1);
        }
    }
    assert(a =~= b);
}

proof fn lemma_point_sums_repeat<A: FloatUnit>(points: Seq<(u64, u64)>, k: int, r: (u64, u64), s: (u64, u64))
    requires
        repeats::<A>(),
        point_sums::<A>(points, k, r),
        point_sums::<A>(points, k, s),
    ensures
        r == s,
    decreases k,
{
    if k > 0 {
        let p = choose|prev: (u64, u64)|
            point_sums::<A>(points, k - 1, prev) && #[trigger] point_added::<A>(prev, points[k - 1], r);
        let q = choose|prev: (u64, u64)|
            point_sums::<A>(points, k - 1, prev) && #[trigger] point_added::<A>(prev, points[k - 1], s);
        lemma_point_sums_repeat::<A>(points, k - 1, p, q);
    }
}

proof fn lemma_center_repeats<A: FloatUnit>(points: Seq<(u64, u64)>, r: (u64, u64), s: (u64, u64))
    requires
        repeats::<A>(),
        center::<A>(points, r),
        center::<A>(points, s),
    ensures
        r == s,
{
    let (m, p) = choose|n: u64, t: (u64, u64)|
        #[trigger] call_ensures(A::count, (points.len() as usize,), n) && #[trigger] point_sums::<A>(
            points,
            points.len() as int,
            t,
        ) && call_ensures(A::over, (t.0, n), r.0) && call_ensures(A::over, (t.1, n), r.1);
    let (n, q) = choose|n: u64, t: (u64, u64)|
        #[trigger] call_ensures(A::count, (points.len() as usize,), n) && #[trigger] point_sums::<A>(
            points,
            points.len() as int,
            t,
        ) && call_ensures(A::over, (t.0, n), s.0) && call_ensures(A::over, (t.1, n), s.1);
    lemma_point_sums_repeat::<A>(points, points.len() as int, p, q);
    assert(m == n);
}

proof fn lemma_product_repeats<A: FloatUnit>(prev: u64, x: u64, y: u64, r: u64, s: u64)
    requires
        repeats::<A>(),
        product_added::<A>(prev, x, y, r),
        product_added::<A>(prev, x, y, s),
    ensures
        r == s,
{
}

proof fn lemma_moments_repeat<A: FloatUnit>(points: Seq<(u64, u64)>, m: (u64, u64), k: int, r: Moments, s: Moments)
    requires
        repeats::<A>(),
        moments::<A>(points, m, k, r),
        moments::<A>(points, m, k, s),
    ensures
        r == s,
    decreases k,
{
    if k > 0 {
        let at = points[k - 1];
        let p = choose|prev: Moments| moments::<A>(points, m, k - 1, prev) && #[trigger] moment_added::<A>(prev, points[k - 1], m, r);
        let q = choose|prev: Moments| moments::<A>(points, m, k - 1, prev) && #[trigger] moment_added::<A>(prev, points[k - 1], m, s);
        lemma_moments_repeat::<A>(points, m, k - 1, p, q);
        let (dx, dy) = choose|dx: u64, dy: u64|
            #[trigger] call_ensures(A::minus, (at.0, m.0), dx) && #[trigger] call_ensures(A::minus, (at.1, m.1), dy)
                && product_added::<A>(p.0, dx, dx, r.0) && product_added::<A>(p.1, dx, dy, r.1) && product_added::<A>(
                p.2,
                dy,
                dy,
                r.2,
            );
        let (ex, ey) = choose|dx: u64, dy: u64|
            #[trigger] call_ensures(A::minus, (at.0, m.0), dx) && #[trigger] call_ensures(A::minus, (at.1, m.1), dy)
                && product_added::<A>(p.0, dx, dx, s.0) && product_added::<A>(p.1, dx, dy, s.1) && product_added::<A>(
                p.2,
                dy,
                dy,
                s.2,
            );
        assert(dx == ex && dy == ey);
        lemma_product_repeats::<A>(p.0, dx, dx, r.0, s.0);
        lemma_product_repeats::<A>(p.1, dx, dy, r.1, s.1);
        lemma_product_repeats::<A>(p.2, dy, dy, r.2, s.2);
    }
}

proof fn lemma_line_repeats<A: FloatUnit>(m: (u64, u64), t: Moments, r: Option<Line>, s: Option<Line>)
    requires
        repeats::<A>(),
        line_of::<A>(m, t, r),
        line_of::<A>(m, t, s),
    ensures
        r == s,
{
    if let (Some(a), Some(b)) = (r, s) {
        assert(a.0 == b.0);
        assert(intercept_at::<A>(a.0, m, a.1) && intercept_at::<A>(a.0, m, b.1));
        assert(a.1 == b.1);
        assert(explained::<A>(t, a.2) && explained::<A>(t, b.2));
    }
}

/// The line through the points repeats with the unit.
pub proof fn law_fit_repeats<A: FloatUnit>(points: Seq<(u64, u64)>, r: Option<Line>, s: Option<Line>)
    requires
        repeats::<A>(),
        fitted::<A>(points, r),
        fitted::<A>(points, s),
    ensures
        r == s,
{
    if points.len() >= 2 {
        let n = points.len() as int;
        let (m, t) = choose|m: (u64, u64), t: Moments|
            #[trigger] center::<A>(points, m) && #[trigger] moments::<A>(points, m, points.len() as int, t) && line_of::<A>(
                m,
                t,
                r,
            );
        let (k, u) = choose|m: (u64, u64), t: Moments|
            #[trigger] center::<A>(points, m) && #[trigger] moments::<A>(points, m, points.len() as int, t) && line_of::<A>(
                m,
                t,
                s,
            );
        lemma_center_repeats::<A>(points, m, k);
        lemma_moments_repeat::<A>(points, m, n, t, u);
        lemma_line_repeats::<A>(m, t, r, s);
    }
}

/// The trimmed fit repeats with the unit.
pub proof fn law_trimmed_fit_repeats<A: FloatUnit>(points: Seq<(u64, u64)>, r: Option<(Line, Seq<bool>)>, s: Option<(Line, Seq<bool>)>)
    requires
        repeats::<A>(),
        points.len() <= usize::MAX,
        trimmed::<A>(points, r),
        trimmed::<A>(points, s),
    ensures
        r == s,
{
    let a = choose|first: Option<Line>|
        #[trigger] fitted::<A>(points, first) && match first {
            None => r is None,
            Some(line) => refitted::<A>(points, line, r),
        };
    let b = choose|first: Option<Line>|
        #[trigger] fitted::<A>(points, first) && match first {
            None => s is None,
            Some(line) => refitted::<A>(points, line, s),
        };
    law_fit_repeats::<A>(points, a, b);
    if let Some(line) = a {
        let (p, u, x) = choose|res: Seq<u64>, used: Seq<bool>, second: Option<Line>|
            #[trigger] residuals::<A>(points, line, res) && #[trigger] marks_best(res, used) && #[trigger] fitted::<A>(
                marked(points, used),
                second,
            ) && r == match second {
                None => None,
                Some(l) => Some((l, used)),
            };
        let (q, v, y) = choose|res: Seq<u64>, used: Seq<bool>, second: Option<Line>|
            #[trigger] residuals::<A>(points, line, res) && #[trigger] marks_best(res, used) && #[trigger] fitted::<A>(
                marked(points, used),
                second,
            ) && s == match second {
                None => None,
                Some(l) => Some((l, used)),
            };
        assert(p =~= q) by {
            assert forall|k: int| 0 <= k < points.len() implies p[k] == q[k] by {
                assert(residual::<A>(points[k], line, p[k]) && residual::<A>(points[k], line, q[k]));
            }
        }
        law_kept_points_are_determined(p, u, v);
        law_fit_repeats::<A>(marked(points, u), x, y);
    }
}

/// Whether two estimates are the same but for what they are called.
pub open spec fn same_estimate(a: Estimate, b: Estimate) -> bool {
    &&& (a.tilt_deg, a.cor) == (b.tilt_deg, b.cor)
    &&& (a.slope, a.intercept, a.r2) == (b.slope, b.intercept, b.r2)
    &&& a.rows@ == b.rows@
}

/// Whether two results are the same but for what the estimates are called.
pub open spec fn agree(a: Result<Estimate, String>, b: Result<Estimate, String>) -> bool {
    match (a, b) {
        (Ok(p), Ok(q)) => same_estimate(p, q),
        (Err(p), Err(q)) => p@ == q@,
        _ => false,
    }
}

/// The estimate of the same columns repeats with the unit, whatever it is
/// called.
pub proof fn law_estimate_repeats<A: FloatUnit>(
    one: Seq<char>,
    other: Seq<char>,
    height: usize,
    columns: Seq<(u64, u64)>,
    a: Result<Estimate, String>,
    b: Result<Estimate, String>,
)
    requires
        repeats::<A>(),
        columns.len() <= usize::MAX,
        estimated::<A>(one, height, columns, a),
        estimated::<A>(other, height, columns, b),
    ensures
        agree(a, b),
{
    if columns.len() >= 2 {
        let p = choose|fit: Option<(Line, Seq<bool>)>|
            #[trigger] trimmed::<A>(columns, fit) && match fit {
                None => a matches Err(e) && e@ == "degenerate row range for the axis fit"@,
                Some((line, used)) => a matches Ok(e) && estimate_of::<A>(one, height, columns, line, used, e),
            };
        let q = choose|fit: Option<(Line, Seq<bool>)>|
            #[trigger] trimmed::<A>(columns, fit) && match fit {
                None => b matches Err(e) && e@ == "degenerate row range for the axis fit"@,
                Some((line, used)) => b matches Ok(e) && estimate_of::<A>(other, height, columns, line, used, e),
            };
        law_trimmed_fit_repeats::<A>(columns, p, q);
        if let (Ok(e), Ok(f)) = (a, b) {
            assert(e.slope == f.slope && e.intercept == f.intercept);
            let (m, x) = choose|mid: u64, q: u64|
                #[trigger] middle::<A>(height, mid) && #[trigger] call_ensures(A::times, (e.slope, mid), q) && call_ensures(
                    A::plus,
                    (q, e.intercept),
                    e.cor,
                );
            let (n, y) = choose|mid: u64, q: u64|
                #[trigger] middle::<A>(height, mid) && #[trigger] call_ensures(A::times, (e.slope, mid), q) && call_ensures(
                    A::plus,
                    (q, e.intercept),
                    f.cor,
                );
            lemma_places_repeat::<A>(height, m, n);
            assert(x == y);
            assert(e.rows@ =~= f.rows@);
        }
    }
}

} // verus!
