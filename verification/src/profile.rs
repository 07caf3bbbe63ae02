//! Row-band profiles and the sub-pixel shift that aligns two of them.
//!
//! Profiles are mean/std normalized before matching (beam intensity differs
//! between the two projections) and the shift error only counts the
//! overlapping columns (no wrap-around artifacts).
use crate::ieee;
use crate::ieee::{absolute, below, clamped, raised};
use crate::order;
use crate::order::first_least;
use crate::resample::lemma_pixel_in_plane;
use crate::unit::FloatUnit;
use vstd::prelude::*;

verus! {

/// `acc` is the sum of column `x` over `k` rows from `y0` on, added from the
/// top.
pub open spec fn column_sum<A: FloatUnit>(plane: Seq<u32>, width: usize, y0: int, x: int, k: int, acc: u64) -> bool
    decreases k,
{
    if k <= 0 {
        acc == ieee::ZERO
    } else {
        exists|prev: u64|
            column_sum::<A>(plane, width, y0, x, k - 1, prev) && #[trigger] sample_added::<A>(
                prev,
                plane[(y0 + k - 1) * width + x],
                acc,
            )
    }
}

/// `acc` is `prev` plus the sample `p`.
pub open spec fn sample_added<A: FloatUnit>(prev: u64, p: u32, acc: u64) -> bool {
    exists|v: u64| #[trigger] call_ensures(A::widen, (p,), v) && call_ensures(A::plus, (prev, v), acc)
}

/// `s` is the sum of the first `k` values, added from the left.
pub open spec fn sum<A: FloatUnit>(values: Seq<u64>, k: int, s: u64) -> bool
    decreases k,
{
    if k <= 0 {
        s == ieee::NEG_ZERO
    } else {
        exists|prev: u64| sum::<A>(values, k - 1, prev) && #[trigger] call_ensures(A::plus, (prev, values[k - 1]), s)
    }
}

/// `mean` is the mean of the values.
pub open spec fn mean_of<A: FloatUnit>(values: Seq<u64>, mean: u64) -> bool {
    exists|s: u64, n: u64|
        #[trigger] sum::<A>(values, values.len() as int, s) && #[trigger] call_ensures(A::count, (values.len() as usize,), n)
            && call_ensures(A::over, (s, n), mean)
}

/// `q` is the squared distance of `v` from `mean`.
pub open spec fn squared_distance<A: FloatUnit>(v: u64, mean: u64, q: u64) -> bool {
    exists|d: u64| #[trigger] call_ensures(A::minus, (v, mean), d) && call_ensures(A::square, (d,), q)
}

/// `squares` are the squared distances of the values from `mean`.
pub open spec fn squared_distances<A: FloatUnit>(values: Seq<u64>, mean: u64, squares: Seq<u64>) -> bool {
    &&& squares.len() == values.len()
    &&& forall|x: int| 0 <= x < values.len() ==> squared_distance::<A>(values[x], mean, #[trigger] squares[x])
}

/// `std` is the standard deviation of the values, kept off zero.
pub open spec fn deviation<A: FloatUnit>(values: Seq<u64>, mean: u64, std: u64) -> bool {
    exists|squares: Seq<u64>, var: u64, root: u64|
        #[trigger] squared_distances::<A>(values, mean, squares) && #[trigger] mean_of::<A>(squares, var)
            && #[trigger] call_ensures(A::root, (var,), root) && std == raised(root, ieee::TINY)
}

/// `r` is `v` in units of `std` from `mean`.
pub open spec fn standardized<A: FloatUnit>(v: u64, mean: u64, std: u64, r: u64) -> bool {
    exists|d: u64| #[trigger] call_ensures(A::minus, (v, mean), d) && call_ensures(A::over, (d, std), r)
}

/// `sums` are the column sums of `band` rows from `y0` on.
pub open spec fn column_sums<A: FloatUnit>(plane: Seq<u32>, width: usize, y0: int, band: int, sums: Seq<u64>) -> bool {
    &&& sums.len() == width
    &&& forall|x: int| 0 <= x < width ==> column_sum::<A>(plane, width, y0, x, band, #[trigger] sums[x])
}

/// `out` is the mean/std-normalized sum of `band` rows starting at `y0`.
pub open spec fn normalized_profile<A: FloatUnit>(plane: Seq<u32>, width: usize, y0: int, band: int, out: Seq<u64>) -> bool {
    exists|sums: Seq<u64>, mean: u64, std: u64|
        #[trigger] column_sums::<A>(plane, width, y0, band, sums) && #[trigger] mean_of::<A>(sums, mean)
            && #[trigger] deviation::<A>(sums, mean, std) && out.len() == width && (forall|x: int|
            0 <= x < width ==> standardized::<A>(sums[x], mean, std, #[trigger] out[x]))
}

fn add_sample<A: FloatUnit>(prev: u64, p: u32) -> (acc: u64)
    ensures
        sample_added::<A>(prev, p, acc),
{
    let v: u64 = A::widen(p);
    A::plus(prev, v)
}

/// The sum of the values, added from the left.
pub fn sum_of<A: FloatUnit>(values: &Vec<u64>) -> (s: u64)
    ensures
        sum::<A>(values@, values@.len() as int, s),
{
    let mut s: u64 = ieee::NEG_ZERO;
    let mut k: usize = 0;
    while k < values.len()
        invariant
            k <= values@.len(),
            sum::<A>(values@, k as int, s),
        decreases values@.len() - k,
    {
        let next: u64 = A::plus(s, values[k]);
        assert(call_ensures(A::plus, (s, values@[k + 1 - 1]), next));
        s = next;
        k = k + 1;
    }
    s
}

fn mean<A: FloatUnit>(values: &Vec<u64>) -> (m: u64)
    ensures
        mean_of::<A>(values@, m),
{
    let s: u64 = sum_of::<A>(values);
    let n: u64 = A::count(values.len());
    assert(call_ensures(A::count, (values@.len() as usize,), n));
    A::over(s, n)
}

fn standard_deviation<A: FloatUnit>(values: &Vec<u64>, mean_value: u64) -> (std: u64)
    ensures
        deviation::<A>(values@, mean_value, std),
{
    let mut squares: Vec<u64> = Vec::new();
    let mut x: usize = 0;
    while x < values.len()
        invariant
            x <= values@.len(),
            squares@.len() == x,
            forall|j: int| 0 <= j < x ==> squared_distance::<A>(values@[j], mean_value, #[trigger] squares@[j]),
        decreases values@.len() - x,
    {
        let d: u64 = A::minus(values[x], mean_value);
        let q: u64 = A::square(d);
        squares.push(q);
        assert(squared_distance::<A>(values@[x as int], mean_value, q));
        x = x + 1;
    }
    assert(squared_distances::<A>(values@, mean_value, squares@));
    let var: u64 = mean::<A>(&squares);
    let root: u64 = A::root(var);
    ieee::raise(root, ieee::TINY)
}

fn sum_columns<A: FloatUnit>(plane: &[u32], width: usize, y0: usize, band: usize) -> (sums: Vec<u64>)
    requires
        (y0 + band) * width <= plane@.len(),
        y0 + band <= usize::MAX,
    ensures
        column_sums::<A>(plane@, width, y0 as int, band as int, sums@),
{
    let len: usize = plane.len();
    let mut sums: Vec<u64> = vec![ieee::ZERO; width];
    let mut k: usize = 0;
    while k < band
        invariant
            len == plane@.len(),
            (y0 + band) * width <= len,
            y0 + band <= usize::MAX,
            k <= band,
            sums@.len() == width,
            forall|x: int| 0 <= x < width ==> column_sum::<A>(plane@, width, y0 as int, x, k as int, #[trigger] sums@[x]),
        decreases band - k,
    {
        let mut x: usize = 0;
        while x < width
            invariant
                len == plane@.len(),
                (y0 + band) * width <= len,
                y0 + band <= usize::MAX,
                k < band,
                x <= width,
                sums@.len() == width,
                forall|j: int|
                    0 <= j < x ==> column_sum::<A>(plane@, width, y0 as int, j, k + 1, #[trigger] sums@[j]),
                forall|j: int|
                    x <= j < width ==> column_sum::<A>(plane@, width, y0 as int, j, k as int, #[trigger] sums@[j]),
            decreases width - x,
        {
            proof {
                lemma_pixel_in_plane(width as int, y0 + band, x as int, y0 + k);
            }
            let prev: u64 = sums[x];
            let acc: u64 = add_sample::<A>(prev, plane[(y0 + k) * width + x]);
            assert(column_sum::<A>(plane@, width, y0 as int, x as int, k as int, prev));
            assert(y0 + k == y0 + (k + 1) - 1);
            assert(sample_added::<A>(prev, plane@[(y0 + (k + 1) - 1) * width + x], acc));
            assert(column_sum::<A>(plane@, width, y0 as int, x as int, k + 1, acc));
            sums[x] = acc;
            x = x + 1;
        }
        k = k + 1;
    }
    sums
}

/// Mean/std-normalized sum of `band` rows starting at `y0`.
pub fn band_profile<A: FloatUnit>(plane: &[u32], width: usize, y0: usize, band: usize) -> (out: Vec<u64>)
    requires
        (y0 + band) * width <= plane@.len(),
        y0 + band <= usize::MAX,
    ensures
        normalized_profile::<A>(plane@, width, y0 as int, band as int, out@),
        out@.len() == width,
{
    let sums: Vec<u64> = sum_columns::<A>(plane, width, y0, band);
    let m: u64 = mean::<A>(&sums);
    let std: u64 = standard_deviation::<A>(&sums, m);
    let mut out: Vec<u64> = Vec::new();
    let mut x: usize = 0;
    while x < width
        invariant
            sums@.len() == width,
            x <= width,
            out@.len() == x,
            forall|j: int| 0 <= j < x ==> standardized::<A>(sums@[j], m, std, #[trigger] out@[j]),
        decreases width - x,
    {
        let d: u64 = A::minus(sums[x], m);
        let r: u64 = A::over(d, std);
        out.push(r);
        assert(standardized::<A>(sums@[x as int], m, std, r));
        x = x + 1;
    }
    out
}

/// The first column of `a` that a shift by `s` leaves with a partner.
pub open spec fn overlap_from(s: int) -> int {
    if s < 0 {
        -s
    } else {
        0
    }
}

/// The end of the columns of `a` that a shift by `s` leaves with a partner.
pub open spec fn overlap_to(w: int, s: int) -> int {
    if s > 0 {
        w - s
    } else {
        w
    }
}

/// `acc` is the sum of the squared differences of the first `k` overlapping
/// columns.
pub open spec fn difference_sum<A: FloatUnit>(a: Seq<u64>, f: Seq<u64>, s: int, k: int, acc: u64) -> bool
    decreases k,
{
    if k <= 0 {
        acc == ieee::ZERO
    } else {
        exists|prev: u64|
            difference_sum::<A>(a, f, s, k - 1, prev) && #[trigger] difference_added::<A>(
                prev,
                a[overlap_from(s) + k - 1],
                f[overlap_from(s) + k - 1 + s],
                acc,
            )
    }
}

/// `acc` is `prev` plus the square of `x - y`.
pub open spec fn difference_added<A: FloatUnit>(prev: u64, x: u64, y: u64, acc: u64) -> bool {
    exists|d: u64, q: u64|
        #[trigger] call_ensures(A::minus, (x, y), d) && #[trigger] call_ensures(A::times, (d, d), q) && call_ensures(
            A::plus,
            (prev, q),
            acc,
        )
}

/// The number of columns that a shift by `s` leaves with a partner, at least
/// one.
pub open spec fn overlap_count(w: int, s: int) -> int {
    if overlap_to(w, s) - overlap_from(s) > 1 {
        overlap_to(w, s) - overlap_from(s)
    } else {
        1
    }
}

/// `e` is the mean squared difference between `a` and `f` shifted by `s`, over
/// the overlapping columns only.
pub open spec fn matching_error<A: FloatUnit>(a: Seq<u64>, f: Seq<u64>, s: int, e: u64) -> bool {
    exists|total: u64, n: u64|
        #[trigger] difference_sum::<A>(a, f, s, overlap_to(a.len() as int, s) - overlap_from(s), total)
            && #[trigger] call_ensures(A::offset, (overlap_count(a.len() as int, s) as isize,), n) && call_ensures(
            A::over,
            (total, n),
            e,
        )
}

fn add_difference<A: FloatUnit>(prev: u64, x: u64, y: u64) -> (acc: u64)
    ensures
        difference_added::<A>(prev, x, y, acc),
{
    let d: u64 = A::minus(x, y);
    let q: u64 = A::times(d, d);
    A::plus(prev, q)
}

/// Mean squared difference between `a` and `f` shifted by `s`, over the
/// overlapping columns only.
pub fn shift_error<A: FloatUnit>(a: &Vec<u64>, f: &Vec<u64>, s: isize) -> (e: u64)
    requires
        a@.len() == f@.len(),
        a@.len() <= isize::MAX / 4,
        -(isize::MAX / 2) <= s <= isize::MAX / 2,
    ensures
        matching_error::<A>(a@, f@, s as int, e),
{
    let w: isize = a.len() as isize;
    let from: isize = if s < 0 {
        -s
    } else {
        0
    };
    let to: isize = if s > 0 {
        w - s
    } else {
        w
    };
    let count: isize = if to - from > 1 {
        to - from
    } else {
        1
    };
    let mut total: u64 = ieee::ZERO;
    let mut x: isize = from;
    if x < to {
        while x < to
            invariant
                w == a@.len(),
                a@.len() == f@.len(),
                a@.len() <= isize::MAX / 4,
                -(isize::MAX / 2) <= s <= isize::MAX / 2,
                0 <= from == overlap_from(s as int),
                to == overlap_to(w as int, s as int),
                from <= x <= to,
                difference_sum::<A>(a@, f@, s as int, x - from, total),
            decreases to - x,
        {
            let next: u64 = add_difference::<A>(total, a[x as usize], f[(x + s) as usize]);
            assert(overlap_from(s as int) + (x + 1 - from) - 1 == x);
            assert(difference_added::<A>(
                total,
                a@[overlap_from(s as int) + (x + 1 - from) - 1],
                f@[overlap_from(s as int) + (x + 1 - from) - 1 + s],
                next,
            ));
            total = next;
            x = x + 1;
        }
    }
    let n: u64 = A::offset(count);
    proof {
        assert(difference_sum::<A>(a@, f@, s as int, overlap_to(a@.len() as int, s as int) - overlap_from(s as int), total));
        assert(call_ensures(A::offset, (overlap_count(a@.len() as int, s as int) as isize,), n));
    }
    A::over(total, n)
}

/// The largest shift searched: `max_shift`, but always leaving two columns to
/// compare where there are three or more; with fewer, no more than one.
pub open spec fn search_radius(w: int, max_shift: usize) -> int {
    let most = if w > 3 {
        w - 2
    } else {
        1
    };
    if max_shift < most {
        max_shift as int
    } else {
        most
    }
}

/// The largest shift searched.
pub fn radius(w: usize, max_shift: usize) -> (m: usize)
    ensures
        m == search_radius(w as int, max_shift),
        m <= w || m <= 1,
{
    let most: usize = if w > 3 {
        w - 2
    } else {
        1
    };
    if max_shift < most {
        max_shift
    } else {
        most
    }
}

/// No shift beyond `max_shift` is searched, and every one searched leaves two
/// columns to compare where there are three or more.
pub proof fn law_search_stays_in_range(w: int, max_shift: usize, s: int)
    requires
        w >= 0,
        -search_radius(w, max_shift) <= s <= search_radius(w, max_shift),
    ensures
        -max_shift <= s <= max_shift,
        w >= 3 ==> overlap_to(w, s) - overlap_from(s) >= 2,
{
}

/// `delta` is the offset, at most one pixel, of the vertex of the parabola
/// through three neighbouring errors.
pub open spec fn vertex_offset<A: FloatUnit>(e0: u64, e1: u64, e2: u64, delta: u64) -> bool {
    exists|twice: u64, d: u64, denom: u64|
        #[trigger] call_ensures(A::times, (ieee::TWO, e1), twice) && #[trigger] call_ensures(A::minus, (e0, twice), d)
            && #[trigger] call_ensures(A::plus, (d, e2), denom) && if below(ieee::TINY, absolute(denom)) {
            vertex_quotient::<A>(e0, e2, denom, delta)
        } else {
            delta == ieee::ZERO
        }
}

/// `delta` is half the difference of the outer errors over the curvature, kept
/// within one pixel.
pub open spec fn vertex_quotient<A: FloatUnit>(e0: u64, e2: u64, denom: u64, delta: u64) -> bool {
    exists|g: u64, half: u64, q: u64|
        #[trigger] call_ensures(A::minus, (e0, e2), g) && #[trigger] call_ensures(A::times, (ieee::HALF, g), half)
            && #[trigger] call_ensures(A::over, (half, denom), q) && delta == clamped(q, ieee::NEG_ONE, ieee::ONE)
}

/// `r` is the sub-pixel shift of the least of the errors of the shifts
/// `-m..=m`: the first least one, refined with the parabola through it and its
/// neighbors where it has two.
pub open spec fn refined_shift<A: FloatUnit>(errors: Seq<u64>, m: int, r: u64) -> bool {
    exists|k: int, s: u64|
        #[trigger] first_least(errors, k) && #[trigger] call_ensures(A::offset, ((k - m) as isize,), s) && if k == 0 || k
            == errors.len() - 1 {
            r == s
        } else {
            shifted_by_vertex::<A>(s, errors[k - 1], errors[k], errors[k + 1], r)
        }
}

/// `r` is `s` moved to the vertex of the parabola.
pub open spec fn shifted_by_vertex<A: FloatUnit>(s: u64, e0: u64, e1: u64, e2: u64, r: u64) -> bool {
    exists|delta: u64| #[trigger] vertex_offset::<A>(e0, e1, e2, delta) && call_ensures(A::plus, (s, delta), r)
}

fn vertex<A: FloatUnit>(e0: u64, e1: u64, e2: u64) -> (delta: u64)
    ensures
        vertex_offset::<A>(e0, e1, e2, delta),
{
    let twice: u64 = A::times(ieee::TWO, e1);
    let d: u64 = A::minus(e0, twice);
    let denom: u64 = A::plus(d, e2);
    if ieee::less(ieee::TINY, ieee::abs(denom)) {
        let g: u64 = A::minus(e0, e2);
        let half: u64 = A::times(ieee::HALF, g);
        let q: u64 = A::over(half, denom);
        let delta: u64 = ieee::clamp(q, ieee::NEG_ONE, ieee::ONE);
        assert(vertex_quotient::<A>(e0, e2, denom, delta));
        delta
    } else {
        ieee::ZERO
    }
}

/// The sub-pixel shift of the least of the errors of the shifts `-m..=m`.
pub fn refine_shift<A: FloatUnit>(errors: &Vec<u64>, m: usize) -> (r: u64)
    requires
        m <= isize::MAX / 2,
        errors@.len() == 2 * m + 1,
    ensures
        refined_shift::<A>(errors@, m as int, r),
{
    let k: usize = match order::least_index(errors) {
        Some(k) => k,
        None => 0,
    };
    let s: u64 = A::offset(k as isize - m as isize);
    assert(call_ensures(A::offset, ((k - m) as isize,), s));
    if k == 0 || k == errors.len() - 1 {
        return s;
    }
    let delta: u64 = vertex::<A>(errors[k - 1], errors[k], errors[k + 1]);
    let r: u64 = A::plus(s, delta);
    assert(shifted_by_vertex::<A>(s, errors@[k - 1], errors@[k as int], errors@[k + 1], r));
    r
}

/// `errors` are the matching errors of the shifts `-m..=m`.
pub open spec fn error_curve<A: FloatUnit>(a: Seq<u64>, f: Seq<u64>, m: int, errors: Seq<u64>) -> bool {
    &&& errors.len() == 2 * m + 1
    &&& forall|k: int| 0 <= k <= 2 * m ==> matching_error::<A>(a, f, k - m, #[trigger] errors[k])
}

/// Whether the search range of profiles of `w` columns is degenerate: none of
/// its shifts leaves a column to compare.
pub open spec fn degenerate(w: int, max_shift: usize) -> bool {
    let m = search_radius(w, max_shift);
    forall|s: int| -m <= s <= m ==> #[trigger] overlap_to(w, s) <= overlap_from(s)
}

/// The search range is degenerate for empty profiles, and for no others: a
/// shift by nothing compares every column.
pub proof fn law_only_empty_profiles_are_degenerate(w: int, max_shift: usize)
    requires
        w >= 0,
    ensures
        degenerate(w, max_shift) <==> w == 0,
{
    assert(overlap_to(w, 0) == w && overlap_from(0) == 0);
}

/// `r` is the sub-pixel shift minimizing the error of `a` against `f`.
pub open spec fn aligning_shift<A: FloatUnit>(a: Seq<u64>, f: Seq<u64>, max_shift: usize, r: u64) -> bool {
    let m = search_radius(a.len() as int, max_shift);
    exists|errors: Seq<u64>| #[trigger] error_curve::<A>(a, f, m, errors) && refined_shift::<A>(errors, m, r)
}

/// The sub-pixel shift minimizing the error of `a` against `f`, searched in
/// `[-max_shift, +max_shift]`, refined with a parabola through the minimum
/// and its neighbors. `None` when the search range is degenerate: when no shift
/// leaves a column to compare, as with empty profiles.
pub fn best_shift<A: FloatUnit>(a: &Vec<u64>, f: &Vec<u64>, max_shift: usize) -> (r: Option<u64>)
    requires
        a@.len() == f@.len(),
        a@.len() <= isize::MAX / 4,
    ensures
        r is None <==> degenerate(a@.len() as int, max_shift),
        r matches Some(s) ==> aligning_shift::<A>(a@, f@, max_shift, s),
{
    proof {
        law_only_empty_profiles_are_degenerate(a@.len() as int, max_shift);
    }
    if a.len() == 0 {
        return None;
    }
    let m: usize = radius(a.len(), max_shift);
    let mut errors: Vec<u64> = Vec::new();
    let mut k: usize = 0;
    while k <= 2 * m
        invariant
            a@.len() == f@.len(),
            a@.len() <= isize::MAX / 4,
            m <= isize::MAX / 4,
            k <= 2 * m + 1,
            errors@.len() == k,
            forall|j: int| 0 <= j < k ==> matching_error::<A>(a@, f@, j - m, #[trigger] errors@[j]),
        decreases 2 * m + 1 - k,
    {
        let e: u64 = shift_error::<A>(a, f, k as isize - m as isize);
        errors.push(e);
        k = k + 1;
    }
    assert(error_curve::<A>(a@, f@, m as int, errors@));
    Some(refine_shift::<A>(&errors, m))
}

} // verus!
