//! What the estimators compute, in values: with a unit that rounds only where
//! it has to, and where the exact results are doubles, they are what comes out.
//!
//! The values are whole multiples of the smallest positive double, [`unity`] of
//! which are one.
use crate::fit_laws::unity;
use crate::ieee;
use crate::ieee::{
    below, divides, finite, finite32, law_rank_orders_the_values, lemma_scaled_constants, not_negative, representable, scaled,
    scaled32, total_place,
};
use crate::profile;
use crate::order::first_least;
use crate::profile::{
    aligning_shift, column_sum, column_sums, deviation, difference_added, difference_sum, error_curve,
    law_only_empty_profiles_are_degenerate, matching_error, mean_of, normalized_profile, overlap_count, overlap_from, overlap_to,
    refined_shift, sample_added, search_radius, shifted_by_vertex, squared_distance, squared_distances, standardized, sum,
    vertex_offset, vertex_quotient,
};
use crate::recovery_laws::law_shift_error_is_not_negative;
use crate::unit::{keeps_signs, rounds_only_if_needed, FloatUnit};
use vstd::prelude::*;

verus! {

/// The sum of the values.
pub open spec fn total(values: Seq<int>) -> int
    decreases values.len(),
{
    if values.len() == 0 {
        0
    } else {
        total(values.drop_last()) + values.last()
    }
}

/// Whether the values and all their partial sums are doubles.
pub open spec fn adds_up(values: Seq<int>) -> bool {
    &&& forall|k: int| 0 <= k < values.len() ==> representable(#[trigger] values[k])
    &&& forall|k: int| 0 <= k <= values.len() ==> representable(#[trigger] total(values.take(k)))
}

/// The samples of column `x` in the rows from `y0` on, as many as `band`.
pub open spec fn column_samples(plane: Seq<u32>, width: int, y0: int, band: int, x: int) -> Seq<int> {
    Seq::new(band as nat, |r: int| scaled32(plane[(y0 + r) * width + x]))
}

/// The sum of every column over the rows from `y0` on, as many as `band`.
pub open spec fn row_totals(plane: Seq<u32>, width: int, y0: int, band: int) -> Seq<int> {
    Seq::new(width as nat, |x: int| total(column_samples(plane, width, y0, band, x)))
}

/// Whether the samples of a band are finite and their sums over the rows are
/// doubles.
pub open spec fn rows_add_up(plane: Seq<u32>, width: int, y0: int, band: int) -> bool {
    &&& forall|x: int, r: int| 0 <= x < width && 0 <= r < band ==> finite32(#[trigger] plane[(y0 + r) * width + x])
    &&& forall|x: int| 0 <= x < width ==> adds_up(#[trigger] column_samples(plane, width, y0, band, x))
}

/// Whether the values of doubles are `values`.
pub open spec fn have_values(bits: Seq<u64>, values: Seq<int>) -> bool {
    &&& bits.len() == values.len()
    &&& forall|k: int| 0 <= k < bits.len() ==> finite(#[trigger] bits[k]) && scaled(bits[k]) == values[k]
}

pub proof fn lemma_take_total(values: Seq<int>, k: int)
    requires
        0 <= k < values.len(),
    ensures
        total(values.take(k + 1)) == total(values.take(k)) + values[k],
{
    assert(values.take(k + 1).drop_last() =~= values.take(k));
}

proof fn lemma_column_sum_value<A: FloatUnit>(plane: Seq<u32>, width: usize, y0: int, band: int, x: int, k: int, acc: u64)
    requires
        rounds_only_if_needed::<A>(),
        rows_add_up(plane, width as int, y0, band),
        0 <= x < width,
        0 <= k <= band,
        column_sum::<A>(plane, width, y0, x, k, acc),
    ensures
        finite(acc),
        scaled(acc) == total(column_samples(plane, width as int, y0, band, x).take(k)),
    decreases k,
{
    lemma_scaled_constants();
    let list = column_samples(plane, width as int, y0, band, x);
    assert(adds_up(list));
    if k > 0 {
        let prev = choose|prev: u64|
            column_sum::<A>(plane, width, y0, x, k - 1, prev) && #[trigger] sample_added::<A>(
                prev,
                plane[(y0 + k - 1) * width + x],
                acc,
            );
        lemma_column_sum_value::<A>(plane, width, y0, band, x, k - 1, prev);
        let p = plane[(y0 + (k - 1)) * width + x];
        assert(finite32(p));
        assert(y0 + (k - 1) == y0 + k - 1);
        let v = choose|v: u64| #[trigger] call_ensures(A::widen, (p,), v) && call_ensures(A::plus, (prev, v), acc);
        lemma_take_total(list, k - 1);
        assert(list[k - 1] == scaled32(p));
        assert(representable(total(list.take(k))));
    }
}

/// Every row of a band counts: what a profile is made of are the sums of the
/// columns over all the rows of the band.
pub proof fn law_every_row_of_the_band_counts<A: FloatUnit>(plane: Seq<u32>, width: usize, y0: int, band: int, sums: Seq<u64>)
    requires
        rounds_only_if_needed::<A>(),
        band >= 0,
        rows_add_up(plane, width as int, y0, band),
        column_sums::<A>(plane, width, y0, band, sums),
    ensures
        have_values(sums, row_totals(plane, width as int, y0, band)),
{
    assert forall|x: int| 0 <= x < width implies finite(#[trigger] sums[x]) && scaled(sums[x]) == row_totals(
        plane,
        width as int,
        y0,
        band,
    )[x] by {
        let list = column_samples(plane, width as int, y0, band, x);
        lemma_column_sum_value::<A>(plane, width, y0, band, x, band, sums[x]);
        assert(list.take(band) =~= list);
    }
}

proof fn lemma_total_of_a_change(a: Seq<int>, b: Seq<int>, at: int)
    requires
        a.len() == b.len(),
        0 <= at < a.len(),
        forall|k: int| 0 <= k < a.len() && k != at ==> a[k] == b[k],
    ensures
        total(b) - total(a) == b[at] - a[at],
    decreases a.len(),
{
    if at == a.len() - 1 {
        assert(a.drop_last() =~= b.drop_last());
    } else {
        lemma_total_of_a_change(a.drop_last(), b.drop_last(), at);
    }
}

/// A change of one sample of any row of the band changes the sum of its column
/// by the same amount.
pub proof fn law_a_sample_changes_its_column<A: FloatUnit>(
    p: Seq<u32>,
    q: Seq<u32>,
    width: usize,
    y0: int,
    band: int,
    row: int,
    x: int,
    before: Seq<u64>,
    after: Seq<u64>,
)
    requires
        rounds_only_if_needed::<A>(),
        rows_add_up(p, width as int, y0, band),
        rows_add_up(q, width as int, y0, band),
        0 <= row < band,
        0 <= x < width,
        forall|r: int, c: int|
            0 <= r < band && 0 <= c < width && (r, c) != (row, x) ==> #[trigger] p[(y0 + r) * width + c] == q[(y0 + r) * width + c],
        column_sums::<A>(p, width, y0, band, before),
        column_sums::<A>(q, width, y0, band, after),
    ensures
        scaled(after[x]) - scaled(before[x]) == scaled32(q[(y0 + row) * width + x]) - scaled32(p[(y0 + row) * width + x]),
        forall|c: int| 0 <= c < width && c != x ==> scaled(#[trigger] after[c]) == scaled(before[c]),
{
    law_every_row_of_the_band_counts::<A>(p, width, y0, band, before);
    law_every_row_of_the_band_counts::<A>(q, width, y0, band, after);
    let w = width as int;
    assert(finite(before[x]) && finite(after[x]));
    lemma_total_of_a_change(column_samples(p, w, y0, band, x), column_samples(q, w, y0, band, x), row);
    assert forall|c: int| 0 <= c < width && c != x implies scaled(#[trigger] after[c]) == scaled(before[c]) by {
        assert(finite(before[c]) && finite(after[c]));
        assert(column_samples(p, w, y0, band, c) =~= column_samples(q, w, y0, band, c));
    }
}

/// The squares of the distances of the values from `m`.
pub open spec fn squares_about(values: Seq<int>, m: int) -> Seq<int> {
    Seq::new(values.len(), |x: int| (values[x] - m) * (values[x] - m) / unity())
}

/// The mean of the values.
pub open spec fn mean(values: Seq<int>) -> int {
    total(values) / values.len() as int
}

/// Whether the mean of the values is a double, and what it is made of.
pub open spec fn averages(values: Seq<int>) -> bool {
    &&& values.len() > 0
    &&& adds_up(values)
    &&& representable(values.len() * unity())
    &&& divides(total(values), values.len() as int)
}

/// The values of a profile: the distances of the column sums from their mean,
/// in units of their deviation `s`.
pub open spec fn profile_values(sums: Seq<int>, s: int) -> Seq<int> {
    Seq::new(sums.len(), |x: int| (sums[x] - mean(sums)) * unity() / s)
}

/// Whether `d` is the standard deviation of the values about their mean, in
/// terms of the squares of their distances from it.
pub open spec fn is_deviation(squares: Seq<int>, d: int) -> bool {
    d >= 0 && representable(d) && d * d == mean(squares) * unity()
}

/// Whether `s` is the standard deviation of the values, or the tiny number that
/// stands for one that is no larger, and it and the profile are made of doubles.
pub open spec fn normalizes(sums: Seq<int>, s: int) -> bool {
    let m = mean(sums);
    let squares = squares_about(sums, m);
    &&& averages(sums)
    &&& forall|x: int|
        0 <= x < sums.len() ==> representable((#[trigger] sums[x]) - m) && divides((sums[x] - m) * (sums[x] - m), unity())
            && divides((sums[x] - m) * unity(), s)
    &&& averages(squares)
    &&& exists|d: int| #[trigger]
        is_deviation(squares, d) && s == if d > scaled(ieee::TINY) {
            d
        } else {
            scaled(ieee::TINY)
        }
}

pub proof fn lemma_sum_value<A: FloatUnit>(bits: Seq<u64>, values: Seq<int>, k: int, s: u64)
    requires
        rounds_only_if_needed::<A>(),
        have_values(bits, values),
        adds_up(values),
        0 <= k <= values.len(),
        sum::<A>(bits, k, s),
    ensures
        finite(s),
        scaled(s) == total(values.take(k)),
    decreases k,
{
    lemma_scaled_constants();
    if k > 0 {
        let prev = choose|prev: u64| sum::<A>(bits, k - 1, prev) && #[trigger] call_ensures(A::plus, (prev, bits[k - 1]), s);
        lemma_sum_value::<A>(bits, values, k - 1, prev);
        lemma_take_total(values, k - 1);
        assert(finite(bits[k - 1]));
        assert(representable(total(values.take(k))));
    }
}

proof fn lemma_mean_value<A: FloatUnit>(bits: Seq<u64>, values: Seq<int>, m: u64)
    requires
        rounds_only_if_needed::<A>(),
        have_values(bits, values),
        averages(values),
        values.len() <= usize::MAX,
        mean_of::<A>(bits, m),
    ensures
        finite(m),
        scaled(m) == mean(values),
{
    lemma_scaled_constants();
    let len = values.len() as int;
    let (s, n) = choose|s: u64, n: u64|
        #[trigger] sum::<A>(bits, bits.len() as int, s) && #[trigger] call_ensures(A::count, (bits.len() as usize,), n)
            && call_ensures(A::over, (s, n), m);
    lemma_sum_value::<A>(bits, values, len, s);
    assert(values.take(len) =~= values);
    assert(scaled(n) == len * unity());
    lemma_common_factor(total(values), len, unity());
}

/// A quotient does not change when both sides are multiplied.
pub proof fn lemma_common_factor(a: int, b: int, u: int)
    requires
        b > 0,
        u > 0,
        a % b == 0,
    ensures
        (a * u) % (b * u) == 0,
        (a * u) / (b * u) == a / b,
        b * u > 0,
{
    let q = a / b;
    vstd::arithmetic::div_mod::lemma_fundamental_div_mod(a, b);
    assert(a * u == (b * u) * q && b * u > 0) by (nonlinear_arith)
        requires
            a == b * q,
            b > 0,
            u > 0,
    ;
    vstd::arithmetic::div_mod::lemma_fundamental_div_mod_converse(a * u, b * u, q, 0);
}

/// The values of a profile are those of the sums of the columns over the rows
/// of the band, less their mean and in units of their deviation.
pub proof fn law_profile_values<A: FloatUnit>(plane: &[u32], width: usize, y0: usize, band: usize, s: int, out: Vec<u64>)
    requires
        rounds_only_if_needed::<A>(),
        rows_add_up(plane@, width as int, y0 as int, band as int),
        normalizes(row_totals(plane@, width as int, y0 as int, band as int), s),
        call_ensures(profile::band_profile::<A>, (plane, width, y0, band), out),
    ensures
        have_values(out@, profile_values(row_totals(plane@, width as int, y0 as int, band as int), s)),
{
    lemma_profile_values::<A>(plane@, width, y0 as int, band as int, s, out@);
}

pub proof fn lemma_profile_values<A: FloatUnit>(plane: Seq<u32>, width: usize, y0: int, band: int, s: int, out: Seq<u64>)
    requires
        rounds_only_if_needed::<A>(),
        band >= 0,
        rows_add_up(plane, width as int, y0, band),
        normalizes(row_totals(plane, width as int, y0, band), s),
        normalized_profile::<A>(plane, width, y0, band, out),
    ensures
        have_values(out, profile_values(row_totals(plane, width as int, y0, band), s)),
{
    lemma_scaled_constants();
    let values = row_totals(plane, width as int, y0, band);
    let m = mean(values);
    let (sums, mean_bits, std) = choose|sums: Seq<u64>, mean: u64, std: u64|
        #[trigger] column_sums::<A>(plane, width, y0, band, sums) && #[trigger] mean_of::<A>(sums, mean)
            && #[trigger] deviation::<A>(sums, mean, std) && out.len() == width && (forall|x: int|
            0 <= x < width ==> standardized::<A>(sums[x], mean, std, #[trigger] out[x]));
    law_every_row_of_the_band_counts::<A>(plane, width, y0, band, sums);
    lemma_mean_value::<A>(sums, values, mean_bits);
    let (squares, var, root) = choose|squares: Seq<u64>, var: u64, root: u64|
        #[trigger] squared_distances::<A>(sums, mean_bits, squares) && #[trigger] mean_of::<A>(squares, var)
            && #[trigger] call_ensures(A::root, (var,), root) && std == ieee::raised(root, ieee::TINY);
    let exact = squares_about(values, m);
    assert(have_values(squares, exact)) by {
        assert forall|x: int| 0 <= x < squares.len() implies finite(#[trigger] squares[x]) && scaled(squares[x]) == exact[x] by {
            assert(squared_distance::<A>(sums[x], mean_bits, squares[x]));
            let d = choose|d: u64| #[trigger] call_ensures(A::minus, (sums[x], mean_bits), d) && call_ensures(A::square, (d,), squares[x]);
            assert(finite(sums[x]) && scaled(sums[x]) == values[x]);
            assert(representable(values[x] - m));
        }
    }
    lemma_mean_value::<A>(squares, exact, var);
    let e = choose|d: int| #[trigger]
        is_deviation(exact, d) && s == if d > scaled(ieee::TINY) {
            d
        } else {
            scaled(ieee::TINY)
        };
    assert(representable(e));
    assert(finite(root) && scaled(root) == e);
    law_rank_orders_the_values(root, ieee::TINY);
    assert(finite(ieee::TINY));
    assert(finite(std) && scaled(std) == s);
    let result = profile_values(values, s);
    assert forall|x: int| 0 <= x < out.len() implies finite(#[trigger] out[x]) && scaled(out[x]) == result[x] by {
        assert(standardized::<A>(sums[x], mean_bits, std, out[x]));
        let d = choose|d: u64| #[trigger] call_ensures(A::minus, (sums[x], mean_bits), d) && call_ensures(A::over, (d, std), out[x]);
        assert(finite(sums[x]) && scaled(sums[x]) == values[x]);
        assert(representable(values[x] - m));
    }
}

/// Whether column `x` of `w` has a partner when it is shifted by `s`.
pub open spec fn has_partner(w: int, x: int, s: int) -> bool {
    0 <= x < w && 0 <= x + s < w
}

/// The squared differences of the columns that have a partner; zero for those
/// that have none.
pub open spec fn partner_squares(p: Seq<int>, f: Seq<int>, s: int) -> Seq<int> {
    Seq::new(
        p.len(),
        |x: int|
            if has_partner(p.len() as int, x, s) {
                (p[x] - f[x + s]) * (p[x] - f[x + s]) / unity()
            } else {
                0
            },
    )
}

/// How many of `w` columns have a partner when they are shifted by `s`, at
/// least one.
pub open spec fn partners(w: int, s: int) -> int {
    let left = if s < 0 {
        w + s
    } else {
        w - s
    };
    if left > 1 {
        left
    } else {
        1
    }
}

/// The value of the shift error: the mean of the squared differences of the
/// columns that have a partner.
pub open spec fn error_value(p: Seq<int>, f: Seq<int>, s: int) -> int {
    total(partner_squares(p, f, s)) / partners(p.len() as int, s)
}

/// Whether the shift error is made of doubles.
pub open spec fn error_fits(p: Seq<int>, f: Seq<int>, s: int) -> bool {
    let w = p.len() as int;
    &&& forall|x: int|
        has_partner(w, x, s) ==> representable((#[trigger] p[x]) - f[x + s]) && divides(
            (p[x] - f[x + s]) * (p[x] - f[x + s]),
            unity(),
        )
    &&& adds_up(partner_squares(p, f, s))
    &&& representable(partners(w, s) * unity())
    &&& divides(total(partner_squares(p, f, s)), partners(w, s))
}

proof fn lemma_zeros_add_nothing(values: Seq<int>, j: int, k: int)
    requires
        0 <= j <= k <= values.len(),
        forall|i: int| j <= i < k ==> values[i] == 0,
    ensures
        total(values.take(k)) == total(values.take(j)),
    decreases k - j,
{
    if j < k {
        lemma_zeros_add_nothing(values, j, k - 1);
        lemma_take_total(values, k - 1);
    }
}

proof fn lemma_difference_sum_value<A: FloatUnit>(a: Seq<u64>, f: Seq<u64>, p: Seq<int>, q: Seq<int>, s: int, k: int, acc: u64)
    requires
        rounds_only_if_needed::<A>(),
        have_values(a, p),
        have_values(f, q),
        a.len() == f.len(),
        error_fits(p, q, s),
        overlap_from(s) <= a.len(),
        0 <= k,
        k == 0 || k <= overlap_to(a.len() as int, s) - overlap_from(s),
        difference_sum::<A>(a, f, s, k, acc),
    ensures
        finite(acc),
        scaled(acc) == total(partner_squares(p, q, s).take(overlap_from(s) + k)),
    decreases k,
{
    lemma_scaled_constants();
    let list = partner_squares(p, q, s);
    let from = overlap_from(s);
    if k == 0 {
        lemma_zeros_add_nothing(list, 0, from);
        assert(list.take(0).len() == 0);
    } else {
        let x = from + (k - 1);
        let prev = choose|prev: u64|
            difference_sum::<A>(a, f, s, k - 1, prev) && #[trigger] difference_added::<A>(
                prev,
                a[overlap_from(s) + k - 1],
                f[overlap_from(s) + k - 1 + s],
                acc,
            );
        lemma_difference_sum_value::<A>(a, f, p, q, s, k - 1, prev);
        let (d, e) = choose|d: u64, e: u64|
            #[trigger] call_ensures(A::minus, (a[x], f[x + s]), d) && #[trigger] call_ensures(A::times, (d, d), e) && call_ensures(
                A::plus,
                (prev, e),
                acc,
            );
        assert(has_partner(p.len() as int, x, s));
        assert(finite(a[x]) && finite(f[x + s]));
        assert(representable(p[x] - q[x + s]));
        lemma_take_total(list, x);
        assert(scaled(e) == list[x]);
        assert(representable(total(list.take(x + 1))));
    }
}

pub proof fn lemma_error_value<A: FloatUnit>(a: Seq<u64>, f: Seq<u64>, p: Seq<int>, q: Seq<int>, s: int, e: u64)
    requires
        rounds_only_if_needed::<A>(),
        have_values(a, p),
        have_values(f, q),
        a.len() == f.len(),
        a.len() <= isize::MAX,
        error_fits(p, q, s),
        -a.len() <= s <= a.len(),
        matching_error::<A>(a, f, s, e),
    ensures
        finite(e),
        scaled(e) == error_value(p, q, s),
{
    lemma_scaled_constants();
    let w = a.len() as int;
    let list = partner_squares(p, q, s);
    let (from, to) = (overlap_from(s), overlap_to(w, s));
    let k = to - from;
    let (all, n) = choose|all: u64, n: u64|
        #[trigger] difference_sum::<A>(a, f, s, overlap_to(a.len() as int, s) - overlap_from(s), all)
            && #[trigger] call_ensures(A::offset, (overlap_count(a.len() as int, s) as isize,), n) && call_ensures(
            A::over,
            (all, n),
            e,
        );
    lemma_difference_sum_value::<A>(a, f, p, q, s, k, all);
    lemma_zeros_add_nothing(list, to, w);
    assert(list.take(w) =~= list);
    let c = partners(w, s);
    assert(overlap_count(w, s) as isize == c);
    assert(scaled(n) == c * unity());
    lemma_common_factor(total(list), c, unity());
}

/// The shift error is the mean of the squared differences over exactly the
/// columns that have a partner.
pub proof fn law_shift_error_value<A: FloatUnit>(a: &Vec<u64>, f: &Vec<u64>, p: Seq<int>, q: Seq<int>, s: isize, e: u64)
    requires
        rounds_only_if_needed::<A>(),
        have_values(a@, p),
        have_values(f@, q),
        a@.len() == f@.len(),
        a@.len() <= isize::MAX,
        error_fits(p, q, s as int),
        -a@.len() <= s <= a@.len(),
        call_ensures(profile::shift_error::<A>, (a, f, s), e),
    ensures
        finite(e),
        scaled(e) == error_value(p, q, s as int),
{
    lemma_error_value::<A>(a@, f@, p, q, s as int, e);
}

/// The largest shift searched: `max_shift`, but leaving two of three or more
/// columns to compare.
pub open spec fn reach(w: int, max_shift: int) -> int {
    if max_shift <= 0 {
        0
    } else if w <= 3 {
        1
    } else if max_shift <= w - 2 {
        max_shift
    } else {
        w - 2
    }
}

/// Whether place `k` is the first one of the least value.
pub open spec fn first_least_value(values: Seq<int>, k: int) -> bool {
    &&& 0 <= k < values.len()
    &&& forall|j: int| 0 <= j < values.len() ==> values[k] <= #[trigger] values[j]
    &&& forall|j: int| 0 <= j < k ==> values[k] < #[trigger] values[j]
}

/// How far the vertex of the parabola through the values at `k` and beside it
/// is from `k`; nothing at the ends and where there is no curvature.
pub open spec fn vertex_value(values: Seq<int>, k: int) -> int {
    if k <= 0 || k >= values.len() - 1 {
        0
    } else {
        let bend = values[k - 1] - 2 * values[k] + values[k + 1];
        if bend > scaled(ieee::TINY) {
            (values[k - 1] - values[k + 1]) / 2 * unity() / bend
        } else {
            0
        }
    }
}

/// The refined shift for the least of the errors of the shifts `-m..=m`.
pub open spec fn refined_value(values: Seq<int>, m: int, k: int) -> int {
    (k - m) * unity() + vertex_value(values, k)
}

/// Whether the refined shift is made of doubles.
pub open spec fn refinement_fits(values: Seq<int>, m: int, k: int) -> bool {
    let (e0, e1, e2) = (values[k - 1], values[k], values[k + 1]);
    let bend = e0 - 2 * e1 + e2;
    &&& representable((k - m) * unity())
    &&& 0 < k < values.len() - 1 ==> {
        &&& representable(2 * e1)
        &&& representable(e0 - 2 * e1)
        &&& representable(bend)
        &&& representable(e0 - e2)
        &&& (e0 - e2) % 2 == 0
        &&& representable((e0 - e2) / 2)
        &&& bend > scaled(ieee::TINY) ==> divides((e0 - e2) / 2 * unity(), bend)
        &&& representable(refined_value(values, m, k))
    }
}

pub proof fn lemma_exact_product(a: int, b: int, u: int)
    requires
        u > 0,
    ensures
        (a * u * b) % u == 0,
        (a * u * b) / u == a * b,
{
    assert(a * u * b == (a * b) * u) by (nonlinear_arith);
    vstd::arithmetic::div_mod::lemma_fundamental_div_mod_converse(a * u * b, u, a * b, 0);
}

proof fn lemma_refined_value<A: FloatUnit>(errors: Seq<u64>, values: Seq<int>, m: int, k: int, r: u64, s: u64)
    requires
        rounds_only_if_needed::<A>(),
        have_values(errors, values),
        first_least_value(values, k),
        errors.len() == 2 * m + 1,
        0 <= m <= isize::MAX,
        refinement_fits(values, m, k),
        call_ensures(A::offset, ((k - m) as isize,), s),
        if k == 0 || k == errors.len() - 1 {
            r == s
        } else {
            shifted_by_vertex::<A>(s, errors[k - 1], errors[k], errors[k + 1], r)
        },
    ensures
        finite(r),
        scaled(r) == refined_value(values, m, k),
{
    lemma_scaled_constants();
    let u = unity();
    assert(((k - m) as isize) as int == k - m);
    assert(finite(s) && scaled(s) == (k - m) * u);
    if k != 0 && k != errors.len() - 1 {
        let (b0, b1, b2) = (errors[k - 1], errors[k], errors[k + 1]);
        let (e0, e1, e2) = (values[k - 1], values[k], values[k + 1]);
        let bend = e0 - 2 * e1 + e2;
        assert(finite(b0) && finite(b1) && finite(b2));
        let delta = choose|delta: u64| #[trigger] vertex_offset::<A>(b0, b1, b2, delta) && call_ensures(A::plus, (s, delta), r);
        let (twice, d, denom) = choose|twice: u64, d: u64, denom: u64|
            #[trigger] call_ensures(A::times, (ieee::TWO, b1), twice) && #[trigger] call_ensures(A::minus, (b0, twice), d)
                && #[trigger] call_ensures(A::plus, (d, b2), denom) && if below(ieee::TINY, ieee::absolute(denom)) {
                vertex_quotient::<A>(b0, b2, denom, delta)
            } else {
                delta == ieee::ZERO
            };
        lemma_exact_product(2, e1, u);
        assert(scaled(ieee::TWO) * e1 == 2 * u * e1);
        assert(finite(ieee::TWO) && finite(ieee::HALF) && finite(ieee::TINY));
        assert(finite(twice) && scaled(twice) == 2 * e1);
        assert(finite(d) && scaled(d) == e0 - 2 * e1);
        assert(finite(denom) && scaled(denom) == bend);
        assert(bend >= 0);
        law_rank_orders_the_values(ieee::ZERO, denom);
        law_rank_orders_the_values(ieee::absolute(denom), ieee::TINY);
        if bend > scaled(ieee::TINY) {
            assert(below(ieee::TINY, ieee::absolute(denom)));
            let (g, half, q) = choose|g: u64, half: u64, q: u64|
                #[trigger] call_ensures(A::minus, (b0, b2), g) && #[trigger] call_ensures(A::times, (ieee::HALF, g), half)
                    && #[trigger] call_ensures(A::over, (half, denom), q) && delta == ieee::clamped(q, ieee::NEG_ONE, ieee::ONE);
            let h = (e0 - e2) / 2;
            assert(scaled(g) == 2 * h);
            let hu = scaled(ieee::HALF);
            assert(hu * (2 * h) == 1 * u * h) by (nonlinear_arith)
                requires
                    2 * hu == u,
            ;
            lemma_exact_product(1, h, u);
            assert(finite(half) && scaled(half) == h);
            let v = h * u / bend;
            assert(finite(q) && scaled(q) == v);
            vstd::arithmetic::div_mod::lemma_fundamental_div_mod(h * u, bend);
            assert(-u <= v <= u) by (nonlinear_arith)
                requires
                    h * u == bend * v,
                    -bend <= 2 * h <= bend,
                    bend > 0,
                    u > 0,
            ;
            law_rank_orders_the_values(ieee::NEG_ONE, q);
            law_rank_orders_the_values(q, ieee::ONE);
            assert(delta == q);
        } else {
            assert(delta == ieee::ZERO);
        }
    }
}

/// The place that is found is the first one of the least value, where no error
/// is negative.
proof fn lemma_first_least_value(errors: Seq<u64>, values: Seq<int>, k: int)
    requires
        have_values(errors, values),
        forall|j: int| 0 <= j < errors.len() ==> not_negative(#[trigger] errors[j]),
        first_least(errors, k),
    ensures
        first_least_value(values, k),
{
    assert forall|j: int| 0 <= j < values.len() implies values[k] <= #[trigger] values[j] by {
        assert(not_negative(errors[j]) && not_negative(errors[k]));
        assert(total_place(errors[k]) <= total_place(errors[j]));
        law_rank_orders_the_values(errors[k], errors[j]);
    }
    assert forall|j: int| 0 <= j < k implies values[k] < #[trigger] values[j] by {
        assert(not_negative(errors[j]) && not_negative(errors[k]));
        assert(total_place(errors[k]) < total_place(errors[j]));
        law_rank_orders_the_values(errors[j], errors[k]);
    }
}

/// The values of the errors of the shifts `-m..=m`.
pub open spec fn curve_values(p: Seq<int>, f: Seq<int>, m: int) -> Seq<int> {
    Seq::new((2 * m + 1) as nat, |k: int| error_value(p, f, k - m))
}

/// Whether the search for the shift is made of doubles.
pub open spec fn search_fits(p: Seq<int>, f: Seq<int>, m: int) -> bool {
    &&& forall|s: int| -m <= s <= m ==> #[trigger] error_fits(p, f, s)
    &&& forall|k: int| #[trigger] first_least_value(curve_values(p, f, m), k) ==> refinement_fits(curve_values(p, f, m), m, k)
}

/// Whether `r` is the value of the shift for a curve of errors: refined about
/// the first least of them.
pub open spec fn is_refined_value(values: Seq<int>, m: int, r: int) -> bool {
    exists|k: int| #[trigger] first_least_value(values, k) && r == refined_value(values, m, k)
}

pub proof fn lemma_aligning_shift_value<A: FloatUnit>(a: Seq<u64>, f: Seq<u64>, p: Seq<int>, q: Seq<int>, max_shift: usize, r: u64)
    requires
        rounds_only_if_needed::<A>(),
        keeps_signs::<A>(),
        have_values(a, p),
        have_values(f, q),
        a.len() == f.len(),
        0 < a.len() <= isize::MAX,
        search_fits(p, q, reach(a.len() as int, max_shift as int)),
        aligning_shift::<A>(a, f, max_shift, r),
    ensures
        finite(r),
        is_refined_value(
            curve_values(p, q, reach(a.len() as int, max_shift as int)),
            reach(a.len() as int, max_shift as int),
            scaled(r),
        ),
{
    let m = reach(a.len() as int, max_shift as int);
    assert(m == search_radius(a.len() as int, max_shift));
    let errors = choose|errors: Seq<u64>| #[trigger] error_curve::<A>(a, f, m, errors) && refined_shift::<A>(errors, m, r);
    let values = curve_values(p, q, m);
    assert forall|k: int| 0 <= k < errors.len() implies finite(#[trigger] errors[k]) && scaled(errors[k]) == values[k]
        && not_negative(errors[k]) by {
        assert(error_fits(p, q, k - m));
        lemma_error_value::<A>(a, f, p, q, k - m, errors[k]);
        law_shift_error_is_not_negative::<A>(a, f, k - m, errors[k]);
    }
    lemma_refined_shift_value::<A>(errors, values, m, r);
}

pub proof fn lemma_refined_shift_value<A: FloatUnit>(errors: Seq<u64>, values: Seq<int>, m: int, r: u64)
    requires
        rounds_only_if_needed::<A>(),
        have_values(errors, values),
        forall|j: int| 0 <= j < errors.len() ==> not_negative(#[trigger] errors[j]),
        errors.len() == 2 * m + 1,
        0 <= m <= isize::MAX,
        forall|k: int| #[trigger] first_least_value(values, k) ==> refinement_fits(values, m, k),
        refined_shift::<A>(errors, m, r),
    ensures
        finite(r),
        is_refined_value(values, m, scaled(r)),
{
    let (k, s) = choose|k: int, s: u64|
        #[trigger] first_least(errors, k) && #[trigger] call_ensures(A::offset, ((k - m) as isize,), s) && if k == 0 || k
            == errors.len() - 1 {
            r == s
        } else {
            shifted_by_vertex::<A>(s, errors[k - 1], errors[k], errors[k + 1], r)
        };
    lemma_first_least_value(errors, values, k);
    lemma_refined_value::<A>(errors, values, m, k, r, s);
    assert(first_least_value(values, k));
}

/// The shift that is found is the first one of the least mean squared
/// difference, among all those up to `max_shift`, moved to the vertex of the
/// parabola through its error and those beside it.
pub proof fn law_best_shift_value<A: FloatUnit>(a: &Vec<u64>, f: &Vec<u64>, p: Seq<int>, q: Seq<int>, max_shift: usize, r: Option<u64>)
    requires
        rounds_only_if_needed::<A>(),
        keeps_signs::<A>(),
        have_values(a@, p),
        have_values(f@, q),
        a@.len() == f@.len(),
        0 < a@.len() <= isize::MAX,
        search_fits(p, q, reach(a@.len() as int, max_shift as int)),
        call_ensures(profile::best_shift::<A>, (a, f, max_shift), r),
    ensures
        r is Some,
        finite(r->0),
        is_refined_value(
            curve_values(p, q, reach(a@.len() as int, max_shift as int)),
            reach(a@.len() as int, max_shift as int),
            scaled(r->0),
        ),
{
    law_only_empty_profiles_are_degenerate(a@.len() as int, max_shift);
    lemma_aligning_shift_value::<A>(a@, f@, p, q, max_shift, r->0);
}

} // verus!
