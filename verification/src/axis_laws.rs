//! What the estimators make of the projections, in values: the axis column at
//! a band is that of the first shift whose mean squared difference is least,
//! over one pair or summed over all of them.
use crate::algorithms;
use crate::algorithms::{
    all_profiles, axis_column, consensus_axis, consensus_curve, consensus_error, pair_axis, pair_profiles, single_errors, Params,
    Profiles,
};
use crate::fit_laws::unity;
use crate::ieee;
use crate::ieee::{finite, lemma_scaled_constants, not_negative, representable, scaled};
use crate::pairs::Pair;
use crate::profile::{
    aligning_shift, law_only_empty_profiles_are_degenerate, matching_error, refined_shift, search_radius, sum,
};
use crate::recovery_laws::{law_shift_error_is_not_negative, lemma_sum_of_errors};
use crate::stack::Stack;
use crate::unit::{adds_to_nothing, cancels, keeps_signs, last_place, rounds_only_if_needed, FloatUnit};
use crate::value_laws::{
    adds_up, curve_values, error_fits, error_value, first_least_value, have_values, lemma_aligning_shift_value,
    lemma_error_value, lemma_profile_values, lemma_refined_shift_value, lemma_sum_value, normalizes, profile_values, reach,
    refined_value, refinement_fits, row_totals, rows_add_up, search_fits, total,
};
use vstd::prelude::*;

verus! {

/// The samples of projection `i`.
pub open spec fn projection(stack: &Stack, i: int) -> Seq<u32> {
    Seq::new((stack.height * stack.width) as nat, |k: int| stack.data@[i * (stack.height * stack.width) + k])
}

/// The values of the profile of projection `i` over the rows from `y0` on, as
/// many as `band`, where `s` is the deviation of its columns.
pub open spec fn band_values(stack: &Stack, i: int, y0: int, band: int, s: int) -> Seq<int> {
    profile_values(row_totals(projection(stack, i), stack.width as int, y0, band), s)
}

/// Whether that profile is made of doubles.
pub open spec fn band_fits(stack: &Stack, i: int, y0: int, band: int, s: int) -> bool {
    &&& rows_add_up(projection(stack, i), stack.width as int, y0, band)
    &&& normalizes(row_totals(projection(stack, i), stack.width as int, y0, band), s)
}

/// The values back to front.
pub open spec fn backwards(values: Seq<int>) -> Seq<int> {
    Seq::new(values.len(), |x: int| values[values.len() - 1 - x])
}

/// The axis column of the shift `r` of `w` columns.
pub open spec fn axis_value(w: int, r: int) -> int {
    ((w - 1) * unity() - r) / 2
}

/// Whether the axis column is made of doubles.
pub open spec fn axis_fits(w: int, r: int) -> bool {
    &&& representable(w * unity())
    &&& representable((w - 1) * unity())
    &&& representable((w - 1) * unity() - r)
    &&& ((w - 1) * unity() - r) % 2 == 0
    &&& representable(axis_value(w, r))
}

/// Whether `c` is the axis column for the errors of the shifts `-m..=m`: that
/// of the first least of them.
pub open spec fn is_axis_value(w: int, values: Seq<int>, m: int, c: int) -> bool {
    exists|k: int| #[trigger] first_least_value(values, k) && c == axis_value(w, refined_value(values, m, k))
}

/// Whether the axis column for the errors is made of doubles.
pub open spec fn axes_fit(w: int, values: Seq<int>, m: int) -> bool {
    forall|k: int| #[trigger] first_least_value(values, k) ==> refinement_fits(values, m, k) && axis_fits(w, refined_value(values, m, k))
}

pub proof fn lemma_projection(stack: &Stack, i: int)
    requires
        stack.wf(),
        0 <= i < stack.n,
    ensures
        projection(stack, i) == stack.plane_at(i),
{
    let size = stack.height * stack.width;
    assert(0 <= i * size && (i + 1) * size == i * size + size && i * size + size <= stack.n * size) by (nonlinear_arith)
        requires
            0 <= i < stack.n,
            0 <= size,
    ;
    assert(projection(stack, i) =~= stack.plane_at(i));
}

proof fn lemma_axis_column_value<A: FloatUnit>(w: usize, s: u64, c: u64)
    requires
        rounds_only_if_needed::<A>(),
        finite(s),
        axis_fits(w as int, scaled(s)),
        axis_column::<A>(w, s, c),
    ensures
        finite(c),
        scaled(c) == axis_value(w as int, scaled(s)),
{
    lemma_scaled_constants();
    let u = unity();
    let (last, d) = choose|last: u64, d: u64|
        #[trigger] last_place::<A>(w, last) && #[trigger] call_ensures(A::minus, (last, s), d) && call_ensures(
            A::over,
            (d, ieee::TWO),
            c,
        );
    let n = choose|n: u64| #[trigger] call_ensures(A::count, (w,), n) && call_ensures(A::minus, (n, ieee::ONE), last);
    assert((w - 1) * u == w * u - u) by (nonlinear_arith);
    assert(finite(ieee::ONE) && finite(ieee::TWO));
    assert(finite(last) && scaled(last) == (w - 1) * u);
    let v = (w - 1) * u - scaled(s);
    assert(finite(d) && scaled(d) == v);
    assert(v * u == (v / 2) * (2 * u)) by (nonlinear_arith)
        requires
            v == 2 * (v / 2),
    ;
    vstd::arithmetic::div_mod::lemma_fundamental_div_mod_converse(v * u, 2 * u, v / 2, 0);
}

proof fn lemma_flipped_values(g: Seq<u64>, q: Seq<int>)
    requires
        have_values(g, q),
    ensures
        have_values(g.reverse(), backwards(q)),
{
    assert forall|x: int| 0 <= x < g.len() implies finite(#[trigger] g.reverse()[x]) && scaled(g.reverse()[x]) == backwards(q)[x] by {
        assert(g.reverse()[x] == g[g.len() - 1 - x]);
        assert(finite(g[g.len() - 1 - x]));
    }
}

/// The two profiles of a pair, in values: that of the first projection, and
/// that of the second back to front.
pub open spec fn pair_values(stack: &Stack, pair: Pair, y0: int, band: int, s: (int, int)) -> (Seq<int>, Seq<int>) {
    (band_values(stack, pair.i as int, y0, band, s.0), backwards(band_values(stack, pair.j as int, y0, band, s.1)))
}

/// Whether these profiles are made of doubles.
pub open spec fn pair_fits(stack: &Stack, pair: Pair, y0: int, band: int, s: (int, int)) -> bool {
    band_fits(stack, pair.i as int, y0, band, s.0) && band_fits(stack, pair.j as int, y0, band, s.1)
}

proof fn lemma_pair_profiles<A: FloatUnit>(stack: &Stack, pair: Pair, y0: int, band: int, s: (int, int), a: Seq<u64>, f: Seq<u64>)
    requires
        rounds_only_if_needed::<A>(),
        stack.wf(),
        pair.i < stack.n,
        pair.j < stack.n,
        band >= 0,
        pair_fits(stack, pair, y0, band, s),
        pair_profiles::<A>(stack, pair, y0, band, a, f),
    ensures
        have_values(a, pair_values(stack, pair, y0, band, s).0),
        have_values(f, pair_values(stack, pair, y0, band, s).1),
        a.len() == f.len() == stack.width,
{
    lemma_projection(stack, pair.i as int);
    lemma_projection(stack, pair.j as int);
    lemma_profile_values::<A>(stack.plane_at(pair.i as int), stack.width, y0, band, s.0, a);
    let g = choose|g: Seq<u64>| #[trigger]
        crate::profile::normalized_profile::<A>(stack.plane_at(pair.j as int), stack.width, y0, band, g) && f == g.reverse();
    lemma_profile_values::<A>(stack.plane_at(pair.j as int), stack.width, y0, band, s.1, g);
    lemma_flipped_values(g, band_values(stack, pair.j as int, y0, band, s.1));
}

/// Whether the search for the shift of one pair and its axis column are made of
/// doubles.
pub open spec fn pair_search_fits(stack: &Stack, pair: Pair, y0: int, band: int, max_shift: int, s: (int, int)) -> bool {
    let w = stack.width as int;
    let (p, f) = pair_values(stack, pair, y0, band, s);
    &&& pair_fits(stack, pair, y0, band, s)
    &&& search_fits(p, f, reach(w, max_shift))
    &&& axes_fit(w, curve_values(p, f, reach(w, max_shift)), reach(w, max_shift))
}

/// Whether `c` is the axis column that a pair gives over the rows from `y0` on,
/// as many as `band`.
pub open spec fn is_pair_axis(stack: &Stack, pair: Pair, y0: int, band: int, max_shift: int, s: (int, int), c: int) -> bool {
    let w = stack.width as int;
    let (p, f) = pair_values(stack, pair, y0, band, s);
    is_axis_value(w, curve_values(p, f, reach(w, max_shift)), reach(w, max_shift), c)
}

pub proof fn lemma_pair_axis_value<A: FloatUnit>(
    stack: &Stack,
    pair: Pair,
    y0: int,
    band: int,
    max_shift: usize,
    s: (int, int),
    c: u64,
)
    requires
        rounds_only_if_needed::<A>(),
        keeps_signs::<A>(),
        stack.wf(),
        stack.width <= isize::MAX,
        pair.i < stack.n,
        pair.j < stack.n,
        band >= 0,
        pair_search_fits(stack, pair, y0, band, max_shift as int, s),
        pair_axis::<A>(stack, pair, y0, band, max_shift, c),
    ensures
        finite(c),
        is_pair_axis(stack, pair, y0, band, max_shift as int, s, scaled(c)),
{
    let w = stack.width as int;
    let m = reach(w, max_shift as int);
    let (p, q) = pair_values(stack, pair, y0, band, s);
    let (a, f, r) = choose|a: Seq<u64>, f: Seq<u64>, r: u64|
        #[trigger] pair_profiles::<A>(stack, pair, y0, band, a, f) && #[trigger] aligning_shift::<A>(a, f, max_shift, r)
            && axis_column::<A>(stack.width, r, c);
    lemma_pair_profiles::<A>(stack, pair, y0, band, s, a, f);
    lemma_aligning_shift_value::<A>(a, f, p, q, max_shift, r);
    let values = curve_values(p, q, m);
    let k = choose|k: int| #[trigger] first_least_value(values, k) && scaled(r) == refined_value(values, m, k);
    assert(axis_fits(w, refined_value(values, m, k)));
    lemma_axis_column_value::<A>(stack.width, r, c);
}

/// The axis column that a pair gives at a band is that of the first shift, of
/// all those up to the largest, whose mean squared difference between the
/// profile of the one projection and the flipped profile of the other is least;
/// the profiles are made of all the rows of the band.
pub proof fn law_pair_column_value<A: FloatUnit>(
    stack: &Stack,
    pair: &Pair,
    params: &Params,
    at: (usize, u64),
    s: (int, int),
    r: Option<(u64, u64)>,
)
    requires
        rounds_only_if_needed::<A>(),
        keeps_signs::<A>(),
        stack.wf(),
        stack.width <= isize::MAX,
        pair.i < stack.n,
        pair.j < stack.n,
        params.band > 0,
        pair_search_fits(stack, *pair, at.0 as int, params.band as int, params.max_shift as int, s),
        call_ensures(algorithms::pair_column::<A>, (stack, pair, params, at), r),
    ensures
        r matches Some((row, c)) && row == at.1 && finite(c) && is_pair_axis(
            stack,
            *pair,
            at.0 as int,
            params.band as int,
            params.max_shift as int,
            s,
            scaled(c),
        ),
{
    law_only_empty_profiles_are_degenerate(stack.width as int, params.max_shift);
    lemma_pair_axis_value::<A>(stack, *pair, at.0 as int, params.band as int, params.max_shift, s, (r->0).1);
}

/// The whole-range shift compares exactly the rows from the top row to the
/// bottom row.
pub proof fn law_global_cor_takes_the_whole_range<A: FloatUnit>(
    stack: &Stack,
    pair: &Pair,
    params: &Params,
    s: (int, int),
    r: Result<u64, String>,
)
    requires
        rounds_only_if_needed::<A>(),
        keeps_signs::<A>(),
        stack.wf(),
        stack.width <= isize::MAX,
        pair.i < stack.n,
        pair.j < stack.n,
        params.y_top < params.y_bottom < stack.height,
        pair_search_fits(
            stack,
            *pair,
            params.y_top as int,
            params.y_bottom - params.y_top + 1,
            params.max_shift as int,
            s,
        ),
        call_ensures(algorithms::global_cor::<A>, (stack, pair, params), r),
    ensures
        r matches Ok(c) && finite(c) && is_pair_axis(
            stack,
            *pair,
            params.y_top as int,
            params.y_bottom - params.y_top + 1,
            params.max_shift as int,
            s,
            scaled(c),
        ),
{
    law_only_empty_profiles_are_degenerate(stack.width as int, params.max_shift);
    lemma_pair_axis_value::<A>(
        stack,
        *pair,
        params.y_top as int,
        params.y_bottom - params.y_top + 1,
        params.max_shift,
        s,
        r->Ok_0,
    );
}

/// The rows of the whole-range shift are exactly those from the top row to the
/// bottom row.
pub proof fn law_whole_range_is_the_row_range(height: usize, params: Params)
    requires
        params.y_top < params.y_bottom < height,
    ensures
        algorithms::whole_range(height, params) == (params.y_top as int, params.y_bottom - params.y_top + 1),
{
}

/// Where the bottom row is not below the top row, the whole-range shift compares
/// the top row and the one below it.
pub proof fn law_global_cor_takes_two_rows_at_least<A: FloatUnit>(
    stack: &Stack,
    pair: &Pair,
    params: &Params,
    s: (int, int),
    r: Result<u64, String>,
)
    requires
        rounds_only_if_needed::<A>(),
        keeps_signs::<A>(),
        stack.wf(),
        stack.width <= isize::MAX,
        pair.i < stack.n,
        pair.j < stack.n,
        params.y_bottom <= params.y_top,
        params.y_top + 1 < stack.height,
        pair_search_fits(stack, *pair, params.y_top as int, 2, params.max_shift as int, s),
        call_ensures(algorithms::global_cor::<A>, (stack, pair, params), r),
    ensures
        r matches Ok(c) && finite(c) && is_pair_axis(
            stack,
            *pair,
            params.y_top as int,
            2,
            params.max_shift as int,
            s,
            scaled(c),
        ),
{
    law_only_empty_profiles_are_degenerate(stack.width as int, params.max_shift);
    lemma_pair_axis_value::<A>(stack, *pair, params.y_top as int, 2, params.max_shift, s, r->Ok_0);
}

/// The profiles of the pairs, in values.
pub open spec fn all_values(stack: &Stack, pairs: Seq<Pair>, y0: int, band: int, s: Seq<(int, int)>) -> Seq<(Seq<int>, Seq<int>)> {
    Seq::new(pairs.len(), |j: int| pair_values(stack, pairs[j], y0, band, s[j]))
}

/// The values of the shift errors of the pairs, each for itself.
pub open spec fn error_list(list: Seq<(Seq<int>, Seq<int>)>, s: int) -> Seq<int> {
    Seq::new(list.len(), |j: int| error_value(list[j].0, list[j].1, s))
}

/// The sum of the shift errors of all the pairs, at the shifts `-m..=m`.
pub open spec fn summed_curve(list: Seq<(Seq<int>, Seq<int>)>, m: int) -> Seq<int> {
    Seq::new((2 * m + 1) as nat, |k: int| total(error_list(list, k - m)))
}

/// Whether the sum of the shift errors of the pairs is made of doubles.
pub open spec fn summed_error_fits(list: Seq<(Seq<int>, Seq<int>)>, s: int) -> bool {
    &&& forall|j: int| 0 <= j < list.len() ==> error_fits((#[trigger] list[j]).0, list[j].1, s)
    &&& adds_up(error_list(list, s))
}

/// Whether the profiles have the values of `list`, all of the same length.
pub open spec fn profiles_have(profiles: Seq<Profiles>, list: Seq<(Seq<int>, Seq<int>)>, w: int) -> bool {
    &&& profiles.len() == list.len()
    &&& forall|j: int|
        0 <= j < profiles.len() ==> have_values((#[trigger] profiles[j]).0, list[j].0) && have_values(profiles[j].1, list[j].1)
            && profiles[j].0.len() == profiles[j].1.len() == w
}

proof fn lemma_single_errors<A: FloatUnit>(profiles: Seq<Profiles>, list: Seq<(Seq<int>, Seq<int>)>, w: int, s: int, each: Seq<u64>)
    requires
        rounds_only_if_needed::<A>(),
        keeps_signs::<A>(),
        profiles_have(profiles, list, w),
        summed_error_fits(list, s),
        0 <= w <= isize::MAX,
        -w <= s <= w,
        single_errors::<A>(profiles, s, each),
    ensures
        have_values(each, error_list(list, s)),
        forall|j: int| 0 <= j < each.len() ==> not_negative(#[trigger] each[j]),
{
    assert forall|j: int| 0 <= j < each.len() implies finite(#[trigger] each[j]) && scaled(each[j]) == error_list(list, s)[j]
        && not_negative(each[j]) by {
        assert(matching_error::<A>(profiles[j].0, profiles[j].1, s, each[j]));
        assert(error_fits(list[j].0, list[j].1, s));
        lemma_error_value::<A>(profiles[j].0, profiles[j].1, list[j].0, list[j].1, s, each[j]);
        law_shift_error_is_not_negative::<A>(profiles[j].0, profiles[j].1, s, each[j]);
    }
}

/// The consensus error of a shift is the sum of the shift errors of all the
/// pairs, each for itself.
pub proof fn law_consensus_error_is_the_sum<A: FloatUnit>(
    profiles: Seq<Profiles>,
    list: Seq<(Seq<int>, Seq<int>)>,
    w: int,
    s: int,
    e: u64,
)
    requires
        rounds_only_if_needed::<A>(),
        keeps_signs::<A>(),
        profiles_have(profiles, list, w),
        summed_error_fits(list, s),
        0 <= w <= isize::MAX,
        -w <= s <= w,
        consensus_error::<A>(profiles, s, e),
    ensures
        finite(e),
        scaled(e) == total(error_list(list, s)),
{
    let each = choose|each: Seq<u64>| #[trigger] single_errors::<A>(profiles, s, each) && sum::<A>(each, each.len() as int, e);
    lemma_single_errors::<A>(profiles, list, w, s, each);
    let values = error_list(list, s);
    lemma_sum_value::<A>(each, values, each.len() as int, e);
    assert(values.take(values.len() as int) =~= values);
}

proof fn lemma_total_of_concat(a: Seq<int>, b: Seq<int>)
    ensures
        total(a + b) == total(a) + total(b),
    decreases b.len(),
{
    if b.len() == 0 {
        assert(a + b =~= a);
    } else {
        assert((a + b).drop_last() =~= a + b.drop_last());
        lemma_total_of_concat(a, b.drop_last());
    }
}

proof fn lemma_total_without(values: Seq<int>, at: int)
    requires
        0 <= at < values.len(),
    ensures
        total(values.remove(at)) + values[at] == total(values),
{
    let (a, b) = (values.take(at), values.skip(at + 1));
    assert(values =~= a + (seq![values[at]] + b));
    assert(values.remove(at) =~= a + b);
    lemma_total_of_concat(a, seq![values[at]] + b);
    lemma_total_of_concat(seq![values[at]], b);
    lemma_total_of_concat(a, b);
    reveal_with_fuel(total, 2);
}

/// The sum does not depend on the order of the values.
proof fn lemma_total_ignores_the_order(a: Seq<int>, b: Seq<int>)
    requires
        a.to_multiset() == b.to_multiset(),
    ensures
        total(a) == total(b),
    decreases a.len(),
{
    broadcast use vstd::seq_lib::group_to_multiset_ensures;

    assert(a.to_multiset().len() == a.len() && b.to_multiset().len() == b.len());
    if a.len() > 0 {
        let v = a.last();
        assert(a.contains(v));
        assert(a.to_multiset().count(v) > 0);
        assert(b.to_multiset().count(v) > 0);
        assert(b.contains(v));
        let at = choose|at: int| 0 <= at < b.len() && b[at] == v;
        lemma_total_without(b, at);
        let (x, y) = (a.drop_last(), b.remove(at));
        assert(x =~= a.remove(a.len() - 1));
        assert(x.to_multiset() =~= a.to_multiset().remove(v));
        assert(y.to_multiset() =~= b.to_multiset().remove(v));
        lemma_total_ignores_the_order(x, y);
    }
}

/// The consensus error does not depend on the order of the pairs: where the
/// pairs have the same shift errors in another order, so is their sum.
pub proof fn law_consensus_ignores_the_order<A: FloatUnit>(
    a: Seq<Profiles>,
    b: Seq<Profiles>,
    p: Seq<(Seq<int>, Seq<int>)>,
    q: Seq<(Seq<int>, Seq<int>)>,
    w: int,
    s: int,
    e: u64,
    f: u64,
)
    requires
        rounds_only_if_needed::<A>(),
        keeps_signs::<A>(),
        profiles_have(a, p, w),
        profiles_have(b, q, w),
        summed_error_fits(p, s),
        summed_error_fits(q, s),
        error_list(p, s).to_multiset() == error_list(q, s).to_multiset(),
        0 <= w <= isize::MAX,
        -w <= s <= w,
        consensus_error::<A>(a, s, e),
        consensus_error::<A>(b, s, f),
    ensures
        scaled(e) == scaled(f),
{
    law_consensus_error_is_the_sum::<A>(a, p, w, s, e);
    law_consensus_error_is_the_sum::<A>(b, q, w, s, f);
    lemma_total_ignores_the_order(error_list(p, s), error_list(q, s));
}

/// How many of the values are zero.
pub open spec fn zeros(values: Seq<int>) -> int
    decreases values.len(),
{
    if values.len() == 0 {
        0
    } else {
        zeros(values.drop_last()) + if values.last() == 0 {
            1int
        } else {
            0int
        }
    }
}

proof fn lemma_split_errors(x: Seq<int>, y: Seq<int>, d: int)
    requires
        d > 0,
        x.len() == y.len(),
        forall|j: int| 0 <= j < x.len() ==> (#[trigger] x[j] == 0 && y[j] == d) || (x[j] == d && y[j] == 0),
    ensures
        total(x) == (x.len() - zeros(x)) * d,
        total(y) == zeros(x) * d,
    decreases x.len(),
{
    if x.len() > 0 {
        let n = x.len() - 1;
        assert forall|j: int| 0 <= j < n implies (#[trigger] x.drop_last()[j] == 0 && y.drop_last()[j] == d) || (x.drop_last()[j] == d
            && y.drop_last()[j] == 0) by {
            assert(x[j] == x.drop_last()[j]);
        }
        lemma_split_errors(x.drop_last(), y.drop_last(), d);
        let z = zeros(x.drop_last());
        assert(x[n] == 0 && y[n] == d || x[n] == d && y[n] == 0);
        assert((z + 1) * d == z * d + d) by (nonlinear_arith);
        assert((n + 1 - (z + 1)) * d == (n - z) * d) by (nonlinear_arith);
        assert((n + 1 - z) * d == (n - z) * d + d) by (nonlinear_arith);
    } else {
        assert(0 * d == 0 && (0 - 0) * d == 0) by (nonlinear_arith);
    }
}

/// A noisy pair cannot pull the axis: where every pair fits perfectly at one
/// of two shifts and is off by the same error at the other, the shift at which
/// more than half of the pairs fit has the smaller consensus error, wherever
/// the others stand in the list.
pub proof fn law_the_majority_of_the_pairs_decides<A: FloatUnit>(
    profiles: Seq<Profiles>,
    list: Seq<(Seq<int>, Seq<int>)>,
    w: int,
    s: int,
    t: int,
    d: int,
    e: u64,
    f: u64,
)
    requires
        rounds_only_if_needed::<A>(),
        keeps_signs::<A>(),
        profiles_have(profiles, list, w),
        summed_error_fits(list, s),
        summed_error_fits(list, t),
        0 <= w <= isize::MAX,
        -w <= s <= w,
        -w <= t <= w,
        d > 0,
        forall|j: int|
            0 <= j < list.len() ==> (#[trigger] error_list(list, s)[j] == 0 && error_list(list, t)[j] == d) || (error_list(list, s)[j]
                == d && error_list(list, t)[j] == 0),
        2 * zeros(error_list(list, s)) > list.len(),
        consensus_error::<A>(profiles, s, e),
        consensus_error::<A>(profiles, t, f),
    ensures
        scaled(e) < scaled(f),
{
    law_consensus_error_is_the_sum::<A>(profiles, list, w, s, e);
    law_consensus_error_is_the_sum::<A>(profiles, list, w, t, f);
    lemma_split_errors(error_list(list, s), error_list(list, t), d);
    let (n, z) = (list.len() as int, zeros(error_list(list, s)));
    assert((n - z) * d < z * d) by (nonlinear_arith)
        requires
            2 * z > n,
            d > 0,
    ;
}

/// Whether the search for the shift of all the pairs and its axis column are
/// made of doubles.
pub open spec fn consensus_search_fits(
    stack: &Stack,
    pairs: Seq<Pair>,
    y0: int,
    band: int,
    max_shift: int,
    s: Seq<(int, int)>,
) -> bool {
    let w = stack.width as int;
    let m = reach(w, max_shift);
    let list = all_values(stack, pairs, y0, band, s);
    &&& forall|j: int| 0 <= j < pairs.len() ==> pair_fits(stack, #[trigger] pairs[j], y0, band, s[j])
    &&& forall|t: int| -m <= t <= m ==> #[trigger] summed_error_fits(list, t)
    &&& axes_fit(w, summed_curve(list, m), m)
}

/// Whether `c` is the axis column that all the pairs together give.
pub open spec fn is_consensus_axis(
    stack: &Stack,
    pairs: Seq<Pair>,
    y0: int,
    band: int,
    max_shift: int,
    s: Seq<(int, int)>,
    c: int,
) -> bool {
    let w = stack.width as int;
    let m = reach(w, max_shift);
    is_axis_value(w, summed_curve(all_values(stack, pairs, y0, band, s), m), m, c)
}

pub proof fn lemma_consensus_axis_value<A: FloatUnit>(
    stack: &Stack,
    pairs: Seq<Pair>,
    y0: int,
    band: int,
    max_shift: usize,
    s: Seq<(int, int)>,
    c: u64,
)
    requires
        rounds_only_if_needed::<A>(),
        keeps_signs::<A>(),
        cancels::<A>(),
        adds_to_nothing::<A>(),
        stack.wf(),
        stack.width <= isize::MAX,
        pairs.len() > 0,
        forall|j: int| 0 <= j < pairs.len() ==> (#[trigger] pairs[j]).i < stack.n && pairs[j].j < stack.n,
        band >= 0,
        consensus_search_fits(stack, pairs, y0, band, max_shift as int, s),
        consensus_axis::<A>(stack, pairs, y0, band, max_shift, c),
    ensures
        finite(c),
        is_consensus_axis(stack, pairs, y0, band, max_shift as int, s, scaled(c)),
{
    let w = stack.width as int;
    let m = reach(w, max_shift as int);
    assert(m == search_radius(w, max_shift));
    let list = all_values(stack, pairs, y0, band, s);
    let values = summed_curve(list, m);
    let (profiles, errors, r) = choose|profiles: Seq<Profiles>, errors: Seq<u64>, r: u64|
        #[trigger] all_profiles::<A>(stack, pairs, y0, band, profiles) && #[trigger] consensus_curve::<A>(profiles, m, errors)
            && #[trigger] refined_shift::<A>(errors, m, r) && axis_column::<A>(stack.width, r, c);
    assert(profiles_have(profiles, list, w)) by {
        assert forall|j: int| 0 <= j < profiles.len() implies have_values((#[trigger] profiles[j]).0, list[j].0) && have_values(
            profiles[j].1,
            list[j].1,
        ) && profiles[j].0.len() == profiles[j].1.len() == w by {
            assert(pair_fits(stack, pairs[j], y0, band, s[j]));
            lemma_pair_profiles::<A>(stack, pairs[j], y0, band, s[j], profiles[j].0, profiles[j].1);
        }
    }
    assert forall|k: int| 0 <= k < errors.len() implies finite(#[trigger] errors[k]) && scaled(errors[k]) == values[k]
        && not_negative(errors[k]) by {
        assert(summed_error_fits(list, k - m));
        law_consensus_error_is_the_sum::<A>(profiles, list, w, k - m, errors[k]);
        let each = choose|each: Seq<u64>| #[trigger]
            single_errors::<A>(profiles, k - m, each) && sum::<A>(each, each.len() as int, errors[k]);
        lemma_single_errors::<A>(profiles, list, w, k - m, each);
        lemma_sum_of_errors::<A>(each, each.len() as int, errors[k]);
    }
    lemma_refined_shift_value::<A>(errors, values, m, r);
    let k = choose|k: int| #[trigger] first_least_value(values, k) && scaled(r) == refined_value(values, m, k);
    assert(axis_fits(w, refined_value(values, m, k)));
    lemma_axis_column_value::<A>(stack.width, r, c);
}

/// The axis column that the consensus gives at a band is that of the first
/// shift, of all those up to the largest, whose mean squared difference summed
/// over every one of the pairs is least.
pub proof fn law_consensus_column_value<A: FloatUnit>(
    stack: &Stack,
    pairs: &[Pair],
    params: &Params,
    at: (usize, u64),
    s: Seq<(int, int)>,
    r: Option<(u64, u64)>,
)
    requires
        rounds_only_if_needed::<A>(),
        keeps_signs::<A>(),
        cancels::<A>(),
        adds_to_nothing::<A>(),
        stack.wf(),
        stack.width <= isize::MAX,
        pairs@.len() > 0,
        forall|j: int| 0 <= j < pairs@.len() ==> (#[trigger] pairs@[j]).i < stack.n && pairs@[j].j < stack.n,
        params.band > 0,
        consensus_search_fits(stack, pairs@, at.0 as int, params.band as int, params.max_shift as int, s),
        call_ensures(algorithms::consensus_column::<A>, (stack, pairs, params, at), r),
    ensures
        r matches Some((row, c)) && row == at.1 && finite(c) && is_consensus_axis(
            stack,
            pairs@,
            at.0 as int,
            params.band as int,
            params.max_shift as int,
            s,
            scaled(c),
        ),
{
    law_only_empty_profiles_are_degenerate(stack.width as int, params.max_shift);
    lemma_consensus_axis_value::<A>(stack, pairs@, at.0 as int, params.band as int, params.max_shift, s, (r->0).1);
}

} // verus!
