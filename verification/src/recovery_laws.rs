//! That the estimators find the axis: where one profile mirrors the other about
//! a column, no shift fits better than the one that stands for that column.
use crate::algorithms::{
    all_profiles, axis_column, consensus_axis, consensus_curve, consensus_error, law_flipping_turns_the_mirror_into_a_shift,
    mirrored, pair_axis, pair_profiles, single_errors, Profiles,
};
use crate::ieee;
use crate::ieee::{finite, lemma_scaled_constants, not_negative, scaled, total_place};
use crate::order::first_least;
use crate::pairs::Pair;
use crate::profile::{
    aligning_shift, difference_added, difference_sum, error_curve, matching_error, overlap_count, overlap_from, overlap_to,
    refined_shift, search_radius, sum,
};
use crate::profile_laws::{law_refined_shift_is_near_the_least, near_least, refinement_exact};
use crate::stack::Stack;
use crate::unit::{adds_to_nothing, cancels, count_exact, keeps_signs, last_place, minus_exact, over_exact, FloatUnit};
use vstd::prelude::*;

verus! {

/// Whether all the values are finite.
pub open spec fn all_finite(values: Seq<u64>) -> bool {
    forall|x: int| 0 <= x < values.len() ==> finite(#[trigger] values[x])
}

/// The shift that stands for the column `c` of `w` (`twice_c` is `2·c`).
pub open spec fn shift_of(w: int, twice_c: int) -> int {
    w - 1 - twice_c
}

proof fn lemma_equal_columns_add_nothing<A: FloatUnit>(a: Seq<u64>, f: Seq<u64>, s: int, k: int, acc: u64)
    requires
        cancels::<A>(),
        all_finite(a),
        k <= overlap_to(a.len() as int, s) - overlap_from(s),
        forall|x: int| overlap_from(s) <= x < overlap_to(a.len() as int, s) ==> #[trigger] a[x] == f[x + s],
        difference_sum::<A>(a, f, s, k, acc),
    ensures
        acc == ieee::ZERO,
    decreases k,
{
    if k > 0 {
        let x = overlap_from(s) + k - 1;
        let prev = choose|prev: u64|
            difference_sum::<A>(a, f, s, k - 1, prev) && #[trigger] difference_added::<A>(
                prev,
                a[overlap_from(s) + k - 1],
                f[overlap_from(s) + k - 1 + s],
                acc,
            );
        lemma_equal_columns_add_nothing::<A>(a, f, s, k - 1, prev);
        assert(a[x] == f[x + s]);
        assert(difference_added::<A>(ieee::ZERO, a[x], a[x], acc));
    }
}

/// Where `b` mirrors `a` about a column, flipping `b` and shifting it by the
/// shift that stands for that column leaves no error.
pub proof fn law_mirrored_profiles_match<A: FloatUnit>(a: Seq<u64>, b: Seq<u64>, twice_c: int, e: u64)
    requires
        cancels::<A>(),
        a.len() <= isize::MAX,
        all_finite(a),
        mirrored(a, b, twice_c),
        matching_error::<A>(a, b.reverse(), shift_of(a.len() as int, twice_c), e),
    ensures
        e == ieee::ZERO,
{
    let s = shift_of(a.len() as int, twice_c);
    let f = b.reverse();
    law_flipping_turns_the_mirror_into_a_shift(a, b, twice_c);
    let (total, n) = choose|total: u64, n: u64|
        #[trigger] difference_sum::<A>(a, f, s, overlap_to(a.len() as int, s) - overlap_from(s), total)
            && #[trigger] call_ensures(A::offset, (overlap_count(a.len() as int, s) as isize,), n) && call_ensures(
            A::over,
            (total, n),
            e,
        );
    lemma_equal_columns_add_nothing::<A>(a, f, s, overlap_to(a.len() as int, s) - overlap_from(s), total);
    assert(overlap_count(a.len() as int, s) as isize >= 1);
}

proof fn lemma_difference_sum_sign<A: FloatUnit>(a: Seq<u64>, f: Seq<u64>, s: int, k: int, acc: u64)
    requires
        keeps_signs::<A>(),
        a.len() == f.len(),
        all_finite(a),
        all_finite(f),
        k <= overlap_to(a.len() as int, s) - overlap_from(s),
        difference_sum::<A>(a, f, s, k, acc),
    ensures
        not_negative(acc),
    decreases k,
{
    if k > 0 {
        let x = overlap_from(s) + k - 1;
        let prev = choose|prev: u64|
            difference_sum::<A>(a, f, s, k - 1, prev) && #[trigger] difference_added::<A>(
                prev,
                a[overlap_from(s) + k - 1],
                f[overlap_from(s) + k - 1 + s],
                acc,
            );
        lemma_difference_sum_sign::<A>(a, f, s, k - 1, prev);
        assert(finite(a[x]) && finite(f[x + s]));
        assert(difference_added::<A>(prev, a[x], f[x + s], acc));
    }
}

/// The shift error of finite profiles is not negative, and no NaN.
pub proof fn law_shift_error_is_not_negative<A: FloatUnit>(a: Seq<u64>, f: Seq<u64>, s: int, e: u64)
    requires
        keeps_signs::<A>(),
        a.len() == f.len(),
        a.len() <= isize::MAX,
        all_finite(a),
        all_finite(f),
        matching_error::<A>(a, f, s, e),
    ensures
        not_negative(e),
{
    let (total, n) = choose|total: u64, n: u64|
        #[trigger] difference_sum::<A>(a, f, s, overlap_to(a.len() as int, s) - overlap_from(s), total)
            && #[trigger] call_ensures(A::offset, (overlap_count(a.len() as int, s) as isize,), n) && call_ensures(
            A::over,
            (total, n),
            e,
        );
    lemma_difference_sum_sign::<A>(a, f, s, overlap_to(a.len() as int, s) - overlap_from(s), total);
    assert(overlap_count(a.len() as int, s) as isize >= 1);
}

/// A shift that leaves no column to compare has no error.
pub proof fn law_no_overlap_leaves_no_error<A: FloatUnit>(a: Seq<u64>, f: Seq<u64>, s: int, e: u64)
    requires
        cancels::<A>(),
        a.len() <= isize::MAX,
        s >= a.len() || -s >= a.len(),
        matching_error::<A>(a, f, s, e),
    ensures
        e == ieee::ZERO,
{
    let (total, n) = choose|total: u64, n: u64|
        #[trigger] difference_sum::<A>(a, f, s, overlap_to(a.len() as int, s) - overlap_from(s), total)
            && #[trigger] call_ensures(A::offset, (overlap_count(a.len() as int, s) as isize,), n) && call_ensures(
            A::over,
            (total, n),
            e,
        );
    assert(total == ieee::ZERO);
    assert(overlap_count(a.len() as int, s) as isize >= 1);
}

/// Where `b` mirrors `a` about a column, no searched shift fits better than the
/// one that stands for that column: its error is zero, and so is that of the
/// shift that is found.
pub proof fn law_no_shift_fits_better<A: FloatUnit>(a: Seq<u64>, b: Seq<u64>, twice_c: int, m: int, errors: Seq<u64>)
    requires
        cancels::<A>(),
        keeps_signs::<A>(),
        a.len() <= isize::MAX,
        all_finite(a),
        all_finite(b),
        mirrored(a, b, twice_c),
        -m <= shift_of(a.len() as int, twice_c) <= m,
        error_curve::<A>(a, b.reverse(), m, errors),
    ensures
        errors[shift_of(a.len() as int, twice_c) + m] == ieee::ZERO,
        forall|k: int| 0 <= k <= 2 * m ==> total_place(ieee::ZERO) <= total_place(#[trigger] errors[k]),
        forall|k: int| #[trigger]
            first_least(errors, k) ==> errors[k] == ieee::ZERO && k <= shift_of(a.len() as int, twice_c) + m,
{
    let s = shift_of(a.len() as int, twice_c);
    let f = b.reverse();
    assert(matching_error::<A>(a, f, (s + m) - m, errors[s + m]));
    assert(s + m - m == s);
    law_mirrored_profiles_match::<A>(a, b, twice_c, errors[s + m]);
    assert(all_finite(f)) by {
        assert forall|x: int| 0 <= x < f.len() implies finite(#[trigger] f[x]) by {
            assert(f[x] == b[b.len() - 1 - x]);
        }
    }
    assert forall|k: int| 0 <= k <= 2 * m implies total_place(ieee::ZERO) <= total_place(#[trigger] errors[k]) by {
        law_shift_error_is_not_negative::<A>(a, f, k - m, errors[k]);
    }
    assert forall|k: int| #[trigger] first_least(errors, k) implies errors[k] == ieee::ZERO && k <= s + m by {
        assert(total_place(errors[k]) <= total_place(errors[s + m]));
        assert(total_place(ieee::ZERO) <= total_place(errors[k]));
        if s + m < k {
            assert(total_place(errors[k]) < total_place(errors[s + m]));
        }
    }
}

/// Whether the axis column of a shift does not round.
pub open spec fn axis_exact<A: FloatUnit>(w: usize, s: u64) -> bool {
    &&& count_exact::<A>(w)
    &&& forall|n: u64| #[trigger] call_ensures(A::count, (w,), n) ==> minus_exact::<A>(n, ieee::ONE)
    &&& forall|last: u64| #[trigger] last_place::<A>(w, last) ==> minus_exact::<A>(last, s)
    &&& forall|last: u64, d: u64| #[trigger]
        last_place::<A>(w, last) && #[trigger] call_ensures(A::minus, (last, s), d) ==> over_exact::<A>(d, ieee::TWO)
}

/// Twice the axis column of a shift is the last column less the shift, where
/// nothing rounds.
proof fn lemma_axis_value<A: FloatUnit>(w: usize, s: u64, c: u64)
    requires
        axis_exact::<A>(w, s),
        axis_column::<A>(w, s, c),
    ensures
        2 * scaled(c) == (w - 1) * scaled(ieee::ONE) - scaled(s),
{
    lemma_scaled_constants();
    let u = scaled(ieee::ONE);
    let (last, d) = choose|last: u64, d: u64|
        #[trigger] last_place::<A>(w, last) && #[trigger] call_ensures(A::minus, (last, s), d) && call_ensures(
            A::over,
            (d, ieee::TWO),
            c,
        );
    let n = choose|n: u64| #[trigger] call_ensures(A::count, (w,), n) && call_ensures(A::minus, (n, ieee::ONE), last);
    assert((w - 1) * u == w * u - u) by (nonlinear_arith);
    let (vc, vd) = (scaled(c), scaled(d));
    assert(2 * vc == vd) by (nonlinear_arith)
        requires
            vc * scaled(ieee::TWO) == vd * u,
            scaled(ieee::TWO) == 2 * u,
            u > 0,
    ;
}

/// Whether the profiles of a pair at a band mirror each other about a column
/// that the search reaches, no other shift fits them as well, and nothing
/// rounds in what is made of the errors.
pub open spec fn mirrored_at_band<A: FloatUnit>(stack: &Stack, pair: Pair, y0: int, band: int, max_shift: usize, twice_c: int) -> bool {
    let w = stack.width as int;
    let m = search_radius(w, max_shift);
    &&& -m <= shift_of(w, twice_c) <= m
    &&& forall|a: Seq<u64>, f: Seq<u64>| #[trigger]
        pair_profiles::<A>(stack, pair, y0, band, a, f) ==> all_finite(a) && all_finite(f) && mirrored(a, f.reverse(), twice_c)
    &&& forall|a: Seq<u64>, f: Seq<u64>, errors: Seq<u64>| #[trigger]
        pair_profiles::<A>(stack, pair, y0, band, a, f) && #[trigger] error_curve::<A>(a, f, m, errors) ==> only_fit(
            errors,
            shift_of(w, twice_c) + m,
        ) && refinement_exact::<A>(errors, m)
    &&& forall|a: Seq<u64>, f: Seq<u64>, s: u64| #[trigger]
        pair_profiles::<A>(stack, pair, y0, band, a, f) && #[trigger] aligning_shift::<A>(a, f, max_shift, s) ==> axis_exact::<A>(
            stack.width,
            s,
        )
}

/// Whether no error but the one at `k` is zero.
pub open spec fn only_fit(errors: Seq<u64>, k: int) -> bool {
    forall|j: int| 0 <= j < errors.len() && j != k ==> #[trigger] errors[j] != ieee::ZERO
}

/// The axis is recovered: where the profiles of a pair mirror each other about
/// a column, the axis column that comes out is within a quarter of a pixel of
/// it.
pub proof fn law_axis_is_recovered<A: FloatUnit>(
    stack: &Stack,
    pair: Pair,
    y0: int,
    band: int,
    max_shift: usize,
    twice_c: int,
    c: u64,
)
    requires
        cancels::<A>(),
        keeps_signs::<A>(),
        stack.width <= isize::MAX,
        mirrored_at_band::<A>(stack, pair, y0, band, max_shift, twice_c),
        pair_axis::<A>(stack, pair, y0, band, max_shift, c),
    ensures
        -scaled(ieee::ONE) <= 4 * scaled(c) - 2 * (twice_c * scaled(ieee::ONE)) <= scaled(ieee::ONE),
{
    let w = stack.width as int;
    let m = search_radius(w, max_shift);
    let u = scaled(ieee::ONE);
    let (a, f, s) = choose|a: Seq<u64>, f: Seq<u64>, s: u64|
        #[trigger] pair_profiles::<A>(stack, pair, y0, band, a, f) && #[trigger] aligning_shift::<A>(a, f, max_shift, s)
            && axis_column::<A>(stack.width, s, c);
    let errors = choose|errors: Seq<u64>| #[trigger] error_curve::<A>(a, f, m, errors) && refined_shift::<A>(errors, m, s);
    let b = f.reverse();
    assert(b.reverse() =~= f);
    assert(all_finite(b)) by {
        assert forall|x: int| 0 <= x < b.len() implies finite(#[trigger] b[x]) by {
            assert(b[x] == f[f.len() - 1 - x]);
        }
    }
    law_no_shift_fits_better::<A>(a, b, twice_c, m, errors);
    law_refined_shift_is_near_the_least::<A>(errors, m, s);
    let k = choose|k: int| #[trigger] first_least(errors, k) && near_least(errors, m, k, s);
    assert(k == shift_of(w, twice_c) + m);
    lemma_axis_value::<A>(stack.width, s, c);
    assert((w - 1 - twice_c) * u == (w - 1) * u - twice_c * u) by (nonlinear_arith);
}

pub proof fn lemma_sum_of_errors<A: FloatUnit>(each: Seq<u64>, k: int, e: u64)
    requires
        cancels::<A>(),
        keeps_signs::<A>(),
        adds_to_nothing::<A>(),
        1 <= k <= each.len(),
        forall|j: int| 0 <= j < k ==> not_negative(#[trigger] each[j]),
        sum::<A>(each, k, e),
    ensures
        not_negative(e),
        (forall|j: int| 0 <= j < k ==> #[trigger] each[j] == ieee::ZERO) ==> e == ieee::ZERO,
    decreases k,
{
    let prev = choose|prev: u64| sum::<A>(each, k - 1, prev) && #[trigger] call_ensures(A::plus, (prev, each[k - 1]), e);
    assert(not_negative(each[k - 1]));
    if k == 1 {
        assert(prev == ieee::NEG_ZERO);
        assert(e == each[0]);
    } else {
        lemma_sum_of_errors::<A>(each, k - 1, prev);
    }
}

/// Whether the profiles of all the pairs at a band mirror each other about one
/// column that the search reaches, no other shift fits them as well together,
/// and nothing rounds in what is made of the errors.
pub open spec fn all_mirrored_at_band<A: FloatUnit>(
    stack: &Stack,
    pairs: Seq<Pair>,
    y0: int,
    band: int,
    max_shift: usize,
    twice_c: int,
) -> bool {
    let w = stack.width as int;
    let m = search_radius(w, max_shift);
    &&& -m <= shift_of(w, twice_c) <= m
    &&& forall|j: int, a: Seq<u64>, f: Seq<u64>|
        0 <= j < pairs.len() && #[trigger] pair_profiles::<A>(stack, pairs[j], y0, band, a, f) ==> all_finite(a) && all_finite(f)
            && mirrored(a, f.reverse(), twice_c)
    &&& forall|profiles: Seq<Profiles>, errors: Seq<u64>| #[trigger]
        all_profiles::<A>(stack, pairs, y0, band, profiles) && #[trigger] consensus_curve::<A>(profiles, m, errors) ==> only_fit(
            errors,
            shift_of(w, twice_c) + m,
        ) && refinement_exact::<A>(errors, m)
    &&& forall|profiles: Seq<Profiles>, errors: Seq<u64>, s: u64| #[trigger]
        all_profiles::<A>(stack, pairs, y0, band, profiles) && #[trigger] consensus_curve::<A>(profiles, m, errors)
            && #[trigger] refined_shift::<A>(errors, m, s) ==> axis_exact::<A>(stack.width, s)
}

/// The error that the pairs sum up is not negative, and zero at the shift of
/// the column that all of them mirror about.
proof fn lemma_consensus_error<A: FloatUnit>(
    stack: &Stack,
    pairs: Seq<Pair>,
    y0: int,
    band: int,
    max_shift: usize,
    twice_c: int,
    profiles: Seq<Profiles>,
    s: int,
    e: u64,
)
    requires
        cancels::<A>(),
        keeps_signs::<A>(),
        adds_to_nothing::<A>(),
        stack.width <= isize::MAX,
        pairs.len() > 0,
        all_mirrored_at_band::<A>(stack, pairs, y0, band, max_shift, twice_c),
        all_profiles::<A>(stack, pairs, y0, band, profiles),
        consensus_error::<A>(profiles, s, e),
    ensures
        not_negative(e),
        s == shift_of(stack.width as int, twice_c) ==> e == ieee::ZERO,
{
    let each = choose|each: Seq<u64>| #[trigger] single_errors::<A>(profiles, s, each) && sum::<A>(each, each.len() as int, e);
    assert forall|j: int| 0 <= j < each.len() implies not_negative(#[trigger] each[j]) && (s == shift_of(
        stack.width as int,
        twice_c,
    ) ==> each[j] == ieee::ZERO) by {
        let (a, f) = (profiles[j].0, profiles[j].1);
        assert(pair_profiles::<A>(stack, pairs[j], y0, band, a, f));
        assert(matching_error::<A>(profiles[j].0, profiles[j].1, s, each[j]));
        law_shift_error_is_not_negative::<A>(a, f, s, each[j]);
        if s == shift_of(stack.width as int, twice_c) {
            assert(f.reverse().reverse() =~= f);
            law_mirrored_profiles_match::<A>(a, f.reverse(), twice_c, each[j]);
        }
    }
    lemma_sum_of_errors::<A>(each, each.len() as int, e);
}

/// The consensus recovers the axis: where the profiles of all the pairs mirror
/// each other about one column, the axis column that comes out is within a
/// quarter of a pixel of it.
pub proof fn law_consensus_recovers_the_axis<A: FloatUnit>(
    stack: &Stack,
    pairs: Seq<Pair>,
    y0: int,
    band: int,
    max_shift: usize,
    twice_c: int,
    c: u64,
)
    requires
        cancels::<A>(),
        keeps_signs::<A>(),
        adds_to_nothing::<A>(),
        stack.width <= isize::MAX,
        pairs.len() > 0,
        all_mirrored_at_band::<A>(stack, pairs, y0, band, max_shift, twice_c),
        consensus_axis::<A>(stack, pairs, y0, band, max_shift, c),
    ensures
        -scaled(ieee::ONE) <= 4 * scaled(c) - 2 * (twice_c * scaled(ieee::ONE)) <= scaled(ieee::ONE),
{
    let w = stack.width as int;
    let m = search_radius(w, max_shift);
    let u = scaled(ieee::ONE);
    let at = shift_of(w, twice_c) + m;
    let (profiles, errors, s) = choose|profiles: Seq<Profiles>, errors: Seq<u64>, s: u64|
        #[trigger] all_profiles::<A>(stack, pairs, y0, band, profiles) && #[trigger] consensus_curve::<A>(profiles, m, errors)
            && #[trigger] refined_shift::<A>(errors, m, s) && axis_column::<A>(stack.width, s, c);
    assert forall|k: int| 0 <= k <= 2 * m implies total_place(ieee::ZERO) <= total_place(#[trigger] errors[k]) && (k == at
        ==> errors[k] == ieee::ZERO) by {
        lemma_consensus_error::<A>(stack, pairs, y0, band, max_shift, twice_c, profiles, k - m, errors[k]);
    }
    law_refined_shift_is_near_the_least::<A>(errors, m, s);
    let k = choose|k: int| #[trigger] first_least(errors, k) && near_least(errors, m, k, s);
    assert(k == at) by {
        assert(total_place(errors[k]) <= total_place(errors[at]));
        assert(total_place(ieee::ZERO) <= total_place(errors[k]));
    }
    lemma_axis_value::<A>(stack.width, s, c);
    assert((w - 1 - twice_c) * u == (w - 1) * u - twice_c * u) by (nonlinear_arith);
}

} // verus!
