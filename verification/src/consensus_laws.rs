//! How the consensus relates to the registration of a single pair.
use crate::algorithms::{
    all_profiles, axis_column, bands_of, consensus, consensus_axis, consensus_columns, consensus_curve, consensus_error,
    law_bands_stay_in_the_row_range, multi_method, pair_axis, pair_columns, pair_profiles, registered, single_errors,
    single_method, Params, Profiles,
};
use crate::fit::{estimated, Estimate};
use crate::ieee;
use crate::ieee::nan;
use crate::pairs::Pair;
use crate::profile::{aligning_shift, degenerate, error_curve, matching_error, refined_shift, search_radius, sum};
use crate::recovery_laws::{all_finite, law_shift_error_is_not_negative};
use crate::repeat_laws::{agree, law_bands_repeat, law_estimate_repeats, law_pair_columns_repeat};
use crate::stack::Stack;
use crate::unit::{adds_to_nothing, keeps_signs, repeats, FloatUnit};
use vstd::prelude::*;

verus! {

/// Whether the errors of the shifts `-m..=m` of a pair are numbers at every
/// band of the stack.
pub open spec fn errors_are_numbers<A: FloatUnit>(stack: &Stack, pair: Pair, band: int, m: int) -> bool {
    forall|y0: int, a: Seq<u64>, f: Seq<u64>, s: int, e: u64|
        0 <= y0 <= stack.height - band && -m <= s <= m && #[trigger] pair_profiles::<A>(stack, pair, y0, band, a, f)
            && #[trigger] matching_error::<A>(a, f, s, e) ==> !nan(e)
}

/// The errors of a pair are numbers where its profiles are finite, with a unit
/// that keeps the signs.
pub proof fn law_finite_profiles_have_numbers_for_errors<A: FloatUnit>(stack: &Stack, pair: Pair, band: int, m: int)
    requires
        keeps_signs::<A>(),
        stack.width <= isize::MAX,
        forall|y0: int, a: Seq<u64>, f: Seq<u64>|
            0 <= y0 <= stack.height - band && #[trigger] pair_profiles::<A>(stack, pair, y0, band, a, f) ==> all_finite(a)
                && all_finite(f),
    ensures
        errors_are_numbers::<A>(stack, pair, band, m),
{
    assert forall|y0: int, a: Seq<u64>, f: Seq<u64>, s: int, e: u64|
        0 <= y0 <= stack.height - band && -m <= s <= m && #[trigger] pair_profiles::<A>(stack, pair, y0, band, a, f)
            && #[trigger] matching_error::<A>(a, f, s, e) implies !nan(e) by {
        law_shift_error_is_not_negative::<A>(a, f, s, e);
    }
}

proof fn lemma_error_of_one<A: FloatUnit>(a: Seq<u64>, f: Seq<u64>, s: int, e: u64)
    requires
        adds_to_nothing::<A>(),
        forall|e: u64| #[trigger] matching_error::<A>(a, f, s, e) ==> !nan(e),
    ensures
        consensus_error::<A>(seq![(a, f)], s, e) <==> matching_error::<A>(a, f, s, e),
{
    let one = seq![(a, f)];
    if consensus_error::<A>(one, s, e) {
        let each = choose|each: Seq<u64>| #[trigger] single_errors::<A>(one, s, each) && sum::<A>(each, each.len() as int, e);
        assert(matching_error::<A>(one[0].0, one[0].1, s, each[0]));
        let prev = choose|prev: u64| sum::<A>(each, 0, prev) && #[trigger] call_ensures(A::plus, (prev, each[0]), e);
        assert(prev == ieee::NEG_ZERO);
    }
    if matching_error::<A>(a, f, s, e) {
        let each = seq![e];
        assert(sum::<A>(each, 0, ieee::NEG_ZERO));
        assert(call_ensures(A::plus, (ieee::NEG_ZERO, each[1 - 1]), e));
        assert(sum::<A>(each, 1, e));
        assert(single_errors::<A>(one, s, each));
    }
}

proof fn lemma_curve_of_one<A: FloatUnit>(a: Seq<u64>, f: Seq<u64>, m: int, errors: Seq<u64>)
    requires
        adds_to_nothing::<A>(),
        forall|s: int, e: u64| -m <= s <= m && #[trigger] matching_error::<A>(a, f, s, e) ==> !nan(e),
    ensures
        consensus_curve::<A>(seq![(a, f)], m, errors) <==> error_curve::<A>(a, f, m, errors),
{
    assert forall|k: int| 0 <= k <= 2 * m implies (consensus_error::<A>(seq![(a, f)], k - m, #[trigger] errors[k])
        <==> matching_error::<A>(a, f, k - m, errors[k])) by {
        lemma_error_of_one::<A>(a, f, k - m, errors[k]);
    }
}

/// At every band the consensus of one pair gives the axis column that the pair
/// gives alone.
pub proof fn law_axis_of_one_pair<A: FloatUnit>(stack: &Stack, pair: Pair, y0: int, band: int, max_shift: usize, c: u64)
    requires
        adds_to_nothing::<A>(),
        errors_are_numbers::<A>(stack, pair, band, search_radius(stack.width as int, max_shift)),
        0 <= y0 <= stack.height - band,
    ensures
        consensus_axis::<A>(stack, seq![pair], y0, band, max_shift, c) <==> pair_axis::<A>(stack, pair, y0, band, max_shift, c),
{
    let m = search_radius(stack.width as int, max_shift);
    if consensus_axis::<A>(stack, seq![pair], y0, band, max_shift, c) {
        let (profiles, errors, s) = choose|profiles: Seq<Profiles>, errors: Seq<u64>, s: u64|
            #[trigger] all_profiles::<A>(stack, seq![pair], y0, band, profiles) && #[trigger] consensus_curve::<A>(
                profiles,
                m,
                errors,
            ) && #[trigger] refined_shift::<A>(errors, m, s) && axis_column::<A>(stack.width, s, c);
        let (a, f) = profiles[0];
        assert(pair_profiles::<A>(stack, seq![pair][0], y0, band, profiles[0].0, profiles[0].1));
        assert(profiles =~= seq![(a, f)]);
        lemma_curve_of_one::<A>(a, f, m, errors);
        assert(aligning_shift::<A>(a, f, max_shift, s));
    }
    if pair_axis::<A>(stack, pair, y0, band, max_shift, c) {
        let (a, f, s) = choose|a: Seq<u64>, f: Seq<u64>, s: u64|
            #[trigger] pair_profiles::<A>(stack, pair, y0, band, a, f) && #[trigger] aligning_shift::<A>(a, f, max_shift, s)
                && axis_column::<A>(stack.width, s, c);
        let errors = choose|errors: Seq<u64>| #[trigger] error_curve::<A>(a, f, m, errors) && refined_shift::<A>(errors, m, s);
        lemma_curve_of_one::<A>(a, f, m, errors);
        assert(all_profiles::<A>(stack, seq![pair], y0, band, seq![(a, f)]));
    }
}

proof fn lemma_columns_of_one<A: FloatUnit>(stack: &Stack, pair: Pair, params: Params, list: Seq<(usize, u64)>, columns: Seq<(u64, u64)>)
    requires
        adds_to_nothing::<A>(),
        errors_are_numbers::<A>(
            stack,
            pair,
            params.band_rows() as int,
            search_radius(stack.width as int, params.max_shift),
        ),
        stack.height > 0,
        bands_of::<A>(stack.height, params, list),
    ensures
        consensus_columns::<A>(stack, seq![pair], params, list, columns) <==> pair_columns::<A>(stack, pair, params, list, columns),
{
    if !degenerate(stack.width as int, params.max_shift) {
        let band = params.band_rows() as int;
        assert forall|k: int| 0 <= k < list.len() implies (consensus_axis::<A>(
            stack,
            seq![pair],
            list[k].0 as int,
            band,
            params.max_shift,
            (#[trigger] columns[k]).1,
        ) <==> pair_axis::<A>(stack, pair, list[k].0 as int, band, params.max_shift, columns[k].1)) by {
            law_bands_stay_in_the_row_range::<A>(stack.height, params, list, k);
            law_axis_of_one_pair::<A>(stack, pair, list[k].0 as int, band, params.max_shift, columns[k].1);
        }
    }
}

/// The consensus of one pair agrees with the registration of that pair, with a
/// unit that repeats its results and gives a number back when it is added to
/// `-0.0`: both are errors, the same one, or the estimates are the same but for
/// what they are called. (Where the shift errors are numbers.)
pub proof fn law_consensus_of_one_pair<A: FloatUnit>(
    stack: &Stack,
    pair: Pair,
    params: Params,
    a: Result<Estimate, String>,
    b: Result<Estimate, String>,
)
    requires
        repeats::<A>(),
        adds_to_nothing::<A>(),
        stack.wf(),
        errors_are_numbers::<A>(
            stack,
            pair,
            params.band_rows() as int,
            search_radius(stack.width as int, params.max_shift),
        ),
        registered::<A>(stack, pair, params, a),
        consensus::<A>(stack, seq![pair], params, b),
    ensures
        agree(a, b),
{
    let h = stack.height;
    let (list, columns, method) = choose|list: Seq<(usize, u64)>, columns: Seq<(u64, u64)>, method: Seq<char>|
        #[trigger] bands_of::<A>(stack.height, params, list) && #[trigger] pair_columns::<A>(stack, pair, params, list, columns)
            && #[trigger] single_method::<A>(pair, method) && estimated::<A>(method, stack.height, columns, a);
    let one = seq![pair];
    let (others, same) = choose|list: Seq<(usize, u64)>, columns: Seq<(u64, u64)>|
        #[trigger] bands_of::<A>(stack.height, params, list) && #[trigger] consensus_columns::<A>(
            stack,
            one,
            params,
            list,
            columns,
        ) && estimated::<A>(multi_method(one.len()), stack.height, columns, b);
    law_bands_repeat::<A>(h, params, list, others);
    lemma_columns_of_one::<A>(stack, pair, params, list, same);
    law_pair_columns_repeat::<A>(stack, pair, params, list, columns, same);
    assert(columns.len() <= usize::MAX) by {
        if list.len() > 0 {
            let n = list.len() - 1;
            assert(list[n].0 == params.top(h) + n * params.step());
            assert(n <= n * params.step()) by (nonlinear_arith)
                requires
                    0 <= n,
                    1 <= params.step(),
            ;
            law_bands_stay_in_the_row_range::<A>(h, params, list, n);
        }
    }
    law_estimate_repeats::<A>(method, multi_method(one.len()), h, columns, a, b);
}

} // verus!
