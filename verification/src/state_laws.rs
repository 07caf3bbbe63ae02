//! What becomes of the state behind the window.
use crate::algorithms::Params;
use crate::app;
use crate::app::{
    estimate_folded, load_folded, next_look, pairs_of, samples_as, save_folded, Limits, TiltCorApp,
};
use crate::fit::Estimate;
use crate::ieee::nan;
use crate::pair_laws::{angles_fit, lemma_lists_those_within, lists_those_within};
use crate::stack::Stack;
use crate::unit::{rounds_only_if_needed, FloatUnit};
use vstd::prelude::*;

verus! {

/// A stack that was loaded is what the window then works on: its size, its
/// settings, all its opposite pairs within the tolerance, and nothing of what was
/// found before.
pub proof fn law_loaded_stack_starts_afresh<A: FloatUnit>(before: TiltCorApp, stack: &Stack, after: TiltCorApp, p: Params)
    requires
        rounds_only_if_needed::<A>(),
        stack.wf(),
        before.loading,
        angles_fit(stack.angles_deg@),
        !nan(before.tol_deg),
        load_folded::<A>(before, Some(Ok(stack)), after),
        call_ensures(Params::defaults_for, (stack.height, stack.width), p),
    ensures
        !after.loading,
        after.uses(stack),
        samples_as(after, p),
        lists_those_within(stack.angles_deg@, before.tol_deg, after.pairs@),
        after.pair_idx == 0,
        after.estimates@.len() == 0,
        after.adopted is None,
        after.global_cor is None,
        after.est_error is None,
        after.save_status is None,
        after.image is None,
        after.tol_deg == before.tol_deg,
        after.view == before.view,
        after.saving == before.saving,
        after.apply_pending == before.apply_pending,
{
    lemma_lists_those_within::<A>(stack.angles_deg@, before.tol_deg, after.pairs@);
}

/// The settings that a stack starts with leave out the same number of rows at
/// either end, a twentieth of them, and reach a third of the width.
pub proof fn law_defaults_are_even(height: usize, width: usize, p: Params)
    requires
        height > 0,
        call_ensures(Params::defaults_for, (height, width), p),
    ensures
        p.y_top <= p.y_bottom < height,
        p.y_top == height - 1 - p.y_bottom,
        20 * p.y_top <= height < 20 * (p.y_top + 1),
        60 * p.ystep <= height < 60 * (p.ystep + 1) || p.ystep == 1 && height < 60,
        p.band == 5,
        3 * p.max_shift <= width < 3 * (p.max_shift + 1) || p.max_shift == 10 && width < 30,
{
}

/// A failed load says why, and leaves everything else as it was.
pub proof fn law_failed_load_is_told<A: FloatUnit>(before: TiltCorApp, e: String, after: TiltCorApp)
    requires
        before.loading,
        load_folded::<A>(before, Some(Err(e)), after),
    ensures
        !after.loading,
        after.load_error == Some(e),
        (TiltCorApp { loading: true, load_error: before.load_error, ..after }) == before,
{
}

/// A new estimate is adopted at once, behind those that were there, and the
/// image has to be made anew.
pub proof fn law_new_estimate_is_adopted(before: TiltCorApp, est: Estimate, global: Option<u64>, after: TiltCorApp)
    requires
        before.estimating,
        estimate_folded(before, Some(Ok((est, global))), after),
        before.estimates@.len() <= usize::MAX,
    ensures
        !after.estimating,
        after.adopted matches Some(k) && after.estimates@[k as int] == est && k == before.estimates@.len(),
        after.estimates@.len() == before.estimates@.len() + 1,
        forall|k: int| 0 <= k < before.estimates@.len() ==> after.estimates@[k] == #[trigger] before.estimates@[k],
        after.global_cor == global,
        after.image is None,
        (after.size, after.pairs, after.pair_idx, after.view, after.saving) == (
            before.size,
            before.pairs,
            before.pair_idx,
            before.view,
            before.saving,
        ),
{
}

/// A failed estimation says why, and leaves the estimates and what is adopted as
/// they were.
pub proof fn law_failed_estimation_is_told(before: TiltCorApp, e: String, after: TiltCorApp)
    requires
        before.estimating,
        estimate_folded(before, Some(Err(e)), after),
    ensures
        !after.estimating,
        after.est_error == Some(e),
        (after.estimates, after.adopted, after.global_cor, after.image) == (
            before.estimates,
            before.adopted,
            before.global_cor,
            before.image,
        ),
{
}

/// The outcome of a save is told, and nothing else changes.
pub proof fn law_save_is_told(before: TiltCorApp, outcome: Result<String, String>)
    requires
        before.saving,
    ensures
        !save_folded(before, Some(outcome)).saving,
        save_folded(before, Some(outcome)).save_status == Some(outcome),
        (TiltCorApp { saving: true, save_status: before.save_status, ..save_folded(before, Some(outcome)) }) == before,
{
}

/// What comes of a job that does not run is not heeded, and as long as nothing
/// has come of one nothing changes.
pub proof fn law_only_running_jobs_are_heeded<A: FloatUnit>(
    before: TiltCorApp,
    loaded: Option<Result<&Stack, String>>,
    estimated: Option<Result<(Estimate, Option<u64>), String>>,
    saved: Option<Result<String, String>>,
    after_load: TiltCorApp,
    after_estimate: TiltCorApp,
)
    requires
        load_folded::<A>(before, loaded, after_load),
        estimate_folded(before, estimated, after_estimate),
    ensures
        !before.loading || loaded is None ==> after_load == before,
        !before.estimating || estimated is None ==> after_estimate == before,
        !before.saving || saved is None ==> save_folded(before, saved) == before,
{
}

/// The window looks again exactly while something is running, at least three
/// times a second, and no later when more is running.
pub proof fn law_looks_again_while_something_runs(loading: bool, estimating: bool, saving: bool)
    ensures
        next_look(loading, estimating, saving) is Some <==> loading || estimating || saving,
        next_look(loading, estimating, saving) matches Some(t) ==> 200 <= t <= 300,
        loading || estimating ==> next_look(loading, estimating, saving) == next_look(true, true, true),
{
}

/// Another tolerance lists exactly the pairs within it.
pub proof fn law_pairs_follow_the_tolerance<A: FloatUnit>(stack: &Stack, tol: u64, after: TiltCorApp)
    requires
        rounds_only_if_needed::<A>(),
        angles_fit(stack.angles_deg@),
        !nan(tol),
        pairs_of::<A>(stack.angles_deg@, tol, after.pairs@),
    ensures
        lists_those_within(stack.angles_deg@, tol, after.pairs@),
{
    lemma_lists_those_within::<A>(stack.angles_deg@, tol, after.pairs@);
}

/// Within the limits the rows can be settled, and stay within the stack.
pub proof fn law_limits_leave_two_rows(height: usize, width: usize, r: Limits)
    requires
        height >= 2,
        call_ensures(app::limits, (height, width), r),
    ensures
        r.y_top + 1 == r.y_bottom,
        r.y_bottom + 1 == height,
        2 * r.ystep <= height < 2 * (r.ystep + 1),
        2 * r.max_shift <= width < 2 * (r.max_shift + 1),
{
}

/// The difference is taken about the line of the adopted estimate, and about the
/// middle where none is adopted.
pub proof fn law_image_is_about_the_adopted_axis(s: &TiltCorApp)
    requires
        s.wf(),
    ensures
        s.adopted is None <==> s.adopted_axis() is None,
        forall|k: int|
            s.adopted == Some(k as usize) && 0 <= k < s.estimates@.len() && k <= usize::MAX ==> s.adopted_axis() == Some(
                ((#[trigger] s.estimates@[k]).slope, s.estimates@[k].intercept),
            ),
{
}

/// A correction can be requested exactly while an estimate is adopted and
/// neither a correction nor an estimation is under way.
pub proof fn law_correction_needs_an_adopted_estimate(s: &TiltCorApp, r: bool)
    requires
        call_ensures(TiltCorApp::can_apply, (s,), r),
    ensures
        r ==> s.adopted is Some && s.apply_pending == 0 && !s.saving && !s.estimating,
        s.adopted is Some && s.apply_pending == 0 && !s.saving && !s.estimating ==> r,
{
}

} // verus!
