//! The state behind the window: load a checkpoint, pick the opposite pair(s),
//! run the estimators, inspect the fit, then apply the tilt and save the
//! corrected stack (plus the center of rotation).
//!
//! The state decides what is to be done; the window does it (it loads, runs
//! the workers, draws) and folds the outcome back in. The stack itself is with
//! the window: the state keeps its size.
use crate::algorithms::Params;
use crate::correction;
use crate::correction::corrected;
use crate::fit::Estimate;
use crate::ieee;
use crate::job::EstimateJob;
use crate::pairs;
use crate::pairs::{is_opposite, lists, pair_precedes, rejected, Pair};
use crate::stack::Stack;
use crate::text;
use crate::unit::FloatUnit;
use crate::view;
use crate::view::{grayscale, shown, ImageView};
use vstd::prelude::*;

verus! {

/// What an image was made for: the pair, the view and the adopted estimate.
pub type ImageKey = (usize, u8, usize);

/// What is to be done about a requested correction.
#[derive(Clone, Copy, Debug, PartialEq, Eq, Structural)]
pub enum Step {
    Idle,
    /// Draw a frame with the spinner first.
    Repaint,
    /// Rotate and start the save.
    Apply,
}

/// The state behind the window.
#[derive(Debug)]
pub struct TiltCorApp {
    /// Projections, height and width of the stack in use.
    pub size: Option<(usize, usize, usize)>,
    pub loading: bool,
    pub load_error: Option<String>,
    /// Tolerance of the pairs, degrees (bits of a double).
    pub tol_deg: u64,
    pub pairs: Vec<Pair>,
    pub pair_idx: usize,
    pub y_top: usize,
    pub y_bottom: usize,
    pub ystep: usize,
    pub band: usize,
    pub max_shift: usize,
    pub estimating: bool,
    pub estimates: Vec<Estimate>,
    pub global_cor: Option<u64>,
    pub est_error: Option<String>,
    /// Index into `estimates` of the result the correction will use.
    pub adopted: Option<usize>,
    /// 1 = show the spinner this frame, 2 = rotate + start the save next
    /// frame (so the spinner is on screen during the heavy work).
    pub apply_pending: u8,
    pub saving: bool,
    pub save_status: Option<Result<String, String>>,
    pub view: ImageView,
    /// What the image on screen was made for; none when it has to be made
    /// anew.
    pub image: Option<ImageKey>,
}

/// Whether `pairs` are the opposite pairs of the angles: all of them, within
/// the tolerance, the most exact first.
pub open spec fn pairs_of<A: FloatUnit>(angles: Seq<u64>, tol: u64, pairs: Seq<Pair>) -> bool {
    &&& forall|k: int| 0 <= k < pairs.len() ==> is_opposite::<A>(angles, tol, #[trigger] pairs[k])
    &&& forall|k: int, l: int| 0 <= k < l < pairs.len() ==> pair_precedes(#[trigger] pairs[k], #[trigger] pairs[l])
    &&& forall|i: int, j: int| 0 <= i < j < angles.len() ==> #[trigger] lists(pairs, i, j) || rejected::<A>(angles, tol, i, j)
}

/// The row range, the step, the band and the shifts are those of `p`.
pub open spec fn samples_as(s: TiltCorApp, p: Params) -> bool {
    (s.y_top, s.y_bottom, s.ystep, s.band, s.max_shift) == (p.y_top, p.y_bottom, p.ystep, p.band, p.max_shift)
}

/// The settings that a stack of this size starts with.
pub open spec fn starts_with(s: TiltCorApp, height: usize, width: usize) -> bool {
    &&& s.y_top == height / 20
    &&& s.y_bottom == height - 1 - height / 20
    &&& s.ystep == crate::algorithms::at_least(height / 60, 1)
    &&& s.band == 5
    &&& s.max_shift == crate::algorithms::at_least(width / 3, 10)
}

/// `after` is `before` with a freshly loaded stack folded in: the parameters
/// and the pair list are reset to its geometry, and what was estimated or
/// saved before is forgotten.
pub open spec fn stack_adopted<A: FloatUnit>(before: TiltCorApp, stack: &Stack, after: TiltCorApp) -> bool {
    &&& starts_with(after, stack.height, stack.width)
    &&& pairs_of::<A>(stack.angles_deg@, before.tol_deg, after.pairs@)
    &&& after.estimates@ == Seq::<Estimate>::empty()
    &&& after == (TiltCorApp {
        size: Some((stack.n, stack.height, stack.width)),
        pairs: after.pairs,
        pair_idx: 0,
        y_top: after.y_top,
        y_bottom: after.y_bottom,
        ystep: after.ystep,
        band: after.band,
        max_shift: after.max_shift,
        estimates: after.estimates,
        global_cor: None,
        est_error: None,
        adopted: None,
        save_status: None,
        image: None,
        ..before
    })
}

/// `after` is `before` with the outcome of a load folded in, if there is one.
pub open spec fn load_folded<A: FloatUnit>(before: TiltCorApp, loaded: Option<Result<&Stack, String>>, after: TiltCorApp) -> bool {
    match loaded {
        Some(Ok(stack)) if before.loading => stack_adopted::<A>((TiltCorApp { loading: false, ..before }), stack, after),
        Some(Err(e)) if before.loading => after == (TiltCorApp { loading: false, load_error: Some(e), ..before }),
        _ => after == before,
    }
}

/// `after` is `before` with the outcome of an estimation folded in, if there
/// is one: a new estimate is adopted at once.
pub open spec fn estimate_folded(
    before: TiltCorApp,
    estimated: Option<Result<(Estimate, Option<u64>), String>>,
    after: TiltCorApp,
) -> bool {
    match estimated {
        Some(Ok((est, global))) if before.estimating => {
            &&& after.estimates@ == before.estimates@.push(est)
            &&& after == (TiltCorApp {
                estimating: false,
                global_cor: global,
                estimates: after.estimates,
                adopted: Some(before.estimates@.len() as usize),
                image: None,
                ..before
            })
        },
        Some(Err(e)) if before.estimating => after == (TiltCorApp { estimating: false, est_error: Some(e), ..before }),
        _ => after == before,
    }
}

/// The state with the outcome of a save folded in, if there is one.
pub open spec fn save_folded(before: TiltCorApp, saved: Option<Result<String, String>>) -> TiltCorApp {
    match saved {
        Some(result) if before.saving => TiltCorApp { saving: false, save_status: Some(result), ..before },
        _ => before,
    }
}

/// When to look again, in milliseconds, while jobs are running.
pub open spec fn next_look(loading: bool, estimating: bool, saving: bool) -> Option<u64> {
    if loading || estimating {
        Some(200)
    } else if saving {
        Some(300)
    } else {
        None
    }
}

/// The number of a view.
pub open spec fn view_number(view: ImageView) -> u8 {
    match view {
        ImageView::Proj0 => 0,
        ImageView::Proj180Flipped => 1,
        ImageView::Difference => 2,
    }
}

/// How far the settings can be moved.
#[derive(Clone, Copy, Debug, PartialEq, Eq, Structural)]
pub struct Limits {
    pub y_top: usize,
    pub y_bottom: usize,
    pub ystep: usize,
    pub band: usize,
    pub max_shift: usize,
}

/// How far the settings can be moved for a stack of this size.
pub fn limits(height: usize, width: usize) -> (r: Limits)
    requires
        height >= 2,
    ensures
        r == (Limits {
            y_top: (height - 2) as usize,
            y_bottom: (height - 1) as usize,
            ystep: height / 2,
            band: 50,
            max_shift: width / 2,
        }),
{
    Limits { y_top: height - 2, y_bottom: height - 1, ystep: height / 2, band: 50, max_shift: width / 2 }
}

impl TiltCorApp {
    /// A consistent state: the pairs are pairs of the stack in use, what is
    /// selected is there, and without a stack there is nothing to select.
    pub open spec fn wf(&self) -> bool {
        &&& self.size is None ==> self.pairs@.len() == 0 && self.estimates@.len() == 0 && !self.estimating
        &&& self.size matches Some((n, h, w)) ==> n > 0 && h > 0 && w > 0 && (forall|k: int|
            0 <= k < self.pairs@.len() ==> (#[trigger] self.pairs@[k]).i < n && self.pairs@[k].j < n)
        &&& self.pair_idx == 0 || self.pair_idx < self.pairs@.len()
        &&& self.adopted matches Some(k) ==> k < self.estimates@.len()
        &&& self.apply_pending <= 2
    }

    /// Whether `stack` is the stack in use.
    pub open spec fn uses(&self, stack: &Stack) -> bool {
        stack.wf() && self.size == Some((stack.n, stack.height, stack.width))
    }

    /// What the image has to be made for.
    pub open spec fn key(&self) -> ImageKey {
        (
            self.pair_idx,
            view_number(self.view),
            match self.adopted {
                Some(k) => (k + 1) as usize,
                None => 0,
            },
        )
    }

    /// The line of the adopted estimate.
    pub open spec fn adopted_axis(&self) -> Option<(u64, u64)> {
        match self.adopted {
            Some(k) => Some((self.estimates@[k as int].slope, self.estimates@[k as int].intercept)),
            None => None,
        }
    }

    /// Whether a correction can be requested now.
    pub open spec fn may_apply(&self) -> bool {
        self.adopted is Some && self.apply_pending == 0 && !self.saving && !self.estimating
    }

    /// The state of a window that was just opened; with a path, the stack is
    /// being loaded.
    pub fn new(path: &Option<String>) -> (r: Self)
        ensures
            r.wf(),
            r.size is None,
            r.loading == path is Some,
            r.load_error is None,
            r.tol_deg == ieee::HALF,
            r.pairs@.len() == 0,
            r.pair_idx == 0,
            samples_as(r, (Params { y_top: 0, y_bottom: 0, ystep: 1, band: 5, max_shift: 100 })),
            !r.estimating,
            r.estimates@.len() == 0,
            r.global_cor is None,
            r.est_error is None,
            r.adopted is None,
            r.apply_pending == 0,
            !r.saving,
            r.save_status is None,
            r.view == ImageView::Difference,
            r.image is None,
    {
        let mut app: TiltCorApp = TiltCorApp {
            size: None,
            loading: false,
            load_error: None,
            tol_deg: ieee::HALF,
            pairs: Vec::new(),
            pair_idx: 0,
            y_top: 0,
            y_bottom: 0,
            ystep: 1,
            band: 5,
            max_shift: 100,
            estimating: false,
            estimates: Vec::new(),
            global_cor: None,
            est_error: None,
            adopted: None,
            apply_pending: 0,
            saving: false,
            save_status: None,
            view: ImageView::Difference,
            image: None,
        };
        if path.is_some() {
            app.start_load();
        }
        app
    }

    /// A load was started.
    pub fn start_load(&mut self)
        ensures
            *final(self) == (TiltCorApp { loading: true, load_error: None, ..*old(self) }),
            old(self).wf() ==> final(self).wf(),
    {
        self.loading = true;
        self.load_error = None;
    }

    /// Fold a freshly loaded stack in: reset the parameters and the pair
    /// list to its geometry.
    pub fn adopt_stack<A: FloatUnit>(&mut self, stack: &Stack)
        requires
            old(self).wf(),
            stack.wf(),
        ensures
            stack_adopted::<A>(*old(self), stack, *final(self)),
            final(self).wf(),
            final(self).uses(stack),
    {
        let params: Params = Params::defaults_for(stack.height, stack.width);
        self.y_top = params.y_top;
        self.y_bottom = params.y_bottom;
        self.ystep = params.ystep;
        self.band = params.band;
        self.max_shift = params.max_shift;
        self.pairs = pairs::opposite_pairs::<A>(stack.angles_deg.as_slice(), self.tol_deg);
        self.pair_idx = 0;
        self.estimates.clear();
        self.global_cor = None;
        self.adopted = None;
        self.est_error = None;
        self.save_status = None;
        self.image = None;
        self.size = Some((stack.n, stack.height, stack.width));
    }

    /// How the rows are sampled.
    pub fn params(&self) -> (r: Params)
        ensures
            samples_as(*self, r),
    {
        Params {
            y_top: self.y_top,
            y_bottom: self.y_bottom,
            ystep: self.ystep,
            band: self.band,
            max_shift: self.max_shift,
        }
    }

    /// Starts an estimation, with the selected pair or with all of them: what
    /// a worker has to do. Nothing without a stack or without a pair.
    pub fn start_estimate(&mut self, all_pairs: bool) -> (r: Option<EstimateJob>)
        requires
            old(self).wf(),
        ensures
            final(self).wf(),
            r is Some <==> old(self).size is Some && old(self).pairs@.len() > 0,
            r is None ==> *final(self) == *old(self),
            r matches Some(job) ==> {
                &&& *final(self) == (TiltCorApp { estimating: true, est_error: None, ..*old(self) })
                &&& job.all_pairs == all_pairs
                &&& job.pair == old(self).pairs@[old(self).pair_idx as int]
                &&& job.pairs@ == old(self).pairs@
                &&& samples_as(*old(self), job.params)
                &&& old(self).size matches Some((n, _, _)) && job.fits(n)
            },
    {
        if self.size.is_none() || self.pair_idx >= self.pairs.len() {
            return None;
        }
        let job: EstimateJob = EstimateJob {
            all_pairs,
            pair: self.pairs[self.pair_idx],
            pairs: copied_pairs(&self.pairs),
            params: self.params(),
        };
        self.estimating = true;
        self.est_error = None;
        Some(job)
    }

    /// The rotation + save, once the spinner frame has been drawn: the stack is
    /// corrected by the adopted estimate, which is handed out so that the
    /// correction can be saved. Nothing without an adopted estimate.
    pub fn apply_and_save<A: FloatUnit>(&mut self, stack: &mut Stack) -> (r: Option<Estimate>)
        requires
            old(self).wf(),
            old(stack).wf(),
        ensures
            final(self).wf(),
            final(stack).wf(),
            r is Some <==> old(self).adopted is Some,
            r is None ==> *final(self) == *old(self) && *final(stack) == *old(stack),
            r matches Some(est) ==> {
                &&& est == old(self).estimates@[old(self).adopted->0 as int]
                &&& corrected::<A>(*old(stack), est, *final(stack))
                &&& final(self).estimates@ == Seq::<Estimate>::empty()
                &&& *final(self) == (TiltCorApp {
                    saving: true,
                    estimates: final(self).estimates,
                    global_cor: None,
                    adopted: None,
                    image: None,
                    ..*old(self)
                })
            },
    {
        let k: usize = match self.adopted {
            Some(k) => k,
            None => {
                return None;
            },
        };
        let est: Estimate = self.estimates.remove(k);
        correction::correct::<A>(stack, &est);
        self.saving = true;
        // The stack changed: previous estimates no longer describe it.
        self.estimates.clear();
        self.global_cor = None;
        self.adopted = None;
        self.image = None;
        Some(est)
    }

    /// The correction is refused, because a worker still reads the stack.
    /// Nothing without an adopted estimate.
    pub fn refuse_apply(&mut self)
        requires
            old(self).wf(),
        ensures
            final(self).wf(),
            old(self).adopted is None ==> *final(self) == *old(self),
            old(self).adopted is Some ==> {
                &&& final(self).save_status matches Some(Err(e)) && e@ == "an estimation is still running — wait for it to finish"@
                &&& *final(self) == (TiltCorApp { save_status: final(self).save_status, ..*old(self) })
            },
    {
        if self.adopted.is_some() {
            self.save_status = Some(Err("an estimation is still running — wait for it to finish".to_owned()));
        }
    }

    fn fold_load<A: FloatUnit>(&mut self, loaded: Option<Result<&Stack, String>>) -> (pending: bool)
        requires
            old(self).wf(),
            loaded matches Some(Ok(stack)) ==> stack.wf(),
        ensures
            final(self).wf(),
            load_folded::<A>(*old(self), loaded, *final(self)),
            pending == (old(self).loading && loaded is None),
    {
        if !self.loading {
            return false;
        }
        match loaded {
            Some(Ok(stack)) => {
                self.loading = false;
                self.adopt_stack::<A>(stack);
                false
            },
            Some(Err(e)) => {
                self.loading = false;
                self.load_error = Some(e);
                false
            },
            None => true,
        }
    }

    fn fold_estimate(&mut self, estimated: Option<Result<(Estimate, Option<u64>), String>>) -> (pending: bool)
        requires
            old(self).wf(),
        ensures
            final(self).wf(),
            estimate_folded(*old(self), estimated, *final(self)),
            pending == (old(self).estimating && estimated is None),
    {
        if !self.estimating {
            return false;
        }
        match estimated {
            Some(Ok((est, global))) => {
                self.estimating = false;
                self.global_cor = global;
                let last: usize = self.estimates.len();
                self.estimates.push(est);
                self.adopted = Some(last);
                self.image = None;
                false
            },
            Some(Err(e)) => {
                self.estimating = false;
                self.est_error = Some(e);
                false
            },
            None => true,
        }
    }

    fn fold_save(&mut self, saved: Option<Result<String, String>>) -> (pending: bool)
        requires
            old(self).wf(),
        ensures
            final(self).wf(),
            *final(self) == save_folded(*old(self), saved),
            pending == (old(self).saving && saved is None),
    {
        if !self.saving {
            return false;
        }
        match saved {
            Some(result) => {
                self.saving = false;
                self.save_status = Some(result);
                false
            },
            None => true,
        }
    }

    /// Folds in what the running jobs have come to, and tells when to look
    /// again while some are still running.
    pub fn poll_jobs<A: FloatUnit>(
        &mut self,
        loaded: Option<Result<&Stack, String>>,
        estimated: Option<Result<(Estimate, Option<u64>), String>>,
        saved: Option<Result<String, String>>,
    ) -> (r: Option<u64>)
        requires
            old(self).wf(),
            loaded matches Some(Ok(stack)) ==> stack.wf(),
        ensures
            final(self).wf(),
            exists|a: TiltCorApp, b: TiltCorApp|
                #[trigger] load_folded::<A>(*old(self), loaded, a) && #[trigger] estimate_folded(a, estimated, b) && *final(self)
                    == save_folded(b, saved),
            r == next_look(
                old(self).loading && loaded is None,
                old(self).estimating && estimated is None,
                old(self).saving && saved is None,
            ),
    {
        let load_pending: bool = self.fold_load::<A>(loaded);
        let ghost a = *self;
        let estimate_pending: bool = self.fold_estimate(estimated);
        let ghost b = *self;
        let save_pending: bool = self.fold_save(saved);
        assert(load_folded::<A>(*old(self), loaded, a) && estimate_folded(a, estimated, b));
        if load_pending || estimate_pending {
            Some(200)
        } else if save_pending {
            Some(300)
        } else {
            None
        }
    }

    /// The tolerance was changed: the pairs are found anew.
    pub fn set_tolerance<A: FloatUnit>(&mut self, tol_deg: u64, stack: &Stack)
        requires
            old(self).wf(),
            old(self).uses(stack),
        ensures
            final(self).wf(),
            pairs_of::<A>(stack.angles_deg@, tol_deg, final(self).pairs@),
            *final(self) == (TiltCorApp {
                tol_deg,
                pairs: final(self).pairs,
                pair_idx: 0,
                image: None,
                ..*old(self)
            }),
    {
        self.tol_deg = tol_deg;
        self.pairs = pairs::opposite_pairs::<A>(stack.angles_deg.as_slice(), tol_deg);
        self.pair_idx = 0;
        self.image = None;
    }

    /// Another pair was selected.
    pub fn select_pair(&mut self, k: usize)
        requires
            old(self).wf(),
            k < old(self).pairs@.len(),
        ensures
            final(self).wf(),
            *final(self) == (TiltCorApp { pair_idx: k, image: None, ..*old(self) }),
    {
        self.pair_idx = k;
        self.image = None;
    }

    /// Another view was selected.
    pub fn select_view(&mut self, view: ImageView)
        requires
            old(self).wf(),
        ensures
            final(self).wf(),
            *final(self) == (TiltCorApp { view, image: None, ..*old(self) }),
    {
        self.view = view;
        self.image = None;
    }

    /// Another estimate was chosen as the one to apply.
    pub fn adopt(&mut self, k: usize)
        requires
            old(self).wf(),
            k < old(self).estimates@.len(),
        ensures
            final(self).wf(),
            *final(self) == (TiltCorApp { adopted: Some(k), image: None, ..*old(self) }),
    {
        self.adopted = Some(k);
        self.image = None;
    }

    /// The rows were changed: the bottom row is kept below the top row and
    /// within the stack.
    pub fn settle_rows(&mut self, height: usize)
        requires
            old(self).wf(),
            old(self).y_top + 1 < height,
        ensures
            final(self).wf(),
            *final(self) == (TiltCorApp {
                y_bottom: if old(self).y_bottom <= old(self).y_top {
                    (old(self).y_top + 1) as usize
                } else if old(self).y_bottom >= height {
                    (height - 1) as usize
                } else {
                    old(self).y_bottom
                },
                ..*old(self)
            }),
            final(self).y_top < final(self).y_bottom < height,
    {
        if self.y_bottom <= self.y_top {
            self.y_bottom = self.y_top + 1;
        } else if self.y_bottom >= height {
            self.y_bottom = height - 1;
        }
    }

    /// Whether a correction can be requested now.
    pub fn can_apply(&self) -> (r: bool)
        ensures
            r == self.may_apply(),
    {
        self.adopted.is_some() && self.apply_pending == 0 && !self.saving && !self.estimating
    }

    /// A correction is requested; nothing happens where it cannot be.
    pub fn request_apply(&mut self)
        requires
            old(self).wf(),
        ensures
            final(self).wf(),
            old(self).may_apply() ==> *final(self) == (TiltCorApp { apply_pending: 1, ..*old(self) }),
            !old(self).may_apply() ==> *final(self) == *old(self),
    {
        if self.can_apply() {
            self.apply_pending = 1;
        }
    }

    /// The two-step apply: draw one spinner frame, then do the work.
    pub fn advance(&mut self) -> (r: Step)
        requires
            old(self).wf(),
        ensures
            final(self).wf(),
            match old(self).apply_pending {
                1 => r == Step::Repaint && *final(self) == (TiltCorApp { apply_pending: 2, ..*old(self) }),
                2 => r == Step::Apply && *final(self) == (TiltCorApp { apply_pending: 0, ..*old(self) }),
                _ => r == Step::Idle && *final(self) == *old(self),
            },
    {
        if self.apply_pending == 1 {
            self.apply_pending = 2;
            Step::Repaint
        } else if self.apply_pending == 2 {
            self.apply_pending = 0;
            Step::Apply
        } else {
            Step::Idle
        }
    }

    /// What is under way of a correction, as the window shows it.
    pub fn activity(&self) -> (r: Option<&'static str>)
        ensures
            r is Some <==> self.apply_pending > 0 || self.saving,
            r matches Some(t) ==> t@ == if self.apply_pending > 0 {
                "rotating the projections…"@
            } else {
                "writing the HDF5…"@
            },
    {
        if self.apply_pending > 0 {
            Some("rotating the projections…")
        } else if self.saving {
            Some("writing the HDF5…")
        } else {
            None
        }
    }

    /// What the image has to be made for.
    pub fn image_key(&self) -> (r: (usize, u8, usize))
        requires
            self.wf(),
        ensures
            r == self.key(),
    {
        let view: u8 = match self.view {
            ImageView::Proj0 => 0,
            ImageView::Proj180Flipped => 1,
            ImageView::Difference => 2,
        };
        let adopted: usize = match self.adopted {
            Some(k) => {
                assert(self.estimates@.len() == self.estimates.len());
                k + 1
            },
            None => 0,
        };
        (self.pair_idx, view, adopted)
    }

    /// Whether the image on screen is not the one to show.
    pub fn needs_image(&self) -> (r: bool)
        requires
            self.wf(),
        ensures
            r == (self.image != Some(self.key())),
    {
        match self.image {
            Some(key) => {
                let now: (usize, u8, usize) = self.image_key();
                key.0 != now.0 || key.1 != now.1 || key.2 != now.2
            },
            None => true,
        }
    }

    /// The image on screen is the one to show.
    pub fn image_made(&mut self)
        requires
            old(self).wf(),
        ensures
            final(self).wf(),
            *final(self) == (TiltCorApp { image: Some(old(self).key()), ..*old(self) }),
    {
        self.image = Some(self.image_key());
    }

    /// The adopted estimate.
    pub fn adopted_estimate(&self) -> (r: Option<&Estimate>)
        requires
            self.wf(),
        ensures
            r is Some <==> self.adopted is Some,
            r matches Some(est) ==> *est == self.estimates@[self.adopted->0 as int],
    {
        match self.adopted {
            Some(k) => Some(&self.estimates[k]),
            None => None,
        }
    }

    /// The plane the current view shows, as 8-bit grayscale with a 1–99
    /// percentile window. None without a pair.
    pub fn view_image<A: FloatUnit>(&self, stack: &Stack) -> (r: Option<Vec<u8>>)
        requires
            self.wf(),
            self.uses(stack),
        ensures
            r is Some <==> self.pairs@.len() > 0,
            r matches Some(gray) ==> exists|plane: Seq<u32>|
                #[trigger] shown::<A>(stack, self.pairs@[self.pair_idx as int], self.view, self.adopted_axis(), plane)
                    && grayscale::<A>(plane, gray@) && plane.len() == stack.height * stack.width,
    {
        if self.pair_idx >= self.pairs.len() {
            return None;
        }
        let pair: Pair = self.pairs[self.pair_idx];
        let axis: Option<(u64, u64)> = match self.adopted {
            Some(k) => Some((self.estimates[k].slope, self.estimates[k].intercept)),
            None => None,
        };
        let plane: Vec<u32> = view::view_plane::<A>(stack, &pair, self.view, axis);
        let gray: Vec<u8> = view::grayscale_of::<A>(&plane);
        assert(shown::<A>(stack, self.pairs@[self.pair_idx as int], self.view, self.adopted_axis(), plane@));
        Some(gray)
    }
}

fn copied_pairs(list: &Vec<Pair>) -> (r: Vec<Pair>)
    ensures
        r@ == list@,
{
    let mut r: Vec<Pair> = Vec::new();
    let mut k: usize = 0;
    while k < list.len()
        invariant
            k <= list@.len(),
            r@ == list@.take(k as int),
        decreases list@.len() - k,
    {
        r.push(list[k]);
        assert(list@.take(k + 1) =~= list@.take(k as int).push(list@[k as int]));
        k = k + 1;
    }
    assert(list@.take(list@.len() as int) =~= list@);
    r
}

/// An image that was made for the state as it is, is made for the same pair,
/// view and adopted estimate: two states with the same key show the same.
pub proof fn law_keys_tell_images_apart(a: &TiltCorApp, b: &TiltCorApp)
    requires
        a.wf(),
        b.wf(),
        a.key() == b.key(),
    ensures
        a.pair_idx == b.pair_idx,
        a.view == b.view,
        a.adopted == b.adopted,
{
    assert(a.estimates@.len() == a.estimates.len());
    assert(b.estimates@.len() == b.estimates.len());
}

/// While a correction is requested, being applied or being saved, and while an
/// estimation is running, no other correction can be requested; and the
/// estimate that was applied is not applied again.
pub proof fn law_one_correction_at_a_time(s: &TiltCorApp)
    requires
        s.apply_pending > 0 || s.saving || s.estimating || s.adopted is None,
    ensures
        !s.may_apply(),
{
}

/// Whether an argument is an option.
pub open spec fn is_option(a: Seq<char>) -> bool {
    a.len() >= 2 && a[0] == '-' && a[1] == '-'
}

fn starts_with_dashes(a: &str) -> (r: bool)
    ensures
        r == is_option(a@),
{
    let t: Vec<char> = text::characters(a);
    t.len() >= 2 && t[0] == '-' && t[1] == '-'
}

/// The checkpoint among the arguments of the program: the first one behind
/// the program's name that is not an option.
pub fn checkpoint_argument(args: &Vec<String>) -> (r: Option<String>)
    ensures
        r is None <==> (forall|k: int| 1 <= k < args@.len() ==> is_option((#[trigger] args@[k])@)),
        r matches Some(path) ==> exists|k: int|
            1 <= k < args@.len() && path@ == (#[trigger] args@[k])@ && !is_option(args@[k]@) && (forall|j: int|
                1 <= j < k ==> is_option((#[trigger] args@[j])@)),
{
    let mut k: usize = 1;
    while k < args.len()
        invariant
            k >= 1,
            forall|j: int| 1 <= j < k && j < args@.len() ==> is_option((#[trigger] args@[j])@),
        decreases args@.len() - k,
    {
        if !starts_with_dashes(args[k].as_str()) {
            return Some(args[k].clone());
        }
        k = k + 1;
    }
    None
}

} // verus!
