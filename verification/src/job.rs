//! One run of an estimator, as it is handed to a worker.
use crate::algorithms;
use crate::algorithms::{
    bands_of, consensus_columns, multi_method, pair_axis,
    pair_columns, single_method, whole_range, Params,
};
use crate::fit;
use crate::fit::{estimated, Estimate};
use crate::pairs::Pair;
use crate::profile::{degenerate, law_only_empty_profiles_are_degenerate};
use crate::stack::Stack;
use crate::unit::FloatUnit;
use vstd::prelude::*;

verus! {

/// What to estimate: the selected pair alone or all the pairs together, and
/// how the rows are sampled. The selected pair is the cross-check in any case.
#[derive(Debug)]
pub struct EstimateJob {
    pub all_pairs: bool,
    pub pair: Pair,
    pub pairs: Vec<Pair>,
    pub params: Params,
}

impl EstimateJob {
    /// Whether the pairs are pairs of a stack of `n` projections.
    pub open spec fn fits(&self, n: usize) -> bool {
        &&& self.pair.i < n && self.pair.j < n
        &&& forall|k: int| 0 <= k < self.pairs@.len() ==> (#[trigger] self.pairs@[k]).i < n && self.pairs@[k].j < n
    }

    /// `columns` are the axis columns at the bands.
    pub open spec fn columns_of<A: FloatUnit>(&self, stack: &Stack, list: Seq<(usize, u64)>, columns: Seq<(u64, u64)>) -> bool {
        if self.all_pairs {
            consensus_columns::<A>(stack, self.pairs@, self.params, list, columns)
        } else {
            pair_columns::<A>(stack, self.pair, self.params, list, columns)
        }
    }

    /// `est` is the estimate that the columns give.
    pub open spec fn estimate_from<A: FloatUnit>(&self, height: usize, columns: Seq<(u64, u64)>, est: Result<Estimate, String>) -> bool {
        if self.all_pairs {
            if self.pairs@.len() == 0 {
                est matches Err(e) && e@ == "no opposite (0/180) pairs in the angle list"@
            } else {
                estimated::<A>(multi_method(self.pairs@.len()), height, columns, est)
            }
        } else {
            exists|method: Seq<char>|
                #[trigger] single_method::<A>(self.pair, method) && estimated::<A>(method, height, columns, est)
        }
    }

    /// `global` is the whole-range center of the selected pair; none when the
    /// search range is degenerate.
    pub open spec fn cross_checked<A: FloatUnit>(&self, stack: &Stack, global: Option<u64>) -> bool {
        if degenerate(stack.width as int, self.params.max_shift) {
            global is None
        } else {
            global matches Some(c) && pair_axis::<A>(
                stack,
                self.pair,
                whole_range(stack.height, self.params).0,
                whole_range(stack.height, self.params).1,
                self.params.max_shift,
                c,
            )
        }
    }

    /// `r` is the outcome that the columns give: the estimate and the
    /// cross-check of it, or why there is none.
    pub open spec fn finished<A: FloatUnit>(
        &self,
        stack: &Stack,
        columns: Seq<(u64, u64)>,
        r: Result<(Estimate, Option<u64>), String>,
    ) -> bool {
        exists|est: Result<Estimate, String>|
            #[trigger] self.estimate_from::<A>(stack.height, columns, est) && match est {
                Err(e) => r == Err::<(Estimate, Option<u64>), String>(e),
                Ok(e) => r matches Ok((x, global)) && x == e && self.cross_checked::<A>(stack, global),
            }
    }

    /// `r` is the outcome of the whole job.
    pub open spec fn answered<A: FloatUnit>(&self, stack: &Stack, r: Result<(Estimate, Option<u64>), String>) -> bool {
        exists|list: Seq<(usize, u64)>, columns: Seq<(u64, u64)>|
            #[trigger] bands_of::<A>(stack.height, self.params, list) && #[trigger] self.columns_of::<A>(stack, list, columns)
                && self.finished::<A>(stack, columns, r)
    }

    /// The axis column at one band, with the band's center row. None when the
    /// search range is degenerate.
    pub fn column<A: FloatUnit>(&self, stack: &Stack, at: (usize, u64)) -> (r: Option<(u64, u64)>)
        requires
            stack.wf(),
            stack.width <= isize::MAX / 4,
            self.fits(stack.n),
            at.0 + self.params.band_rows() <= stack.height,
        ensures
            r is None <==> degenerate(stack.width as int, self.params.max_shift),
            r matches Some((row, c)) ==> row == at.1 && if self.all_pairs {
                algorithms::consensus_axis::<A>(
                    stack,
                    self.pairs@,
                    at.0 as int,
                    self.params.band_rows() as int,
                    self.params.max_shift,
                    c,
                )
            } else {
                pair_axis::<A>(stack, self.pair, at.0 as int, self.params.band_rows() as int, self.params.max_shift, c)
            },
    {
        if self.all_pairs {
            algorithms::consensus_column::<A>(stack, self.pairs.as_slice(), &self.params, at)
        } else {
            algorithms::pair_column::<A>(stack, &self.pair, &self.params, at)
        }
    }

    /// The outcome that the columns of the bands give.
    pub fn finish<A: FloatUnit>(&self, stack: &Stack, columns: &Vec<(u64, u64)>) -> (r: Result<(Estimate, Option<u64>), String>)
        requires
            stack.wf(),
            stack.width <= isize::MAX / 4,
            self.fits(stack.n),
        ensures
            self.finished::<A>(stack, columns@, r),
    {
        let est: Result<Estimate, String> = if self.all_pairs {
            if self.pairs.len() == 0 {
                Err("no opposite (0/180) pairs in the angle list".to_owned())
            } else {
                fit::fit_estimate::<A>(algorithms::multi_pair_method(self.pairs.len()), stack.height, columns)
            }
        } else {
            let method: String = algorithms::single_pair_method::<A>(&self.pair);
            let ghost name = method@;
            let est: Result<Estimate, String> = fit::fit_estimate::<A>(method, stack.height, columns);
            assert(single_method::<A>(self.pair, name) && estimated::<A>(name, stack.height, columns@, est));
            est
        };
        assert(self.estimate_from::<A>(stack.height, columns@, est));
        match est {
            Err(e) => Err(e),
            Ok(e) => {
                let global: Option<u64> = match algorithms::global_cor::<A>(stack, &self.pair, &self.params) {
                    Ok(c) => Some(c),
                    Err(_) => None,
                };
                Ok((e, global))
            },
        }
    }

    /// The whole job, band after band.
    pub fn run<A: FloatUnit>(&self, stack: &Stack) -> (r: Result<(Estimate, Option<u64>), String>)
        requires
            stack.wf(),
            stack.width <= isize::MAX / 4,
            self.fits(stack.n),
        ensures
            self.answered::<A>(stack, r),
    {
        let list: Vec<(usize, u64)> = algorithms::bands::<A>(stack.height, &self.params);
        let mut columns: Vec<(u64, u64)> = Vec::new();
        let mut k: usize = 0;
        proof {
            law_only_empty_profiles_are_degenerate(stack.width as int, self.params.max_shift);
        }
        while k < list.len()
            invariant
                stack.wf(),
                stack.width <= isize::MAX / 4,
                self.fits(stack.n),
                !degenerate(stack.width as int, self.params.max_shift),
                forall|j: int| 0 <= j < list@.len() ==> (#[trigger] list@[j]).0 + self.params.band_rows() <= stack.height,
                k <= list@.len(),
                columns@.len() == k,
                self.columns_of::<A>(stack, list@.take(k as int), columns@),
            decreases list@.len() - k,
        {
            let ghost before = columns@;
            if let Some(column) = self.column::<A>(stack, list[k]) {
                columns.push(column);
            }
            proof {
                let (shorter, longer) = (list@.take(k as int), list@.take(k + 1));
                assert forall|j: int| 0 <= j < k implies longer[j] == #[trigger] shorter[j] && columns@[j] == before[j] by {}
                assert(longer[k as int] == list@[k as int]);
                assert(self.columns_of::<A>(stack, longer, columns@));
            }
            k = k + 1;
        }
        assert(list@.take(list@.len() as int) =~= list@);
        self.finish::<A>(stack, &columns)
    }
}

/// A job gives what the estimators give: the consensus of all pairs, or the
/// registration of the selected one, with the whole-range center beside it.
pub proof fn law_job_answers_as_the_estimators<A: FloatUnit>(
    job: &EstimateJob,
    stack: &Stack,
    r: Result<(Estimate, Option<u64>), String>,
)
    requires
        job.answered::<A>(stack, r),
    ensures
        ({
            let est = match r {
                Ok((e, _)) => Ok::<Estimate, String>(e),
                Err(e) => Err(e),
            };
            if job.all_pairs {
                algorithms::consensus::<A>(stack, job.pairs@, job.params, est)
            } else {
                algorithms::registered::<A>(stack, job.pair, job.params, est)
            }
        }),
        r matches Ok((_, global)) ==> job.cross_checked::<A>(stack, global),
{
    let (list, columns) = choose|list: Seq<(usize, u64)>, columns: Seq<(u64, u64)>|
        #[trigger] bands_of::<A>(stack.height, job.params, list) && #[trigger] job.columns_of::<A>(stack, list, columns)
            && job.finished::<A>(stack, columns, r);
    assert(bands_of::<A>(stack.height, job.params, list));
    if job.all_pairs {
        assert(consensus_columns::<A>(stack, job.pairs@, job.params, list, columns));
    } else {
        assert(pair_columns::<A>(stack, job.pair, job.params, list, columns));
    }
}

} // verus!
