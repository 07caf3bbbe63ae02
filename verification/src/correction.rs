//! What applying an estimate does: the stack is straightened and carries the
//! center of rotation, and the checkpoint gets both, with a record of the
//! correction.
use crate::algorithms;
use crate::algorithms::stack_rotated;
use crate::fit::Estimate;
use crate::json;
use crate::json::{law_record_is_a_history_entry, record_numbers, record_text, recorded, RecordNumbers};
use crate::stack;
use crate::stack::{
    can_go_on, datasets_fault, extended_metadata, law_save_then_load, optional_text, saved_datasets, stack_of,
    stored_history, Checkpoint, Stack,
};
use crate::text::{one_line, texts};
use crate::unit::FloatUnit;
use vstd::prelude::*;

verus! {

/// `after` is the stack `before` corrected by an estimate: every projection
/// rotated by its tilt, the center of rotation set to its center, and nothing
/// else changed.
pub open spec fn corrected<A: FloatUnit>(before: Stack, est: Estimate, after: Stack) -> bool {
    &&& after.center_of_rotation == Some(est.cor)
    &&& stack_rotated::<A>(
        before,
        est.tilt_deg,
        (Stack { center_of_rotation: before.center_of_rotation, ..after }),
    )
}

/// Corrects the stack by an estimate.
pub fn correct<A: FloatUnit>(stack: &mut Stack, est: &Estimate)
    requires
        old(stack).wf(),
    ensures
        corrected::<A>(*old(stack), *est, *final(stack)),
        final(stack).wf(),
{
    algorithms::apply_tilt::<A>(stack, est.tilt_deg);
    let ghost rotated = *stack;
    stack.center_of_rotation = Some(est.cor);
    assert(Stack { center_of_rotation: old(stack).center_of_rotation, ..*stack } == rotated);
    assert forall|i: int| stack.plane_at(i) == #[trigger] rotated.plane_at(i) by {}
}

/// `c` is what is written of a corrected stack: its shape, the center of the
/// estimate, and the metadata that the file holds with the record of the
/// correction appended.
pub open spec fn correction_saved<A: FloatUnit>(
    stack: &Stack,
    est: Estimate,
    date: Seq<char>,
    user: Seq<char>,
    metadata: Option<Seq<char>>,
    c: Checkpoint,
) -> bool {
    &&& c.shape == (stack.n, stack.height, stack.width)
    &&& c.center_of_rotation == est.cor
    &&& exists|record: Seq<char>|
        #[trigger] recorded::<A>(est, date, user, record) && c.metadata@ == extended_metadata(stored_history(metadata), record)
}

/// What to write of a corrected stack.
pub fn save_correction<A: FloatUnit>(stack: &Stack, est: &Estimate, date: &str, user: &str, metadata: Option<&str>) -> (c: Checkpoint)
    ensures
        correction_saved::<A>(stack, *est, date@, user@, optional_text(metadata), c),
{
    let record: String = json::correction_record::<A>(est, date, user);
    stack::save(stack, est.cor, record.as_str(), metadata)
}

/// The record of the estimate that a stack was corrected by is what the save
/// appends, and a load reads it all back: the rotated projections, the center
/// of the estimate, and the history that was there with the record last, which
/// holds the center, the tilt, the method and the quality of the estimate. (The
/// texts of its numbers hold no newline.)
pub proof fn law_correction_is_recorded_and_read_back<A: FloatUnit>(
    before: Stack,
    est: Estimate,
    after: Stack,
    date: Seq<char>,
    user: Seq<char>,
    metadata: Option<Seq<char>>,
    c: Checkpoint,
)
    requires
        corrected::<A>(before, est, after),
        correction_saved::<A>(&after, est, date, user, metadata, c),
        forall|n: RecordNumbers| #[trigger] record_numbers::<A>(est, n) ==> one_line(n.0) && one_line(n.1) && one_line(n.2),
        can_go_on(stored_history(metadata)),
    ensures
        datasets_fault(saved_datasets(c, after.angles_deg@)) is None,
        exists|n: RecordNumbers| #[trigger]
            record_numbers::<A>(est, n) && forall|path: Seq<char>, s: Stack| #[trigger]
                stack_of(path, saved_datasets(c, after.angles_deg@), after.data@, s) ==> {
                    &&& s.wf()
                    &&& (s.n, s.height, s.width) == (before.n, before.height, before.width)
                    &&& s.data@ == after.data@
                    &&& s.angles_deg@ == before.angles_deg@
                    &&& s.center_of_rotation == Some(est.cor)
                    &&& texts(s.previous_corrections@) == stored_history(metadata).push(
                        record_text(n, date, est.method@, user),
                    )
                },
{
    let record = choose|record: Seq<char>|
        #[trigger] recorded::<A>(est, date, user, record) && c.metadata@ == extended_metadata(stored_history(metadata), record);
    let n = choose|n: RecordNumbers| #[trigger] record_numbers::<A>(est, n) && record == record_text(n, date, est.method@, user);
    law_record_is_a_history_entry(n, date, est.method@, user);
    assert(after.wf());
    law_save_then_load(after, est.cor, record, metadata, c);
}

} // verus!
