//! What files are taken for, and what is recorded in them.
use crate::correction;
use crate::fit::Estimate;
use crate::ieee::nan;
use crate::json::{json_string, recorded};
use crate::npy::{decoded, samples};
use crate::stack;
use crate::stack::{Checkpoint, Stack};
use crate::unit::FloatUnit;
use vstd::prelude::*;

verus! {

/// The datasets make a stack exactly where the projections have three extents,
/// none of them zero, and there are as many angles as projections, if any.
pub proof fn law_load_needs_an_angle_per_projection(
    path: &str,
    shape: &[usize],
    data: Vec<u32>,
    angles: Option<Vec<u64>>,
    center_of_rotation: Option<u64>,
    metadata: Option<&str>,
    r: Result<Stack, String>,
)
    requires
        call_ensures(stack::load, (path, shape, data, angles, center_of_rotation, metadata), r),
    ensures
        r is Ok <==> shape@.len() == 3 && shape@[0] > 0 && shape@[1] > 0 && shape@[2] > 0 && (angles matches Some(a) ==> a@.len()
            == shape@[0]),
        r matches Ok(s) ==> s.n == shape@[0] && s.height == shape@[1] && s.width == shape@[2] && s.data@ == data@
            && s.center_of_rotation == center_of_rotation,
        r matches Ok(s) ==> (angles matches Some(a) ==> s.angles_deg@ == a@),
        r matches Ok(s) ==> (angles is None ==> s.angles_deg@.len() == s.n && (forall|k: int|
            0 <= k < s.n ==> nan(#[trigger] s.angles_deg@[k]))),
{
    if let Ok(s) = r {
        assert(shape@[0] == s.n && shape@[1] == s.height && shape@[2] == s.width);
    }
}

/// Bytes behind the samples of an array do not matter.
pub proof fn law_trailing_bytes_do_not_matter(path: Seq<char>, head: Seq<char>, body: Seq<u8>, more: Seq<u8>)
    requires
        decoded(path, head, body) is Ok,
    ensures
        decoded(path, head, body + more) == decoded(path, head, body),
{
    let n = decoded(path, head, body)->Ok_0.1.len();
    assert(samples(body + more, n) =~= samples(body, n)) by {
        assert forall|k: int| 0 <= k < n implies #[trigger] samples(body + more, n)[k] == samples(body, n)[k] by {
            assert forall|j: int| 4 * k <= j < 4 * k + 4 implies #[trigger] (body + more)[j] == body[j] by {}
        }
    }
}

/// The record of a correction tells, under their names, the center, the tilt and
/// the quality of the estimate, how it was found, when and by whom.
pub proof fn law_record_tells_the_estimate<A: FloatUnit>(est: Estimate, date: Seq<char>, user: Seq<char>, r: Seq<char>)
    requires
        recorded::<A>(est, date, user, r),
    ensures
        exists|cor: String, tilt: String, r2: String|
            #![trigger call_ensures(A::json_number, (est.cor,), cor), call_ensures(A::json_number, (est.tilt_deg,), tilt), call_ensures(A::json_number, (est.r2,), r2)]
            call_ensures(A::json_number, (est.cor,), cor) && call_ensures(A::json_number, (est.tilt_deg,), tilt) && call_ensures(
                A::json_number,
                (est.r2,),
                r2,
            ) && r == "{\"center_of_rotation\":"@ + cor@ + ",\"corrected_tilt_deg\":"@ + tilt@ + ",\"date\":"@ + json_string(date)
                + ",\"method\":"@ + json_string(est.method@) + ",\"r2\":"@ + r2@ + ",\"user\":"@ + json_string(user) + "}"@,
{
}

/// A correction is saved with the center of its estimate and the shape of the
/// stack.
pub proof fn law_correction_is_saved_with_its_center<A: FloatUnit>(
    stack: &Stack,
    est: &Estimate,
    date: &str,
    user: &str,
    metadata: Option<&str>,
    c: Checkpoint,
)
    requires
        call_ensures(correction::save_correction::<A>, (stack, est, date, user, metadata), c),
    ensures
        c.center_of_rotation == est.cor,
        c.shape.0 == stack.n && c.shape.1 == stack.height && c.shape.2 == stack.width,
{
}

} // verus!
