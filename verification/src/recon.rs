//! The gridrec (FBP) test slice: what is handed to the reconstruction of one
//! slice at the adopted center (and a small sweep of centers around it), and
//! what comes back, so the tilt and the center of rotation can be judged on an
//! actual reconstruction, not just on the 0/180 overlap.
use crate::ieee;
use crate::ieee::finite;
use crate::json;
use crate::json::recon_spec;
use crate::npy;
use crate::npy::{npy_file, product, product_fits};
use crate::resample;
use crate::resample::{resampled, rotated_pixel, rotation_by, Rotation};
use crate::stack;
use crate::stack::{bracketed, lemma_plane_fits, Stack};
use crate::text;
use crate::text::{decimal, joined, lines, lossy_text, texts, trimmed};
use crate::unit::FloatUnit;
use vstd::arithmetic::power::pow;
use vstd::prelude::*;
use vstd::slice::slice_subrange;

verus! {

/// The projections below `k` that carry an angle.
pub open spec fn carrying(angles: Seq<u64>, k: int) -> Seq<int>
    decreases k,
{
    if k <= 0 {
        seq![]
    } else if finite(angles[k - 1]) {
        carrying(angles, k - 1).push(k - 1)
    } else {
        carrying(angles, k - 1)
    }
}

/// `p` is the sample of a sinogram at column `x`: that of the rotated
/// projection. (A single NaN pixel would spread through the reconstruction to
/// the whole slice: it becomes zero instead.)
pub open spec fn sinogram_sample<A: FloatUnit>(plane: Seq<u32>, w: usize, h: usize, t: Rotation, x: usize, row: usize, p: u32) -> bool {
    exists|v: u64|
        #[trigger] resampled::<A>(plane, w, h, t, x, row, v) && if finite(v) {
            call_ensures(A::narrow, (v,), p)
        } else {
            p == ieee::ZERO_32
        }
}

/// The row that is sampled: the last one stands in for those beyond it.
pub open spec fn sampled_row(height: usize, row: usize) -> usize {
    if row < height {
        row
    } else {
        (height - 1) as usize
    }
}

/// `sino` is the sinogram of a row: a line for each projection that carries an
/// angle, sampled through the rotation `t`.
pub open spec fn sinogram_through<A: FloatUnit>(stack: &Stack, row: usize, t: Rotation, sino: Seq<u32>) -> bool {
    let list = carrying(stack.angles_deg@, stack.n as int);
    let (w, h) = (stack.width, stack.height);
    &&& sino.len() == list.len() * w
    &&& forall|k: int, x: usize|
        0 <= k < list.len() && x < w ==> #[trigger] sinogram_sample::<A>(
            stack.plane_at(list[k]),
            w,
            h,
            t,
            x,
            sampled_row(h, row),
            sino[k * w + x],
        )
}

/// `sino` is the sinogram of a row, sampled through the rotation by `tilt`.
pub open spec fn sinogram<A: FloatUnit>(stack: &Stack, row: usize, tilt: u64, sino: Seq<u32>) -> bool {
    exists|t: Rotation|
        #[trigger] rotation_by::<A>(stack.width, stack.height, tilt, t) && sinogram_through::<A>(stack, row, t, sino)
}

/// `angles` are the angles of the projections that carry one, in radians.
pub open spec fn carried_angles<A: FloatUnit>(stack: &Stack, angles: Seq<u64>) -> bool {
    let list = carrying(stack.angles_deg@, stack.n as int);
    &&& angles.len() == list.len()
    &&& forall|k: int| 0 <= k < list.len() ==> call_ensures(A::radians, (stack.angles_deg@[list[k]],), #[trigger] angles[k])
}

/// A sinogram has a line for every projection that carries an angle, for no
/// other one, and in their order.
pub proof fn law_carrying_lists_the_finite_angles(angles: Seq<u64>, k: int)
    requires
        0 <= k <= angles.len(),
    ensures
        forall|j: int| 0 <= j < carrying(angles, k).len() ==> 0 <= #[trigger] carrying(angles, k)[j] < k,
        forall|j: int| 0 <= j < carrying(angles, k).len() ==> finite(angles[#[trigger] carrying(angles, k)[j]]),
        forall|i: int, j: int|
            0 <= i < j < carrying(angles, k).len() ==> #[trigger] carrying(angles, k)[i] < #[trigger] carrying(angles, k)[j],
        forall|i: int| 0 <= i < k && finite(#[trigger] angles[i]) ==> carrying(angles, k).contains(i),
    decreases k,
{
    if k > 0 {
        law_carrying_lists_the_finite_angles(angles, k - 1);
        let (shorter, longer) = (carrying(angles, k - 1), carrying(angles, k));
        assert forall|i: int| 0 <= i < k && finite(#[trigger] angles[i]) implies longer.contains(i) by {
            if i < k - 1 {
                assert(shorter.contains(i));
                let j = choose|j: int| 0 <= j < shorter.len() && shorter[j] == i;
                assert(longer[j] == i);
            } else {
                assert(longer[longer.len() - 1] == i);
            }
        }
    }
}

fn sample_of<A: FloatUnit>(plane: &[u32], w: usize, h: usize, t: &Rotation, x: usize, row: usize) -> (p: u32)
    requires
        w > 0,
        h > 0,
        plane@.len() == h * w,
    ensures
        sinogram_sample::<A>(plane@, w, h, *t, x, row, p),
{
    let v: u64 = resample::resample::<A>(plane, w, h, t, x, row);
    if ieee::is_finite(v) {
        A::narrow(v)
    } else {
        ieee::ZERO_32
    }
}

/// Row `row` of every projection with a finite angle, sampled through the
/// (to-be-applied) tilt rotation (bilinear, like the rotation of the stack),
/// so the test reconstructs what the corrected stack would look like without
/// rotating the whole stack. Returns the flat `(n_used, width)` sinogram
/// and the matching angles in radians.
pub fn extract_sinogram<A: FloatUnit>(stack: &Stack, row: usize, tilt_deg: u64) -> (r: (Vec<u32>, Vec<u64>))
    requires
        stack.wf(),
    ensures
        sinogram::<A>(stack, row, tilt_deg, r.0@),
        carried_angles::<A>(stack, r.1@),
{
    let (h, w) = (stack.height, stack.width);
    let at: usize = if row < h {
        row
    } else {
        h - 1
    };
    let t: Rotation = resample::rotation::<A>(w, h, tilt_deg);
    let mut sino: Vec<u32> = Vec::new();
    let mut angles: Vec<u64> = Vec::new();
    let mut i: usize = 0;
    while i < stack.n
        invariant
            stack.wf(),
            (h, w) == (stack.height, stack.width),
            at == sampled_row(h, row),
            i <= stack.n,
            angles@.len() == carrying(stack.angles_deg@, i as int).len(),
            forall|k: int|
                0 <= k < angles@.len() ==> call_ensures(
                    A::radians,
                    (stack.angles_deg@[carrying(stack.angles_deg@, i as int)[k]],),
                    #[trigger] angles@[k],
                ),
            sino@.len() == angles@.len() * w,
            forall|k: int, x: usize|
                0 <= k < angles@.len() && x < w ==> #[trigger] sinogram_sample::<A>(
                    stack.plane_at(carrying(stack.angles_deg@, i as int)[k]),
                    w,
                    h,
                    t,
                    x,
                    at,
                    sino@[k * w + x],
                ),
        decreases stack.n - i,
    {
        let a: u64 = stack.angles_deg[i];
        if ieee::is_finite(a) {
            let ghost list = carrying(stack.angles_deg@, i as int);
            let ghost m = angles@.len();
            proof {
                lemma_plane_fits(stack, i);
            }
            let plane: &[u32] = stack.plane(i);
            let mut x: usize = 0;
            while x < w
                invariant
                    stack.wf(),
                    (h, w) == (stack.height, stack.width),
                    plane@ == stack.plane_at(i as int),
                    plane@.len() == h * w,
                    m == list.len(),
                    x <= w,
                    sino@.len() == m * w + x,
                    forall|k: int, c: usize|
                        0 <= k < m && c < w ==> #[trigger] sinogram_sample::<A>(
                            stack.plane_at(list[k]),
                            w,
                            h,
                            t,
                            c,
                            at,
                            sino@[k * w + c],
                        ),
                    forall|c: usize|
                        c < x ==> #[trigger] sinogram_sample::<A>(plane@, w, h, t, c, at, sino@[m * w + c]),
                decreases w - x,
            {
                let ghost before = sino@;
                let p: u32 = sample_of::<A>(plane, w, h, &t, x, at);
                sino.push(p);
                assert forall|k: int, c: usize| 0 <= k < m && c < w implies #[trigger] sinogram_sample::<A>(
                    stack.plane_at(list[k]),
                    w,
                    h,
                    t,
                    c,
                    at,
                    sino@[k * w + c],
                ) by {
                    resample::lemma_pixel_in_plane(w as int, m as int, c as int, k);
                    assert(sino@[k * w + c] == before[k * w + c]);
                    assert(sinogram_sample::<A>(stack.plane_at(list[k]), w, h, t, c, at, before[k * w + c]));
                }
                assert forall|c: usize| c < x + 1 implies #[trigger] sinogram_sample::<A>(
                    plane@,
                    w,
                    h,
                    t,
                    c,
                    at,
                    sino@[m * w + c],
                ) by {
                    if c < x {
                        assert(sino@[m * w + c] == before[m * w + c]);
                        assert(sinogram_sample::<A>(plane@, w, h, t, c, at, before[m * w + c]));
                    } else {
                        assert(sino@[m * w + c] == p);
                    }
                }
                x = x + 1;
            }
            let radians: u64 = A::radians(a);
            angles.push(radians);
            proof {
                let longer = carrying(stack.angles_deg@, i + 1);
                assert(longer == list.push(i as int));
                assert((m + 1) * w == m * w + w) by (nonlinear_arith);
                assert forall|k: int, c: usize| 0 <= k < m + 1 && c < w implies #[trigger] sinogram_sample::<A>(
                    stack.plane_at(longer[k]),
                    w,
                    h,
                    t,
                    c,
                    at,
                    sino@[k * w + c],
                ) by {
                    if k < m {
                        assert(longer[k] == list[k]);
                        assert(sinogram_sample::<A>(stack.plane_at(list[k]), w, h, t, c, at, sino@[k * w + c]));
                    } else {
                        assert(sinogram_sample::<A>(plane@, w, h, t, c, at, sino@[m * w + c]));
                    }
                }
                assert forall|k: int| 0 <= k < angles@.len() implies call_ensures(
                    A::radians,
                    (stack.angles_deg@[longer[k]],),
                    #[trigger] angles@[k],
                ) by {
                    if k < m {
                        assert(longer[k] == list[k]);
                    }
                }
            }
        }
        i = i + 1;
    }
    assert(sinogram_through::<A>(stack, row, t, sino@));
    (sino, angles)
}

/// The sinogram is a row of the stack as a rotation by the tilt would leave
/// it, but for samples that are not finite: those are zero.
pub proof fn law_sinogram_is_a_row_of_the_rotated_stack<A: FloatUnit>(
    plane: Seq<u32>,
    w: usize,
    h: usize,
    t: Rotation,
    x: usize,
    row: usize,
    p: u32,
)
    requires
        sinogram_sample::<A>(plane, w, h, t, x, row, p),
    ensures
        rotated_pixel::<A>(plane, w, h, t, x, row, p) || (p == ieee::ZERO_32 && exists|v: u64|
            #[trigger] resampled::<A>(plane, w, h, t, x, row, v) && !finite(v)),
{
    let v = choose|v: u64|
        #[trigger] resampled::<A>(plane, w, h, t, x, row, v) && if finite(v) {
            call_ensures(A::narrow, (v,), p)
        } else {
            p == ieee::ZERO_32
        };
    assert(resampled::<A>(plane, w, h, t, x, row, v));
}

/// What is handed to the reconstruction: the file of the sinograms and the
/// description of what to reconstruct of them.
#[derive(Debug)]
pub struct Handover {
    pub sinograms: Vec<u8>,
    pub spec: String,
}

/// The samples of one sinogram.
pub open spec fn sinogram_size(stack: &Stack) -> int {
    carrying(stack.angles_deg@, stack.n as int).len() * stack.width
}

/// The place of the sinogram of a tilt and a row among all of them: one per
/// `(tilt, row)` combination, in that order.
pub open spec fn combination(rows: int, tilt: int, row: int) -> int {
    tilt * rows + row
}

/// `sinos` holds the sinograms of the combinations up to `count`.
pub open spec fn gathered<A: FloatUnit>(stack: &Stack, rows: Seq<usize>, tilts: Seq<u64>, count: int, sinos: Seq<u32>) -> bool {
    let size = sinogram_size(stack);
    &&& sinos.len() == count * size
    &&& forall|i: int, j: int|
        0 <= i < tilts.len() && 0 <= j < rows.len() && #[trigger] combination(rows.len() as int, i, j) < count ==> sinogram::<A>(
            stack,
            rows[j],
            tilts[i],
            sinos.subrange(
                combination(rows.len() as int, i, j) * size,
                combination(rows.len() as int, i, j) * size + size,
            ),
        )
}

/// Why nothing can be handed over; `None` when it can.
pub open spec fn handover_fault(stack: &Stack, rows: Seq<usize>, tilts: Seq<u64>, centers: Seq<u64>) -> Option<Seq<char>> {
    if rows.len() == 0 || tilts.len() == 0 || centers.len() == 0 {
        Some("no row, tilt or center values to reconstruct"@)
    } else if carrying(stack.angles_deg@, stack.n as int).len() < 3 {
        Some("fewer than 3 projections carry an angle"@)
    } else {
        None
    }
}

/// The shape of the file of the sinograms.
pub open spec fn handover_shape(stack: &Stack, rows: Seq<usize>, tilts: Seq<u64>) -> Seq<usize> {
    seq![
        (tilts.len() * rows.len()) as usize,
        carrying(stack.angles_deg@, stack.n as int).len() as usize,
        stack.width,
    ]
}

/// `h` hands the sinograms over, and what to reconstruct of them.
pub open spec fn handed_over<A: FloatUnit>(
    stack: &Stack,
    rows: Seq<usize>,
    tilts: Seq<u64>,
    centers: Seq<u64>,
    apply_log: bool,
    h: Handover,
) -> bool {
    &&& exists|sinos: Seq<u32>|
        #[trigger] gathered::<A>(stack, rows, tilts, (tilts.len() * rows.len()) as int, sinos) && h.sinograms@ == npy_file(
            handover_shape(stack, rows, tilts),
            sinos,
        )
    &&& exists|angles: Seq<u64>|
        #[trigger] carried_angles::<A>(stack, angles) && recon_spec::<A>(angles, apply_log, centers, h.spec@)
}

proof fn lemma_decimal_is_short(n: nat, k: nat)
    requires
        n < pow(10, k),
        k > 0,
    ensures
        decimal(n).len() <= k,
    decreases k,
{
    reveal(pow);
    if n >= 10 {
        assert(k > 1) by {
            if k == 1 {
                reveal_with_fuel(pow, 2);
            }
        }
        assert(n / 10 < pow(10, (k - 1) as nat)) by {
            assert(pow(10, k) == 10 * pow(10, (k - 1) as nat));
        }
        lemma_decimal_is_short(n / 10, (k - 1) as nat);
    }
}

/// A file of a three-dimensional array has a short header.
proof fn lemma_short_header(shape: Seq<usize>)
    requires
        shape.len() == 3,
    ensures
        npy::header(shape).len() <= 200,
{
    assert(pow(10, 20) > usize::MAX) by {
        reveal(pow);
        reveal_with_fuel(pow, 21);
    }
    lemma_decimal_is_short(shape[0] as nat, 20);
    lemma_decimal_is_short(shape[1] as nat, 20);
    lemma_decimal_is_short(shape[2] as nat, 20);
    let dims = Seq::new(shape.len(), |k: int| decimal(shape[k] as nat));
    reveal_with_fuel(joined, 3);
    assert(dims.drop_last().drop_last()[0] == dims[0]);
    assert(dims.drop_last().last() == dims[1]);
    assert(dims.last() == dims[2]);
    reveal_strlit("{'descr': '<f4', 'fortran_order': False, 'shape': ");
    reveal_strlit("(");
    reveal_strlit(")");
    reveal_strlit(", ");
    reveal_strlit(", }");
    assert(npy::tuple_inner(shape) == joined(dims, ", "@));
    assert(npy::tuple_inner(shape).len() <= 64);
    assert(npy::dictionary(shape).len() <= 119);
}

/// The extents of a three-dimensional array multiply without overflow when
/// their product is in range.
proof fn lemma_product3(shape: Seq<usize>, total: int)
    requires
        shape.len() == 3,
        shape[1] > 0,
        shape[2] > 0,
        shape[0] * (shape[1] * shape[2]) == total,
        total <= usize::MAX,
    ensures
        product_fits(shape),
        product(shape) == total,
{
    reveal_with_fuel(product, 4);
    let (a, b, c) = (shape[0] as int, shape[1] as int, shape[2] as int);
    assert(shape.take(3) =~= shape);
    assert(shape.drop_last() =~= shape.take(2));
    assert(shape.take(2).drop_last() =~= shape.take(1));
    assert(shape.take(1).drop_last() =~= shape.take(0));
    assert(shape.take(2).last() == shape[1]);
    assert(shape.take(1).last() == shape[0]);
    assert(product(shape.take(0)) == 1);
    assert(product(shape.take(1)) == a) by {
        assert(1 * shape[0] as nat == a);
        assert(product(shape.take(1)) == product(shape.take(0)) * shape[0] as nat);
    }
    assert(product(shape.take(2)) == a * b);
    assert(product(shape) == a * b * c);
    assert(a * b * c == a * (b * c) && a * b <= a * b * c && a <= a * b) by (nonlinear_arith)
        requires
            a >= 0,
            b > 0,
            c > 0,
    ;
    assert forall|k: int| 0 <= k <= shape.len() implies product(#[trigger] shape.take(k)) <= usize::MAX by {
        assert(k == 0 || k == 1 || k == 2 || k == 3);
    }
}

proof fn lemma_gathered_append<A: FloatUnit>(
    stack: &Stack,
    rows: Seq<usize>,
    tilts: Seq<u64>,
    i: int,
    j: int,
    before: Seq<u32>,
    sino: Seq<u32>,
)
    requires
        0 <= i < tilts.len(),
        0 <= j < rows.len(),
        gathered::<A>(stack, rows, tilts, combination(rows.len() as int, i, j), before),
        sinogram::<A>(stack, rows[j], tilts[i], sino),
    ensures
        gathered::<A>(stack, rows, tilts, combination(rows.len() as int, i, j) + 1, before + sino),
{
    let n = rows.len() as int;
    let size = sinogram_size(stack);
    let count = combination(n, i, j);
    assert(sino.len() == size);
    assert(size >= 0);
    assert((count + 1) * size == count * size + size) by (nonlinear_arith);
    assert(count >= 0) by (nonlinear_arith)
        requires
            count == i * n + j,
            i >= 0,
            n >= 0,
            j >= 0,
    ;
    assert forall|a: int, b: int|
        0 <= a < tilts.len() && 0 <= b < rows.len() && #[trigger] combination(n, a, b) < count + 1 implies sinogram::<A>(
        stack,
        rows[b],
        tilts[a],
        (before + sino).subrange(combination(n, a, b) * size, combination(n, a, b) * size + size),
    ) by {
        let at = combination(n, a, b);
        if at < count {
            assert(0 <= at) by (nonlinear_arith)
                requires
                    at == a * n + b,
                    a >= 0,
                    n >= 0,
                    b >= 0,
            ;
            assert(0 <= at * size && at * size + size <= count * size) by (nonlinear_arith)
                requires
                    0 <= at < count,
                    0 <= size,
            ;
            assert((before + sino).subrange(at * size, at * size + size) =~= before.subrange(at * size, at * size + size));
        } else {
            assert(a == i && b == j) by (nonlinear_arith)
                requires
                    a * n + b == i * n + j,
                    0 <= b < n,
                    0 <= j < n,
            ;
            assert((before + sino).subrange(at * size, at * size + size) =~= sino);
        }
    }
}

/// What is handed to the reconstruction of every combination of a tilt, a row
/// and a center: one sinogram per `(tilt, row)` combination, stacked in that
/// order, with the angles and the centers.
pub fn prepare<A: FloatUnit>(
    stack: &Stack,
    rows: &Vec<usize>,
    tilts: &Vec<u64>,
    centers: &Vec<u64>,
    apply_log: bool,
) -> (r: Result<Handover, String>)
    requires
        stack.wf(),
    ensures
        r is Ok <==> handover_fault(stack, rows@, tilts@, centers@) is None,
        r matches Err(e) ==> handover_fault(stack, rows@, tilts@, centers@) == Some(e@),
        r matches Ok(h) ==> handed_over::<A>(stack, rows@, tilts@, centers@, apply_log, h),
{
    if rows.len() == 0 || tilts.len() == 0 || centers.len() == 0 {
        return Err("no row, tilt or center values to reconstruct".to_owned());
    }
    let ghost nr = rows@.len() as int;
    let ghost list = carrying(stack.angles_deg@, stack.n as int);
    let ghost size = sinogram_size(stack);
    let mut sinos: Vec<u32> = Vec::new();
    let mut angles: Vec<u64> = Vec::new();
    let mut i: usize = 0;
    assert(gathered::<A>(stack, rows@, tilts@, 0, sinos@)) by {
        assert forall|a: int, b: int|
            0 <= a < tilts@.len() && 0 <= b < rows@.len() implies #[trigger] combination(nr, a, b) >= 0 by {
            assert(a * nr + b >= 0) by (nonlinear_arith)
                requires
                    a >= 0,
                    b >= 0,
                    nr >= 0,
            ;
        }
    }
    assert(combination(nr, 0, 0) == 0) by (nonlinear_arith)
        requires
            combination(nr, 0, 0) == 0 * nr + 0,
    ;
    while i < tilts.len()
        invariant
            stack.wf(),
            nr == rows@.len() > 0,
            centers@.len() > 0,
            list == carrying(stack.angles_deg@, stack.n as int),
            i <= tilts@.len(),
            gathered::<A>(stack, rows@, tilts@, combination(nr, i as int, 0), sinos@),
            i > 0 ==> carried_angles::<A>(stack, angles@) && angles@.len() >= 3,
        decreases tilts@.len() - i,
    {
        let mut j: usize = 0;
        while j < rows.len()
            invariant
                stack.wf(),
                nr == rows@.len(),
                centers@.len() > 0,
                list == carrying(stack.angles_deg@, stack.n as int),
                i < tilts@.len(),
                j <= rows@.len(),
                gathered::<A>(stack, rows@, tilts@, combination(nr, i as int, j as int), sinos@),
                j > 0 ==> carried_angles::<A>(stack, angles@) && angles@.len() >= 3,
            decreases rows@.len() - j,
        {
            let (mut sino, found) = extract_sinogram::<A>(stack, rows[j], tilts[i]);
            if found.len() < 3 {
                return Err("fewer than 3 projections carry an angle".to_owned());
            }
            angles = found;
            let ghost before = sinos@;
            let ghost one = sino@;
            sinos.append(&mut sino);
            proof {
                assert(sinos@ =~= before + one);
                lemma_gathered_append::<A>(stack, rows@, tilts@, i as int, j as int, before, one);
            }
            j = j + 1;
        }
        assert(combination(nr, i as int, nr) == combination(nr, i + 1, 0)) by (nonlinear_arith)
            requires
                combination(nr, i as int, nr) == i * nr + nr,
                combination(nr, i + 1, 0) == (i + 1) * nr + 0,
        ;
        i = i + 1;
    }
    let ghost count = tilts@.len() * rows@.len();
    let total: usize = sinos.len();
    let n_angles: usize = angles.len();
    proof {
        assert(combination(nr, tilts@.len() as int, 0) == count);
        assert(count <= count * size && size > 0) by (nonlinear_arith)
            requires
                size == list.len() * stack.width,
                list.len() >= 3,
                stack.width >= 1,
                count >= 0,
        ;
        assert(count == tilts@.len() as int * rows@.len() as int);
    }
    let shape: Vec<usize> = vec![tilts.len() * rows.len(), n_angles, stack.width];
    proof {
        assert(shape@ =~= handover_shape(stack, rows@, tilts@));
        assert(shape@[1] * shape@[2] == size);
        lemma_product3(shape@, total as int);
        lemma_short_header(shape@);
    }
    match npy::write_f32(shape.as_slice(), sinos.as_slice()) {
        Err(e) => Err(e),
        Ok(sinograms) => {
            let spec: String = json::recon_spec_text::<A>(angles.as_slice(), apply_log, centers.as_slice());
            Ok(Handover { sinograms, spec })
        },
    }
}

/// What is handed over is read back: the file of the sinograms holds an array
/// of one sinogram per combination, one line per projection that carries an
/// angle, and exactly the samples that were gathered. (The sizes are those of
/// a file that fits in memory.)
pub proof fn law_sinograms_are_read_back<A: FloatUnit>(
    stack: &Stack,
    rows: Seq<usize>,
    tilts: Seq<u64>,
    sinos: Seq<u32>,
    path: Seq<char>,
)
    requires
        stack.wf(),
        handover_shape(stack, rows, tilts)[1] >= 3,
        carrying(stack.angles_deg@, stack.n as int).len() <= usize::MAX,
        tilts.len() * rows.len() <= usize::MAX,
        gathered::<A>(stack, rows, tilts, (tilts.len() * rows.len()) as int, sinos),
        npy::header(handover_shape(stack, rows, tilts)).len() + 10 + 4 * sinos.len() <= usize::MAX,
    ensures
        npy::file_content(path, npy_file(handover_shape(stack, rows, tilts), sinos)) == Ok::<(Seq<usize>, Seq<u32>), Seq<char>>(
            (handover_shape(stack, rows, tilts), sinos),
        ),
{
    let shape = handover_shape(stack, rows, tilts);
    assert(shape[1] * shape[2] == sinogram_size(stack));
    lemma_product3(shape, sinos.len() as int);
    lemma_short_header(shape);
    npy::law_write_then_read(path, shape, sinos);
}

/// The hand-over as a whole: the file of the sinograms is read as an array with
/// one sinogram per combination of a tilt and a row, tilt by tilt, each of them
/// that of its row through its tilt, and the description holds the angles of
/// the projections that carry one, in their order, and the centers and the flag
/// as they were given. (The sizes are those of a file that fits in memory.)
pub proof fn law_handover_is_complete<A: FloatUnit>(
    stack: &Stack,
    rows: Seq<usize>,
    tilts: Seq<u64>,
    centers: Seq<u64>,
    apply_log: bool,
    h: Handover,
    path: Seq<char>,
)
    requires
        stack.wf(),
        handover_fault(stack, rows, tilts, centers) is None,
        carrying(stack.angles_deg@, stack.n as int).len() <= usize::MAX,
        tilts.len() * rows.len() <= usize::MAX,
        npy::header(handover_shape(stack, rows, tilts)).len() + 10 + 4 * (tilts.len() * rows.len() * sinogram_size(stack))
            <= usize::MAX,
        handed_over::<A>(stack, rows, tilts, centers, apply_log, h),
    ensures
        exists|sinos: Seq<u32>| #[trigger]
            gathered::<A>(stack, rows, tilts, (tilts.len() * rows.len()) as int, sinos) && npy::file_content(path, h.sinograms@)
                == Ok::<(Seq<usize>, Seq<u32>), Seq<char>>((handover_shape(stack, rows, tilts), sinos)) && forall|i: int, j: int|
                0 <= i < tilts.len() && 0 <= j < rows.len() ==> sinogram::<A>(
                    stack,
                    #[trigger] rows[j],
                    #[trigger] tilts[i],
                    sinos.subrange(
                        combination(rows.len() as int, i, j) * sinogram_size(stack),
                        combination(rows.len() as int, i, j) * sinogram_size(stack) + sinogram_size(stack),
                    ),
                ),
        exists|angles: Seq<u64>| #[trigger]
            carried_angles::<A>(stack, angles) && recon_spec::<A>(angles, apply_log, centers, h.spec@),
{
    let count = (tilts.len() * rows.len()) as int;
    let sinos = choose|sinos: Seq<u32>|
        #[trigger] gathered::<A>(stack, rows, tilts, (tilts.len() * rows.len()) as int, sinos) && h.sinograms@ == npy_file(
            handover_shape(stack, rows, tilts),
            sinos,
        );
    law_sinograms_are_read_back::<A>(stack, rows, tilts, sinos, path);
    assert forall|i: int, j: int| 0 <= i < tilts.len() && 0 <= j < rows.len() implies sinogram::<A>(
        stack,
        #[trigger] rows[j],
        #[trigger] tilts[i],
        sinos.subrange(
            combination(rows.len() as int, i, j) * sinogram_size(stack),
            combination(rows.len() as int, i, j) * sinogram_size(stack) + sinogram_size(stack),
        ),
    ) by {
        let (t, r) = (tilts.len() as int, rows.len() as int);
        assert(i * r + j < t * r) by (nonlinear_arith)
            requires
                0 <= i < t,
                0 <= j < r,
        ;
        assert(combination(r, i, j) < count);
    }
}

/// The last lines of a list, four at most.
pub open spec fn tail(list: Seq<Seq<char>>) -> Seq<Seq<char>> {
    if list.len() <= 4 {
        list
    } else {
        list.skip(list.len() - 4)
    }
}

/// The message for a reconstruction that failed: its exit status and the last
/// lines that it printed.
pub open spec fn failure(status: Seq<char>, printed: Seq<char>) -> Seq<char> {
    "gridrec failed ("@ + status + "): "@ + joined(tail(lines(trimmed(printed))), " | "@)
}

/// The message for a reconstruction that failed.
pub fn failure_text(status: &str, printed: &str) -> (r: String)
    ensures
        r@ == failure(status@, printed@),
{
    let characters: Vec<char> = text::characters(printed);
    let (from, to) = text::trim_bounds(&characters);
    let all: Vec<String> = text::split_lines(printed.substring_char(from, to));
    let n: usize = all.len();
    let start: usize = if n <= 4 {
        0
    } else {
        n - 4
    };
    let mut last: Vec<String> = Vec::new();
    let mut k: usize = start;
    while k < n
        invariant
            n == all@.len(),
            start <= k <= n,
            last@.len() == k - start,
            forall|j: int| 0 <= j < k - start ==> (#[trigger] last@[j])@ == all@[start + j]@,
        decreases n - k,
    {
        last.push(all[k].clone());
        k = k + 1;
    }
    assert(texts(last@) =~= tail(texts(all@)));
    let joined_lines: String = text::join(&last, " | ");
    let mut r: String = "gridrec failed (".to_owned();
    r.append(status);
    r.append("): ");
    r.append(joined_lines.as_str());
    r
}

/// The message for a reconstruction that failed, from the bytes that it
/// printed.
pub fn gridrec_failure(status: &str, stderr: &[u8]) -> (r: String)
    ensures
        r@ == failure(status@, lossy_text(stderr@)),
{
    let printed: String = text::text_of_bytes(stderr);
    failure_text(status, printed.as_str())
}

/// One test reconstruction: a slice per (tilt, row, center) combination,
/// each `size×size`. Two rows (one near the top, one near the bottom) are
/// the real tilt test: a wrong tilt makes the best center differ between the
/// two heights.
#[derive(Debug)]
pub struct ReconTest {
    pub rows: Vec<usize>,
    pub tilts: Vec<u64>,
    pub centers: Vec<u64>,
    pub size: usize,
    /// `tilts.len() * rows.len() * centers.len() * size * size` samples (bits
    /// of singles).
    pub slices: Vec<u32>,
}

impl ReconTest {
    /// The samples of one slice.
    pub open spec fn slice_size(&self) -> int {
        self.size * self.size
    }

    /// The place of a slice among all of them.
    pub open spec fn slice_number(&self, tilt: int, row: int, center: int) -> int {
        (tilt * self.rows@.len() + row) * self.centers@.len() + center
    }

    /// A test that holds the slices of all combinations.
    pub open spec fn wf(&self) -> bool {
        self.slices@.len() == self.tilts@.len() * self.rows@.len() * self.centers@.len() * self.slice_size()
    }

    /// The slice of a (tilt, row, center) combination.
    pub fn slice(&self, tilt: usize, row: usize, center: usize) -> (r: &[u32])
        requires
            self.slice_size() <= usize::MAX,
            tilt * self.rows@.len() + row <= usize::MAX,
            self.slice_number(tilt as int, row as int, center as int) < usize::MAX,
            (self.slice_number(tilt as int, row as int, center as int) + 1) * self.slice_size() <= self.slices@.len(),
        ensures
            r@ == self.slices@.subrange(
                self.slice_number(tilt as int, row as int, center as int) * self.slice_size(),
                (self.slice_number(tilt as int, row as int, center as int) + 1) * self.slice_size(),
            ),
    {
        let n: usize = self.size * self.size;
        proof {
            assert(self.slices@.len() == self.slices.len());
            let (a, b) = (tilt * self.rows@.len() + row, self.centers@.len() as int);
            assert(0 <= tilt * self.rows@.len()) by (nonlinear_arith);
            assert(0 <= a * b) by (nonlinear_arith)
                requires
                    0 <= a,
                    0 <= b,
            ;
        }
        let k: usize = (tilt * self.rows.len() + row) * self.centers.len() + center;
        proof {
            assert(0 <= k * n <= (k + 1) * n) by (nonlinear_arith)
                requires
                    0 <= n,
            ;
        }
        slice_subrange(self.slices.as_slice(), k * n, (k + 1) * n)
    }
}

/// In a test that holds the slices of all combinations, every combination has
/// its slice.
pub proof fn law_every_combination_has_a_slice(test: &ReconTest, tilt: usize, row: usize, center: usize)
    requires
        test.wf(),
        tilt < test.tilts@.len(),
        row < test.rows@.len(),
        center < test.centers@.len(),
    ensures
        0 <= test.slice_number(tilt as int, row as int, center as int),
        test.slice_size() <= test.slices@.len(),
        (test.slice_number(tilt as int, row as int, center as int) + 1) * test.slice_size() <= test.slices@.len(),
{
    let (t, r, c) = (test.tilts@.len() as int, test.rows@.len() as int, test.centers@.len() as int);
    let n = test.slice_size();
    let k = test.slice_number(tilt as int, row as int, center as int);
    assert(0 <= tilt * r + row < t * r) by (nonlinear_arith)
        requires
            0 <= tilt < t,
            0 <= row < r,
    ;
    let a = tilt * r + row;
    assert(0 <= a * c + center < (t * r) * c) by (nonlinear_arith)
        requires
            0 <= a < t * r,
            0 <= center < c,
    ;
    assert(n >= 0) by (nonlinear_arith)
        requires
            n == test.size * test.size,
    ;
    assert(n <= (k + 1) * n <= (t * r * c) * n) by (nonlinear_arith)
        requires
            0 <= k < t * r * c,
            0 <= n,
    ;
}

/// Two combinations have two slices: no slice is that of another one.
pub proof fn law_combinations_do_not_share_a_slice(test: &ReconTest, a: (int, int, int), b: (int, int, int))
    requires
        0 <= a.1 < test.rows@.len(),
        0 <= a.2 < test.centers@.len(),
        0 <= b.1 < test.rows@.len(),
        0 <= b.2 < test.centers@.len(),
        test.slice_number(a.0, a.1, a.2) == test.slice_number(b.0, b.1, b.2),
    ensures
        a == b,
{
    let (r, c) = (test.rows@.len() as int, test.centers@.len() as int);
    let (p, q) = (a.0 * r + a.1, b.0 * r + b.1);
    assert(p == q && a.2 == b.2) by (nonlinear_arith)
        requires
            p * c + a.2 == q * c + b.2,
            0 <= a.2 < c,
            0 <= b.2 < c,
    ;
    assert(a.0 == b.0 && a.1 == b.1) by (nonlinear_arith)
        requires
            a.0 * r + a.1 == b.0 * r + b.1,
            0 <= a.1 < r,
            0 <= b.1 < r,
    ;
}

/// Why the slices that came back are not those of the test; `None` when they
/// are.
pub open spec fn slices_fault(shape: Seq<usize>, rows: nat, tilts: nat, centers: nat) -> Option<Seq<char>> {
    if shape.len() != 4 {
        Some("unexpected reconstruction shape "@ + bracketed(shape))
    } else if shape[0] != tilts * rows || shape[1] != centers || shape[2] != shape[3] {
        Some(
            "unexpected reconstruction shape "@ + bracketed(shape) + " for "@ + decimal(tilts) + " tilts × "@ + decimal(rows)
                + " rows × "@ + decimal(centers) + " centers"@,
        )
    } else {
        None
    }
}

proof fn lemma_product4(shape: Seq<usize>)
    requires
        shape.len() == 4,
    ensures
        product(shape) == shape[0] * shape[1] * (shape[2] * shape[3]),
{
    reveal_with_fuel(product, 5);
    let (a, b, c, d) = (shape[0] as int, shape[1] as int, shape[2] as int, shape[3] as int);
    assert(shape.drop_last() =~= shape.take(3));
    assert(shape.take(3).drop_last() =~= shape.take(2));
    assert(shape.take(2).drop_last() =~= shape.take(1));
    assert(shape.take(1).drop_last() =~= shape.take(0));
    assert(shape.take(3).last() == shape[2]);
    assert(shape.take(2).last() == shape[1]);
    assert(shape.take(1).last() == shape[0]);
    assert(product(shape.take(0)) == 1);
    assert(product(shape.take(1)) == a) by {
        assert(1 * shape[0] as nat == a);
        assert(product(shape.take(1)) == product(shape.take(0)) * shape[0] as nat);
    }
    assert(product(shape.take(2)) == a * b);
    assert(product(shape.take(3)) == a * b * c);
    assert(product(shape) == a * b * c * d);
    assert(a * b * c * d == a * b * (c * d)) by (nonlinear_arith);
}

/// The test that the slices of the given shape make.
pub fn assemble(
    shape: &Vec<usize>,
    slices: Vec<u32>,
    rows: Vec<usize>,
    tilts: Vec<u64>,
    centers: Vec<u64>,
) -> (r: Result<ReconTest, String>)
    requires
        tilts@.len() * rows@.len() <= usize::MAX,
    ensures
        r is Ok <==> slices_fault(shape@, rows@.len(), tilts@.len(), centers@.len()) is None,
        r matches Err(e) ==> slices_fault(shape@, rows@.len(), tilts@.len(), centers@.len()) == Some(e@),
        r matches Ok(test) ==> {
            &&& (test.rows, test.tilts, test.centers, test.slices) == (rows, tilts, centers, slices)
            &&& test.size == shape@[2]
            &&& slices@.len() == product(shape@) ==> test.wf()
        },
{
    if shape.len() != 4 {
        let mut e: String = "unexpected reconstruction shape ".to_owned();
        let list: String = stack::bracketed_text(shape.as_slice());
        e.append(list.as_str());
        return Err(e);
    }
    let (nt, nr, nc) = (tilts.len(), rows.len(), centers.len());
    if shape[0] != nt * nr || shape[1] != nc || shape[2] != shape[3] {
        let mut e: String = "unexpected reconstruction shape ".to_owned();
        let list: String = stack::bracketed_text(shape.as_slice());
        e.append(list.as_str());
        e.append(" for ");
        text::append_decimal(&mut e, nt);
        e.append(" tilts × ");
        text::append_decimal(&mut e, nr);
        e.append(" rows × ");
        text::append_decimal(&mut e, nc);
        e.append(" centers");
        return Err(e);
    }
    proof {
        lemma_product4(shape@);
    }
    Ok(ReconTest { rows, tilts, centers, size: shape[2], slices })
}

/// The content that a result of the test stands for: the samples and the size
/// of the slices.
pub open spec fn received(path: Seq<char>, bytes: Seq<u8>, rows: nat, tilts: nat, centers: nat) -> Result<(usize, Seq<u32>), Seq<char>> {
    match npy::file_content(path, bytes) {
        Err(e) => Err(e),
        Ok((shape, data)) => match slices_fault(shape, rows, tilts, centers) {
            Some(fault) => Err(fault),
            None => Ok((shape[2], data)),
        },
    }
}

/// The test that the file of the reconstructed slices makes.
pub fn receive(
    path: &str,
    bytes: &[u8],
    rows: Vec<usize>,
    tilts: Vec<u64>,
    centers: Vec<u64>,
) -> (r: Result<ReconTest, String>)
    requires
        npy::header_complete(bytes@),
        tilts@.len() * rows@.len() <= usize::MAX,
    ensures
        r matches Err(e) ==> received(path@, bytes@, rows@.len(), tilts@.len(), centers@.len()) == Err::<(usize, Seq<u32>), Seq<char>>(
            e@,
        ),
        r matches Ok(test) ==> {
            &&& received(path@, bytes@, rows@.len(), tilts@.len(), centers@.len()) == Ok::<(usize, Seq<u32>), Seq<char>>(
                (test.size, test.slices@),
            )
            &&& (test.rows, test.tilts, test.centers) == (rows, tilts, centers)
            &&& test.wf()
        },
{
    match npy::read_f32(path, bytes) {
        Err(e) => Err(e),
        Ok((shape, slices)) => assemble(&shape, slices, rows, tilts, centers),
    }
}

} // verus!
