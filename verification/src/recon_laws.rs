//! What the test reconstruction is handed and what becomes of its answer.
use crate::axis_laws::projection;
use crate::ieee::scaled32;
use crate::npy;
use crate::npy::{npy_file, product, product_fits};
use crate::recon;
use crate::recon::{
    combination, failure, handover_shape, law_handover_is_complete, sampled_row, sinogram, sinogram_size, sinogram_through, tail,
    Handover, ReconTest,
};
use crate::resample::{rotation_by, Rotation};
use crate::stack::Stack;
use crate::text::{joined, lines, trimmed};
use crate::turn_laws::{carries, finite_angles, has_sine_cosine, lemma_carrying_counts, lemma_sinogram_value, row_fits, turned_pixel};
use crate::unit::{rounds_only_if_needed, FloatUnit};
use vstd::prelude::*;

verus! {

/// Rows beyond the stack stand for its last row.
pub proof fn law_rows_beyond_stand_for_the_last<A: FloatUnit>(stack: &Stack, row: usize, tilt: u64, sino: Seq<u32>)
    requires
        stack.wf(),
        row >= stack.height,
    ensures
        sinogram::<A>(stack, row, tilt, sino) <==> sinogram::<A>(stack, (stack.height - 1) as usize, tilt, sino),
{
    let last = (stack.height - 1) as usize;
    assert(sampled_row(stack.height, row) == last && sampled_row(stack.height, last) == last);
    assert forall|t: Rotation| #[trigger]
        sinogram_through::<A>(stack, row, t, sino) <==> sinogram_through::<A>(stack, last, t, sino) by {}
    if sinogram::<A>(stack, row, tilt, sino) {
        let t = choose|t: Rotation|
            #[trigger] rotation_by::<A>(stack.width, stack.height, tilt, t) && sinogram_through::<A>(stack, row, t, sino);
        assert(sinogram_through::<A>(stack, last, t, sino));
    }
    if sinogram::<A>(stack, last, tilt, sino) {
        let t = choose|t: Rotation|
            #[trigger] rotation_by::<A>(stack.width, stack.height, tilt, t) && sinogram_through::<A>(stack, last, t, sino);
        assert(sinogram_through::<A>(stack, row, t, sino));
    }
}

/// A hand-over is made exactly where there is something to reconstruct, and at
/// least three projections carry an angle.
pub proof fn law_handover_needs_three_angles<A: FloatUnit>(
    stack: &Stack,
    rows: &Vec<usize>,
    tilts: &Vec<u64>,
    centers: &Vec<u64>,
    apply_log: bool,
    r: Result<Handover, String>,
)
    requires
        stack.wf(),
        call_ensures(recon::prepare::<A>, (stack, rows, tilts, centers, apply_log), r),
    ensures
        r is Ok <==> rows@.len() > 0 && tilts@.len() > 0 && centers@.len() > 0 && finite_angles(
            stack.angles_deg@,
            stack.n as int,
        ) >= 3,
{
    lemma_carrying_counts(stack.angles_deg@, stack.n as int);
}

/// What is handed over, sample by sample: the file is an array with one
/// sinogram per combination of a tilt and a row, tilt by tilt, one line per
/// projection that carries an angle, and holds at every place the pixel of that
/// projection at that row and column, as the rotation by that tilt would leave
/// it. (The sizes are those of a file that fits in memory.)
pub proof fn law_handover_values<A: FloatUnit>(
    stack: &Stack,
    rows: &Vec<usize>,
    tilts: &Vec<u64>,
    centers: &Vec<u64>,
    apply_log: bool,
    h: Handover,
    path: Seq<char>,
    i: int,
    j: int,
    k: int,
    x: usize,
    sin: int,
    cos: int,
)
    requires
        rounds_only_if_needed::<A>(),
        stack.wf(),
        call_ensures(recon::prepare::<A>, (stack, rows, tilts, centers, apply_log), Ok(h)),
        finite_angles(stack.angles_deg@, stack.n as int) <= usize::MAX,
        tilts@.len() * rows@.len() <= usize::MAX,
        npy::header(handover_shape(stack, rows@, tilts@)).len() + 10 + 4 * (tilts@.len() * rows@.len() * (finite_angles(
            stack.angles_deg@,
            stack.n as int,
        ) * stack.width)) <= usize::MAX,
        0 <= i < tilts@.len(),
        0 <= j < rows@.len(),
        rows@[j] < stack.height,
        0 <= k < finite_angles(stack.angles_deg@, stack.n as int),
        x < stack.width,
        has_sine_cosine::<A>(tilts@[i], sin, cos),
        row_fits(stack, sin, cos, x as int, rows@[j] as int),
    ensures
        exists|data: Seq<u32>, q: int| #[trigger]
            carries(stack.angles_deg@, stack.n as int, k, q) && npy::file_content(path, h.sinograms@) == Ok::<
                (Seq<usize>, Seq<u32>),
                Seq<char>,
            >(
                (
                    seq![
                        (tilts@.len() * rows@.len()) as usize,
                        finite_angles(stack.angles_deg@, stack.n as int) as usize,
                        stack.width,
                    ],
                    data,
                ),
            ) && scaled32(
                #[trigger] data[((i * rows@.len() + j) * finite_angles(stack.angles_deg@, stack.n as int) + k) * stack.width + x],
            ) == turned_pixel(
                projection(stack, q),
                stack.width as int,
                stack.height as int,
                sin,
                cos,
                x as int,
                rows@[j] as int,
            ),
{
    let n = finite_angles(stack.angles_deg@, stack.n as int);
    let (w, nr) = (stack.width as int, rows@.len() as int);
    lemma_carrying_counts(stack.angles_deg@, stack.n as int);
    assert(sinogram_size(stack) == n * w);
    law_handover_is_complete::<A>(stack, rows@, tilts@, centers@, apply_log, h, path);
    let size = sinogram_size(stack);
    let sinos = choose|sinos: Seq<u32>| #[trigger]
        recon::gathered::<A>(stack, rows@, tilts@, (tilts@.len() * rows@.len()) as int, sinos) && npy::file_content(path, h.sinograms@)
            == Ok::<(Seq<usize>, Seq<u32>), Seq<char>>((handover_shape(stack, rows@, tilts@), sinos)) && forall|a: int, b: int|
            0 <= a < tilts@.len() && 0 <= b < rows@.len() ==> sinogram::<A>(
                stack,
                #[trigger] rows@[b],
                #[trigger] tilts@[a],
                sinos.subrange(combination(nr, a, b) * size, combination(nr, a, b) * size + size),
            );
    let at = combination(nr, i, j);
    let sino = sinos.subrange(at * size, at * size + size);
    let q = lemma_sinogram_value::<A>(stack, rows@[j], tilts@[i], sin, cos, k, x, sino);
    let count = (tilts@.len() * rows@.len()) as int;
    assert(0 <= at < count) by (nonlinear_arith)
        requires
            at == i * nr + j,
            0 <= i < tilts@.len(),
            0 <= j < nr,
            count == tilts@.len() * nr,
    ;
    assert(0 <= at * size && at * size + size <= count * size) by (nonlinear_arith)
        requires
            0 <= at < count,
            0 <= size,
    ;
    assert(0 <= k * w + x < n * w) by (nonlinear_arith)
        requires
            0 <= k < n,
            0 <= x < w,
    ;
    assert((at * n + k) * w + x == at * (n * w) + (k * w + x)) by (nonlinear_arith);
    assert(sino[k * w + x] == sinos[at * size + (k * w + x)]);
    let place = ((i * rows@.len() + j) * n + k) * stack.width + x;
    assert(sinos[place] == sino[k * w + x]);
    assert(carries(stack.angles_deg@, stack.n as int, k, q));
}

/// The slices stand center by center, then row by row, then tilt by tilt.
pub proof fn law_slices_follow_each_other(test: &ReconTest, tilt: int, row: int, center: int)
    ensures
        test.slice_number(0, 0, 0) == 0,
        test.slice_number(tilt, row, center + 1) == test.slice_number(tilt, row, center) + 1,
        test.slice_number(tilt, row + 1, 0) == test.slice_number(tilt, row, test.centers@.len() - 1) + 1,
        test.slice_number(tilt + 1, 0, 0) == test.slice_number(tilt, test.rows@.len() - 1, test.centers@.len() - 1) + 1,
{
    let (r, c) = (test.rows@.len() as int, test.centers@.len() as int);
    let (a, b) = (tilt * r + row, tilt * r + r - 1);
    assert(0 * r == 0 && 0 * c == 0) by (nonlinear_arith);
    assert((a + 1) * c == a * c + c) by (nonlinear_arith);
    assert((tilt + 1) * r == b + 1) by (nonlinear_arith)
        requires
            b == tilt * r + r - 1,
    ;
    assert((b + 1) * c == b * c + c) by (nonlinear_arith);
    assert(tilt * r + (row + 1) == a + 1);
    assert(tilt * r + (r - 1) == b);
    assert((tilt + 1) * r + 0 == b + 1);
}

/// The slices of a combination of a tilt and a row belong to the sinogram of
/// that combination: they stand where the reconstructions of that sinogram do.
pub proof fn law_slices_belong_to_their_sinogram(test: &ReconTest, tilt: int, row: int, center: int)
    ensures
        test.slice_number(tilt, row, center) == combination(test.rows@.len() as int, tilt, row) * test.centers@.len() + center,
{
}

/// A slice is made of the samples from its place on.
pub proof fn law_slice_samples(test: &ReconTest, tilt: usize, row: usize, center: usize, r: &[u32], p: int)
    requires
        test.wf(),
        tilt < test.tilts@.len(),
        row < test.rows@.len(),
        center < test.centers@.len(),
        call_ensures(ReconTest::slice, (test, tilt, row, center), r),
        0 <= p < test.size * test.size,
    ensures
        r@.len() == test.size * test.size,
        r@[p] == test.slices@[((tilt * test.rows@.len() + row) * test.centers@.len() + center) * (test.size * test.size) + p],
{
    recon::law_every_combination_has_a_slice(test, tilt, row, center);
    let (k, n) = (test.slice_number(tilt as int, row as int, center as int), test.slice_size());
    assert((k + 1) * n == k * n + n && 0 <= k * n) by (nonlinear_arith)
        requires
            0 <= k,
            0 <= n,
    ;
}

/// Slices make a test exactly where there is a square one for every combination
/// of a tilt, a row and a center.
pub proof fn law_slices_must_match_the_test(
    shape: &Vec<usize>,
    slices: Vec<u32>,
    rows: Vec<usize>,
    tilts: Vec<u64>,
    centers: Vec<u64>,
    r: Result<ReconTest, String>,
)
    requires
        call_ensures(recon::assemble, (shape, slices, rows, tilts, centers), r),
    ensures
        r is Ok <==> exists|size: usize| #[trigger]
            is_shape(shape@, tilts@.len() * rows@.len(), centers@.len(), size),
        r matches Ok(test) ==> is_shape(shape@, tilts@.len() * rows@.len(), centers@.len(), test.size) && (
            test.rows,
            test.tilts,
            test.centers,
            test.slices,
        ) == (rows, tilts, centers, slices),
{
    if let Ok(test) = r {
        assert(is_shape(shape@, tilts@.len() * rows@.len(), centers@.len(), test.size));
    }
}

/// Whether a shape is that of `a` times `b` squares of `size` rows.
pub open spec fn is_shape(shape: Seq<usize>, a: nat, b: nat, size: usize) -> bool {
    shape.len() == 4 && shape[0] == a && shape[1] == b && shape[2] == size && shape[3] == size
}

/// A file of slices with the shape of a test is received as that test: with
/// the same rows, tilts, centers and samples. (The sizes are those of a file that
/// fits in memory.)
pub proof fn law_slices_are_received(
    path: &str,
    bytes: &[u8],
    rows: Vec<usize>,
    tilts: Vec<u64>,
    centers: Vec<u64>,
    size: usize,
    data: Seq<u32>,
    r: Result<ReconTest, String>,
)
    requires
        tilts@.len() * rows@.len() <= usize::MAX,
        centers@.len() <= usize::MAX,
        ({
            let shape = seq![(tilts@.len() * rows@.len()) as usize, centers@.len() as usize, size, size];
            &&& product_fits(shape)
            &&& product(shape) == data.len()
            &&& npy::npy_file_len(shape) <= usize::MAX
            &&& npy::header(shape).len() < 65536
            &&& bytes@ == npy_file(shape, data)
        }),
        call_ensures(recon::receive, (path, bytes, rows, tilts, centers), r),
    ensures
        r matches Ok(test) && test.wf() && (test.rows, test.tilts, test.centers, test.size) == (rows, tilts, centers, size)
            && test.slices@ == data,
{
    let shape = seq![(tilts@.len() * rows@.len()) as usize, centers@.len() as usize, size, size];
    npy::law_write_then_read(path@, shape, data);
}

/// The message of a failure ends with the last four lines that were printed, or
/// with all of them where they are fewer.
pub proof fn law_failure_shows_the_last_lines(status: Seq<char>, printed: Seq<char>)
    ensures
        exists|earlier: Seq<Seq<char>>, last: Seq<Seq<char>>|
            #![trigger earlier + last]
            lines(trimmed(printed)) == earlier + last && (last.len() == 4 || last.len() < 4 && earlier.len() == 0) && failure(
                status,
                printed,
            ) == "gridrec failed ("@ + status + "): "@ + joined(last, " | "@),
{
    let all = lines(trimmed(printed));
    let last = tail(all);
    let earlier = all.take(all.len() - last.len());
    assert(all =~= earlier + last);
}

} // verus!
