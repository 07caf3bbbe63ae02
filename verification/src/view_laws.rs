//! What the images and the plot show, in values.
use crate::axis_laws::{lemma_projection, projection};
use crate::fit::{Estimate, RowEstimate};
use crate::fit_laws::unity;
use crate::ieee;
use crate::ieee::{
    absolute32, byte_of, clamped32, finite, finite32, law_byte_value, law_index_value, law_rank32_orders_the_values,
    law_rank_orders_the_values, lemma_scaled32_constants, lemma_scaled_constants, representable, scaled, scaled32,
};
use crate::pairs::Pair;
use crate::resample::{lemma_pixel_in_plane, pixel_before};
use crate::stack::Stack;
use crate::turn_laws::{is_single, lemma_last_place_value, lemma_middle_value, mid, product, product_fits};
use crate::unit::{last_place, rounds32_only_if_needed, rounds_only_if_needed, FloatUnit};
use crate::value_laws::lemma_exact_product;
use crate::view;
use crate::view::{
    axis_at, band_points, brightness_order, darker, difference_pixel, from_the_right, gray, high_place, low_place,
    mirrored_column, mirrored_place, on_line, opposite_pixel, sample_count, sample_step, sampled, widened, window, window_sample,
    ImageView,
};
use vstd::prelude::*;

verus! {

/// The first view of a pair shows its first projection as it is.
pub proof fn law_first_view_is_the_projection<A: FloatUnit>(stack: &Stack, pair: &Pair, axis: Option<(u64, u64)>, out: Vec<u32>)
    requires
        stack.wf(),
        pair.i < stack.n,
        pair.j < stack.n,
        call_ensures(view::view_plane::<A>, (stack, pair, ImageView::Proj0, axis), out),
    ensures
        out@ == projection(stack, pair.i as int),
{
    lemma_projection(stack, pair.i as int);
}

/// The flipped view of a pair shows its second projection with the columns
/// counted from the right.
pub proof fn law_flipped_view_is_mirrored<A: FloatUnit>(
    stack: &Stack,
    pair: &Pair,
    axis: Option<(u64, u64)>,
    out: Vec<u32>,
    x: int,
    y: int,
)
    requires
        stack.wf(),
        pair.i < stack.n,
        pair.j < stack.n,
        call_ensures(view::view_plane::<A>, (stack, pair, ImageView::Proj180Flipped, axis), out),
        0 <= x < stack.width,
        0 <= y < stack.height,
    ensures
        out@.len() == stack.height * stack.width,
        out@[y * stack.width + x] == projection(stack, pair.j as int)[y * stack.width + (stack.width - 1 - x)],
{
    let (w, h) = (stack.width as int, stack.height as int);
    lemma_projection(stack, pair.j as int);
    lemma_pixel_in_plane(w, h, x, y);
    vstd::arithmetic::div_mod::lemma_fundamental_div_mod_converse(y * w + x, w, y, x);
    assert(mirrored_place(y * w + x, w) == y * w + (w - 1 - x));
}

/// The column of a line at row `y`.
pub open spec fn line_value(s: int, b: int, y: int) -> int {
    product(s, y * unity()) + b
}

/// Whether the column of a line at row `y` is made of doubles.
pub open spec fn line_fits(s: int, b: int, y: int) -> bool {
    &&& representable(y * unity())
    &&& product_fits(s, y * unity())
    &&& representable(line_value(s, b, y))
}

/// The column of the axis at row `y`: on its line, or in the middle of the
/// image when there is none.
pub open spec fn axis_column_value(axis: Option<(u64, u64)>, w: int, y: int) -> int {
    match axis {
        Some((s, b)) => line_value(scaled(s), scaled(b), y),
        None => mid(w),
    }
}

/// Whether that column is made of doubles.
pub open spec fn axis_column_fits(axis: Option<(u64, u64)>, w: int, y: int) -> bool {
    match axis {
        Some((s, b)) => finite(s) && finite(b) && line_fits(scaled(s), scaled(b), y),
        None => representable((w - 1) * unity()) && (w - 1) * unity() % 2 == 0 && representable(mid(w)),
    }
}

/// Whether `n` is the whole number nearest to `v`, away from zero when there
/// are two.
pub open spec fn is_nearest(v: int, n: int) -> bool {
    &&& -unity() <= 2 * (v - n * unity()) <= unity()
    &&& 2 * (v - n * unity()) == unity() ==> n < 0
    &&& 2 * (v - n * unity()) == -unity() ==> n > 0
}

/// The absolute difference of two values.
pub open spec fn apart(a: int, b: int) -> int {
    if a < b {
        b - a
    } else {
        a - b
    }
}

proof fn lemma_line_column<A: FloatUnit>(slope: u64, intercept: u64, v: u64, c: u64)
    requires
        rounds_only_if_needed::<A>(),
        finite(slope),
        finite(intercept),
        finite(v),
        product_fits(scaled(slope), scaled(v)),
        representable(product(scaled(slope), scaled(v)) + scaled(intercept)),
        on_line::<A>(slope, intercept, v, c),
    ensures
        finite(c),
        scaled(c) == product(scaled(slope), scaled(v)) + scaled(intercept),
{
    let q = choose|q: u64| #[trigger] call_ensures(A::times, (slope, v), q) && call_ensures(A::plus, (q, intercept), c);
    assert(finite(q) && scaled(q) == product(scaled(slope), scaled(v)));
}

proof fn lemma_axis_column<A: FloatUnit>(axis: Option<(u64, u64)>, w: usize, y: usize, c: u64)
    requires
        rounds_only_if_needed::<A>(),
        representable(w * unity()),
        axis_column_fits(axis, w as int, y as int),
        axis_at::<A>(axis, w, y, c),
    ensures
        finite(c),
        scaled(c) == axis_column_value(axis, w as int, y as int),
{
    match axis {
        Some((s, b)) => {
            let v = choose|v: u64| #[trigger] call_ensures(A::count, (y,), v) && on_line::<A>(s, b, v, c);
            assert(finite(v) && scaled(v) == y * unity());
            lemma_line_column::<A>(s, b, v, c);
        },
        None => lemma_middle_value::<A>(w, c),
    }
}

proof fn lemma_mirrored_column<A: FloatUnit>(c: u64, x: usize, m: u64, n: int)
    requires
        rounds_only_if_needed::<A>(),
        finite(c),
        representable(2 * scaled(c)),
        representable(x * unity()),
        representable(2 * scaled(c) - x * unity()),
        representable(n * unity()),
        is_nearest(2 * scaled(c) - x * unity(), n),
        mirrored_column::<A>(c, x, m),
    ensures
        finite(m),
        scaled(m) == n * unity(),
{
    lemma_scaled_constants();
    let u = unity();
    let (t, v, d) = choose|t: u64, v: u64, d: u64|
        #[trigger] call_ensures(A::times, (ieee::TWO, c), t) && #[trigger] call_ensures(A::count, (x,), v)
            && #[trigger] call_ensures(A::minus, (t, v), d) && call_ensures(A::rounded, (d,), m);
    lemma_exact_product(2, scaled(c), u);
    assert(scaled(ieee::TWO) * scaled(c) == 2 * u * scaled(c));
    assert(finite(ieee::TWO));
    assert(finite(t) && scaled(t) == 2 * scaled(c));
    assert(finite(v) && scaled(v) == x * u);
    assert(finite(d) && scaled(d) == 2 * scaled(c) - x * u);
}

proof fn lemma_difference_value<A: FloatUnit>(
    p0: Seq<u32>,
    p180: Seq<u32>,
    w: usize,
    h: usize,
    axis: Option<(u64, u64)>,
    x: usize,
    y: usize,
    n: int,
    d: u32,
)
    requires
        rounds_only_if_needed::<A>(),
        rounds32_only_if_needed::<A>(),
        x < w,
        y < h,
        p0.len() == h * w,
        p180.len() == h * w,
        forall|k: int| 0 <= k < h * w ==> finite32(#[trigger] p0[k]) && finite32(p180[k]),
        representable(w * unity()),
        axis_column_fits(axis, w as int, y as int),
        representable(2 * axis_column_value(axis, w as int, y as int)),
        representable(x * unity()),
        representable(2 * axis_column_value(axis, w as int, y as int) - x * unity()),
        representable(n * unity()),
        is_nearest(2 * axis_column_value(axis, w as int, y as int) - x * unity(), n),
        0 <= n < w ==> is_single(scaled32(p0[y * w + x]) - scaled32(p180[y * w + n])),
        difference_pixel::<A>(p0, p180, w, axis, x, y, d),
    ensures
        scaled32(d) == if 0 <= n < w {
            apart(scaled32(p0[y * w + x]), scaled32(p180[y * w + n]))
        } else {
            0
        },
{
    lemma_scaled_constants();
    lemma_scaled32_constants();
    let u = unity();
    let (c, m, p, s) = choose|c: u64, m: u64, p: u32, s: u32|
        #[trigger] axis_at::<A>(axis, w, y, c) && #[trigger] mirrored_column::<A>(c, x, m) && #[trigger] opposite_pixel::<A>(
            p0,
            p180,
            w,
            m,
            x,
            y,
            p,
        ) && #[trigger] call_ensures(A::minus32, (p0[y * w + x], p), s) && d == absolute32(s);
    lemma_axis_column::<A>(axis, w, y, c);
    lemma_mirrored_column::<A>(c, x, m, n);
    lemma_pixel_in_plane(w as int, h as int, x as int, y as int);
    let width = choose|width: u64|
        #[trigger] call_ensures(A::count, (w,), width) && p == if ieee::at_most(ieee::ZERO, m) && ieee::below(m, width) {
            p180[y * w + pixel_before(m, w)]
        } else {
            p0[y * w + x]
        };
    assert(finite(width) && scaled(width) == w * u);
    law_rank_orders_the_values(ieee::ZERO, m);
    law_rank_orders_the_values(width, m);
    law_rank32_orders_the_values(s, ieee::ZERO_32);
    law_rank32_orders_the_values(ieee::ZERO_32, s);
    assert(finite32(p0[y * w + x]));
    if 0 <= n < w {
        assert(0 <= n * u < w * u && n * u < usize::MAX * u) by (nonlinear_arith)
            requires
                0 <= n < w,
                w <= usize::MAX,
                u > 0,
        ;
        law_index_value(m);
        vstd::arithmetic::div_mod::lemma_fundamental_div_mod_converse(n * u, u, n, 0);
        assert(pixel_before(m, w) == n);
        lemma_pixel_in_plane(w as int, h as int, n, y as int);
        assert(p == p180[y * w + n]);
        assert(finite32(p0[y * w + n]) && finite32(p));
        let e = choose|e: u32| finite32(e) && #[trigger] scaled32(e) == scaled32(p0[y * w + x]) - scaled32(p);
        assert(scaled32(s) == scaled32(p0[y * w + x]) - scaled32(p));
    } else {
        assert(n * u < 0 || n * u >= w * u) by (nonlinear_arith)
            requires
                n < 0 || n >= w,
                u > 0,
        ;
        assert(p == p0[y * w + x]);
        assert(finite32(ieee::ZERO_32));
        assert(scaled32(ieee::ZERO_32) == scaled32(p) - scaled32(p));
        assert(scaled32(s) == 0);
    }
}

/// The difference view shows at every pixel how far the first projection is
/// from the second one mirrored about the axis, and nothing where the mirrored
/// column lies outside the image.
pub proof fn law_difference_values<A: FloatUnit>(
    stack: &Stack,
    pair: &Pair,
    axis: Option<(u64, u64)>,
    out: Vec<u32>,
    x: usize,
    y: usize,
    n: int,
)
    requires
        rounds_only_if_needed::<A>(),
        rounds32_only_if_needed::<A>(),
        stack.wf(),
        pair.i < stack.n,
        pair.j < stack.n,
        call_ensures(view::view_plane::<A>, (stack, pair, ImageView::Difference, axis), out),
        x < stack.width,
        y < stack.height,
        forall|k: int| 0 <= k < stack.data@.len() ==> finite32(#[trigger] stack.data@[k]),
        representable(stack.width * unity()),
        axis_column_fits(axis, stack.width as int, y as int),
        representable(2 * axis_column_value(axis, stack.width as int, y as int)),
        representable(x * unity()),
        representable(2 * axis_column_value(axis, stack.width as int, y as int) - x * unity()),
        representable(n * unity()),
        is_nearest(2 * axis_column_value(axis, stack.width as int, y as int) - x * unity(), n),
        0 <= n < stack.width ==> is_single(
            scaled32(projection(stack, pair.i as int)[y * stack.width + x]) - scaled32(
                projection(stack, pair.j as int)[y * stack.width + n],
            ),
        ),
    ensures
        out@.len() == stack.height * stack.width,
        scaled32(out@[y * stack.width + x]) == if 0 <= n < stack.width {
            apart(
                scaled32(projection(stack, pair.i as int)[y * stack.width + x]),
                scaled32(projection(stack, pair.j as int)[y * stack.width + n]),
            )
        } else {
            0
        },
{
    let (w, h) = (stack.width, stack.height);
    let (p0, p180) = (projection(stack, pair.i as int), projection(stack, pair.j as int));
    lemma_projection(stack, pair.i as int);
    lemma_projection(stack, pair.j as int);
    assert forall|k: int| 0 <= k < h * w implies finite32(#[trigger] p0[k]) && finite32(p180[k]) by {
        lemma_place_in_stack(stack, pair.i as int, k);
        lemma_place_in_stack(stack, pair.j as int, k);
    }
    assert(difference_pixel::<A>(p0, p180, w, axis, x, y, out@[y * w + x]));
    lemma_difference_value::<A>(p0, p180, w, h, axis, x, y, n, out@[y * w + x]);
}

proof fn lemma_place_in_stack(stack: &Stack, i: int, k: int)
    requires
        stack.wf(),
        0 <= i < stack.n,
        0 <= k < stack.height * stack.width,
    ensures
        0 <= i * (stack.height * stack.width) + k < stack.data@.len(),
{
    let size = stack.height * stack.width;
    assert(0 <= i * size && i * size + size <= stack.n * size) by (nonlinear_arith)
        requires
            0 <= i < stack.n,
            0 <= size,
    ;
}

/// Every how manieth of `n` pixels the window is taken from: about forty
/// thousand of them.
pub open spec fn stride(n: int) -> int {
    if n < 80_000 {
        1
    } else {
        n / 40_000
    }
}

/// The places of the pixels that the window is taken from.
pub open spec fn looked_at(pixels: Seq<u32>) -> Set<int> {
    Set::new(|x: int| 0 <= x < pixels.len() && x % stride(pixels.len() as int) == 0 && finite32(pixels[x]))
}

/// Those of them that are darker than `v`.
pub open spec fn darker_than(pixels: Seq<u32>, v: int) -> Set<int> {
    looked_at(pixels).filter(|x: int| scaled32(pixels[x]) < v)
}

/// Those of them that are brighter than `v`.
pub open spec fn brighter_than(pixels: Seq<u32>, v: int) -> Set<int> {
    looked_at(pixels).filter(|x: int| scaled32(pixels[x]) > v)
}

/// Whether `v` is the value below which one in a hundred lies.
pub open spec fn is_low_end(pixels: Seq<u32>, v: int) -> bool {
    let n = looked_at(pixels).len() as int;
    &&& exists|x: int| looked_at(pixels).contains(x) && scaled32(#[trigger] pixels[x]) == v
    &&& darker_than(pixels, v).len() <= n / 100
    &&& n / 100 < n - brighter_than(pixels, v).len()
}

/// Whether `v` is the value above which one in a hundred lies.
pub open spec fn is_high_end(pixels: Seq<u32>, v: int) -> bool {
    let n = looked_at(pixels).len() as int;
    &&& exists|x: int| looked_at(pixels).contains(x) && scaled32(#[trigger] pixels[x]) == v
    &&& brighter_than(pixels, v).len() <= n / 100
    &&& n / 100 < n - darker_than(pixels, v).len()
}

/// The sampled places, in their order.
spec fn places(pixels: Seq<u32>, step: int, k: int) -> Seq<int>
    decreases k,
{
    if k <= 0 {
        seq![]
    } else if finite32(pixels[(k - 1) * step]) {
        places(pixels, step, k - 1).push((k - 1) * step)
    } else {
        places(pixels, step, k - 1)
    }
}

proof fn lemma_places(pixels: Seq<u32>, step: int, k: int)
    requires
        step >= 1,
        0 <= k,
        (k - 1) * step < pixels.len(),
    ensures
        places(pixels, step, k).len() == sampled(pixels, step, k).len(),
        places(pixels, step, k).len() <= k,
        forall|i: int|
            0 <= i < places(pixels, step, k).len() ==> {
                &&& 0 <= (#[trigger] places(pixels, step, k)[i]) <= (k - 1) * step
                &&& places(pixels, step, k)[i] % step == 0
                &&& finite32(pixels[places(pixels, step, k)[i]])
                &&& sampled(pixels, step, k)[i] == pixels[places(pixels, step, k)[i]]
            },
        forall|i: int, j: int|
            0 <= i < j < places(pixels, step, k).len() ==> #[trigger] places(pixels, step, k)[i] < #[trigger] places(pixels, step, k)[j],
        forall|l: int| 0 <= l < k && finite32(pixels[l * step]) ==> places(pixels, step, k).contains(#[trigger] (l * step)),
    decreases k,
{
    if k > 0 {
        assert((k - 1) * step == (k - 2) * step + step) by (nonlinear_arith);
        lemma_places(pixels, step, k - 1);
        let (before, all) = (places(pixels, step, k - 1), places(pixels, step, k));
        assert(0 <= (k - 1) * step) by (nonlinear_arith)
            requires
                k > 0,
                step >= 1,
        ;
        vstd::arithmetic::div_mod::lemma_mod_multiples_basic(k - 1, step);
        assert forall|l: int| 0 <= l < k && finite32(pixels[l * step]) implies all.contains(#[trigger] (l * step)) by {
            if l < k - 1 {
                assert(before.contains(l * step));
                let i = before.index_of(l * step);
                assert(all[i] == before[i]);
            } else {
                assert(all.last() == l * step);
            }
        }
    }
}

/// The places of the samples from the darkest to the brightest.
spec fn ranking(pixels: Seq<u32>, order: Seq<usize>) -> Seq<int> {
    let n = pixels.len() as int;
    let at = places(pixels, sample_step(n), sample_count(n, sample_step(n)));
    Seq::new(order.len(), |i: int| at[order[i] as int])
}

proof fn lemma_ranking(pixels: Seq<u32>, order: Seq<usize>)
    requires
        pixels.len() <= usize::MAX,
        brightness_order(window_sample(pixels), order),
    ensures
        ranking(pixels, order).len() == window_sample(pixels).len(),
        ranking(pixels, order).no_duplicates(),
        ranking(pixels, order).to_set() == looked_at(pixels),
        forall|i: int, j: int|
            0 <= i < j < ranking(pixels, order).len() ==> scaled32(pixels[#[trigger] ranking(pixels, order)[i]]) <= scaled32(
                pixels[#[trigger] ranking(pixels, order)[j]],
            ),
        forall|i: int|
            0 <= i < order.len() ==> window_sample(pixels)[order[i] as int] == pixels[#[trigger] ranking(pixels, order)[i]],
{
    let n = pixels.len() as int;
    let step = sample_step(n);
    let k = sample_count(n, step);
    let s = window_sample(pixels);
    let at = places(pixels, step, k);
    let list = ranking(pixels, order);
    assert(step == stride(n));
    if n > 0 {
        vstd::arithmetic::div_mod::lemma_fundamental_div_mod(n - 1, step);
        vstd::arithmetic::div_mod::lemma_div_pos_is_pos(n - 1, step);
        assert((k - 1) * step < n) by (nonlinear_arith)
            requires
                n - 1 == step * (k - 1) + (n - 1) % step,
                0 <= (n - 1) % step,
        ;
    } else {
        assert((0 - 1) * step < 0) by (nonlinear_arith)
            requires
                step >= 1,
        ;
    }
    lemma_places(pixels, step, k);
    assert forall|i: int, j: int| 0 <= i < j < list.len() implies #[trigger] list[i] != #[trigger] list[j] && scaled32(pixels[list[i]])
        <= scaled32(pixels[list[j]]) by {
        let (a, b) = (order[i] as int, order[j] as int);
        assert(darker(s, a, b));
        assert(a != b);
        if a < b {
            assert(at[a] < at[b]);
        } else {
            assert(at[b] < at[a]);
        }
        assert(s[a] == pixels[at[a]] && s[b] == pixels[at[b]]);
        law_rank32_orders_the_values(s[a], s[b]);
    }
    assert(list.no_duplicates());
    assert forall|i: int| 0 <= i < list.len() implies window_sample(pixels)[order[i] as int] == pixels[#[trigger] list[i]]
        && looked_at(pixels).contains(list[i]) by {
        let a = order[i] as int;
        assert(s[a] == pixels[at[a]]);
    }
    assert forall|x: int| looked_at(pixels).contains(x) implies list.contains(x) by {
        let l = x / step;
        vstd::arithmetic::div_mod::lemma_fundamental_div_mod(x, step);
        assert(x == l * step) by (nonlinear_arith)
            requires
                x == step * l + 0,
        ;
        assert(0 <= l < k) by {
            vstd::arithmetic::div_mod::lemma_div_is_ordered(x, n - 1, step);
            vstd::arithmetic::div_mod::lemma_div_pos_is_pos(x, step);
        }
        assert(at.contains(l * step));
        let a = at.index_of(x);
        assert(k <= n) by (nonlinear_arith)
            requires
                (k - 1) * step < n,
                step >= 1,
                k >= 1,
        ;
        assert(order.contains(a as usize));
        let i = order.index_of(a as usize);
        assert(list[i] == x);
    }
    assert(list.to_set() =~= looked_at(pixels));
}

proof fn lemma_ends(pixels: Seq<u32>, order: Seq<usize>)
    requires
        pixels.len() <= usize::MAX,
        window_sample(pixels).len() > 0,
        brightness_order(window_sample(pixels), order),
    ensures
        window_sample(pixels).len() == looked_at(pixels).len(),
        ({
            let s = window_sample(pixels);
            let (lo, top) = (s[order[low_place(s.len() as int)] as int], s[order[high_place(s.len() as int)] as int]);
            &&& is_low_end(pixels, scaled32(lo))
            &&& is_high_end(pixels, scaled32(top))
            &&& finite32(lo)
            &&& finite32(top)
        }),
{
    let s = window_sample(pixels);
    let n = s.len() as int;
    let (a, b) = (low_place(n), high_place(n));
    let list = ranking(pixels, order);
    lemma_ranking(pixels, order);
    list.unique_seq_to_set();
    assert(0 <= a < n && 0 <= b < n);
    let (lo, top) = (s[order[a] as int], s[order[b] as int]);
    assert(lo == pixels[list[a]] && top == pixels[list[b]]);
    assert(list.to_set().contains(list[a]) && list.to_set().contains(list[b]));
    lemma_counts(pixels, list, a);
    lemma_counts(pixels, list, b);
}

/// At most `k` places are darker than the `k`-th of the ranking, and at most
/// those behind it are brighter.
proof fn lemma_counts(pixels: Seq<u32>, list: Seq<int>, k: int)
    requires
        0 <= k < list.len(),
        list.no_duplicates(),
        list.to_set() == looked_at(pixels),
        forall|i: int, j: int|
            0 <= i < j < list.len() ==> scaled32(pixels[#[trigger] list[i]]) <= scaled32(pixels[#[trigger] list[j]]),
    ensures
        darker_than(pixels, scaled32(pixels[list[k]])).len() <= k,
        brighter_than(pixels, scaled32(pixels[list[k]])).len() <= list.len() - 1 - k,
{
    let v = scaled32(pixels[list[k]]);
    let (front, back) = (list.take(k), list.skip(k + 1));
    assert forall|x: int| darker_than(pixels, v).contains(x) implies front.to_set().contains(x) by {
        assert(list.to_set().contains(x));
        let i = list.index_of(x);
        assert(list[i] == x);
        assert(i < k);
        assert(front[i] == x);
    }
    assert forall|x: int| brighter_than(pixels, v).contains(x) implies back.to_set().contains(x) by {
        assert(list.to_set().contains(x));
        let i = list.index_of(x);
        assert(list[i] == x);
        assert(i > k);
        assert(back[i - (k + 1)] == x);
    }
    front.lemma_cardinality_of_set();
    back.lemma_cardinality_of_set();
    vstd::seq_lib::seq_to_set_is_finite(front);
    vstd::seq_lib::seq_to_set_is_finite(back);
    vstd::set_lib::lemma_len_subset(darker_than(pixels, v), front.to_set());
    vstd::set_lib::lemma_len_subset(brighter_than(pixels, v), back.to_set());
}

/// The upper end of the window: `top`, or one more than `lo` when `top` is not
/// above it.
pub open spec fn upper_end(lo: int, top: int) -> int {
    if lo < top {
        top
    } else {
        lo + unity()
    }
}

/// The gray of the value `v` in the window from `lo` to `hi`: black up to `lo`,
/// white from `hi` on, and evenly in between.
pub open spec fn gray_value(v: int, lo: int, hi: int) -> int {
    if v <= lo {
        0
    } else if v >= hi {
        255
    } else {
        255 * (v - lo) / (hi - lo)
    }
}

/// The share of the window that lies below `v`.
pub open spec fn share(v: int, lo: int, hi: int) -> int {
    (v - lo) * unity() / (hi - lo)
}

/// Whether the gray of `v` is made of singles.
pub open spec fn gray_fits(v: int, lo: int, hi: int) -> bool {
    &&& is_single(v - lo)
    &&& is_single(hi - lo)
    &&& (v - lo) * unity() % (hi - lo) == 0
    &&& is_single(share(v, lo, hi))
    &&& is_single(255 * share(v, lo, hi))
}

proof fn lemma_gray_value<A: FloatUnit>(v: u32, lo: u32, hi: u32, g: u8)
    requires
        rounds32_only_if_needed::<A>(),
        finite32(v),
        finite32(lo),
        finite32(hi),
        scaled32(lo) < scaled32(hi),
        gray_fits(scaled32(v), scaled32(lo), scaled32(hi)),
        gray::<A>(v, lo, hi, g),
    ensures
        g == gray_value(scaled32(v), scaled32(lo), scaled32(hi)),
{
    lemma_scaled32_constants();
    let u = unity();
    let (x, l, h) = (scaled32(v), scaled32(lo), scaled32(hi));
    let (d, r, q, b) = choose|d: u32, r: u32, q: u32, b: u32|
        #[trigger] call_ensures(A::minus32, (v, lo), d) && #[trigger] call_ensures(A::minus32, (hi, lo), r)
            && #[trigger] call_ensures(A::over32, (d, r), q) && #[trigger] call_ensures(
            A::times32,
            (clamped32(q, ieee::ZERO_32, ieee::ONE_32), ieee::WHITE_32),
            b,
        ) && g == byte_of(b);
    let e1 = choose|e: u32| finite32(e) && #[trigger] scaled32(e) == x - l;
    assert(finite32(d) && scaled32(d) == x - l);
    let e2 = choose|e: u32| finite32(e) && #[trigger] scaled32(e) == h - l;
    assert(finite32(r) && scaled32(r) == h - l);
    let part = share(x, l, h);
    let e3 = choose|e: u32| finite32(e) && #[trigger] scaled32(e) == part;
    vstd::arithmetic::div_mod::lemma_fundamental_div_mod((x - l) * u, h - l);
    assert(part * (h - l) == (x - l) * u) by (nonlinear_arith)
        requires
            (x - l) * u == (h - l) * part + 0,
    ;
    assert(scaled32(e3) * scaled32(r) == scaled32(d) * u);
    assert(finite32(q) && scaled32(q) == part);
    law_rank32_orders_the_values(ieee::ZERO_32, q);
    law_rank32_orders_the_values(q, ieee::ONE_32);
    let c = clamped32(q, ieee::ZERO_32, ieee::ONE_32);
    assert(finite32(ieee::ZERO_32) && finite32(ieee::ONE_32) && finite32(ieee::WHITE_32));
    if part < 0 {
        assert(c == ieee::ZERO_32);
        assert(0 * (255 * u) == 0 * u) by (nonlinear_arith);
        assert(scaled32(ieee::ZERO_32) * u == scaled32(c) * scaled32(ieee::WHITE_32));
        assert(scaled32(b) == 0);
        assert(x < l) by (nonlinear_arith)
            requires
                part * (h - l) == (x - l) * u,
                part < 0,
                h - l > 0,
                u > 0,
        ;
        law_byte_value(b);
        vstd::arithmetic::div_mod::lemma_basic_div(0, u);
    } else if part > u {
        assert(c == ieee::ONE_32);
        assert(u * (255 * u) == 255 * u * u) by (nonlinear_arith);
        assert(scaled32(ieee::WHITE_32) * u == scaled32(c) * scaled32(ieee::WHITE_32));
        assert(scaled32(b) == 255 * u);
        assert(x - l > h - l) by (nonlinear_arith)
            requires
                part * (h - l) == (x - l) * u,
                part > u,
                h - l > 0,
                u > 0,
        ;
        law_byte_value(b);
        vstd::arithmetic::div_mod::lemma_fundamental_div_mod_converse(255 * u, u, 255, 0);
    } else {
        assert(c == q);
        let e4 = choose|e: u32| finite32(e) && #[trigger] scaled32(e) == 255 * part;
        assert((255 * part) * u == part * (255 * u)) by (nonlinear_arith);
        assert(scaled32(e4) * u == scaled32(c) * scaled32(ieee::WHITE_32));
        assert(scaled32(b) == 255 * part);
        law_byte_value(b);
        let k = 255 * part / u;
        vstd::arithmetic::div_mod::lemma_fundamental_div_mod(255 * part, u);
        vstd::arithmetic::div_mod::lemma_mod_division_less_than_divisor(255 * part, u);
        let (rest, f, y) = (255 * part % u, h - l, x - l);
        assert(255 * part == k * u + rest) by (nonlinear_arith)
            requires
                255 * part == u * k + rest,
        ;
        assert((k * u + rest) * f == 255 * y * u) by (nonlinear_arith)
            requires
                255 * part == k * u + rest,
                part * f == y * u,
        ;
        assert(k * f <= 255 * y < k * f + f) by (nonlinear_arith)
            requires
                (k * u + rest) * f == 255 * y * u,
                0 <= rest < u,
                f > 0,
        ;
        vstd::arithmetic::div_mod::lemma_fundamental_div_mod_converse(255 * y, f, k, 255 * y - k * f);
        assert(0 <= y <= f) by (nonlinear_arith)
            requires
                part * f == y * u,
                0 <= part <= u,
                f > 0,
                u > 0,
        ;
        if y == 0 {
            vstd::arithmetic::div_mod::lemma_basic_div(0, f);
        }
        if y == f {
            vstd::arithmetic::div_mod::lemma_fundamental_div_mod_converse(255 * f, f, 255, 0);
        }
    }
}

/// Whether the gray image shows the finite pixels in the window from `lo` to
/// `hi`, each of them whose gray does not round.
pub open spec fn shows_in_window(pixels: Seq<u32>, out: Seq<u8>, lo: int, hi: int) -> bool {
    &&& out.len() == pixels.len()
    &&& forall|k: int|
        0 <= k < pixels.len() && finite32(#[trigger] pixels[k]) && gray_fits(scaled32(pixels[k]), lo, hi) ==> out[k] == gray_value(
            scaled32(pixels[k]),
            lo,
            hi,
        )
}

/// The gray image runs evenly from black at the value below which one in a
/// hundred of the pixels lies to white at the one above which one in a hundred
/// lies.
pub proof fn law_gray_values<A: FloatUnit>(pixels: &Vec<u32>, out: Vec<u8>)
    requires
        rounds32_only_if_needed::<A>(),
        pixels@.len() <= usize::MAX,
        call_ensures(view::grayscale_of::<A>, (pixels,), out),
    ensures
        looked_at(pixels@).len() == 0 ==> shows_in_window(pixels@, out@, 0, unity()),
        looked_at(pixels@).len() > 0 ==> exists|lo: int, top: int|
            #![trigger is_low_end(pixels@, lo), is_high_end(pixels@, top)]
            is_low_end(pixels@, lo) && is_high_end(pixels@, top) && (is_single(upper_end(lo, top)) ==> shows_in_window(
                pixels@,
                out@,
                lo,
                upper_end(lo, top),
            )),
{
    lemma_scaled32_constants();
    let p = pixels@;
    let s = window_sample(p);
    let (lo, hi) = choose|lo: u32, hi: u32|
        #[trigger] window::<A>(window_sample(p), lo, hi) && out@.len() == p.len() && (forall|k: int|
            0 <= k < p.len() ==> gray::<A>(p[k], lo, hi, #[trigger] out@[k]));
    if s.len() == 0 {
        assert(looked_at(p).len() == 0) by {
            let none: Seq<usize> = seq![];
            assert(brightness_order(s, none));
            lemma_ranking(p, none);
            ranking(p, none).unique_seq_to_set();
        }
        assert forall|k: int|
            0 <= k < p.len() && finite32(#[trigger] p[k]) && gray_fits(scaled32(p[k]), 0, unity()) implies out@[k] == gray_value(
            scaled32(p[k]),
            0,
            unity(),
        ) by {
            assert(gray::<A>(p[k], lo, hi, out@[k]));
            lemma_gray_value::<A>(p[k], lo, hi, out@[k]);
        }
    } else {
        let n = s.len() as int;
        let order = choose|order: Seq<usize>|
            #[trigger] brightness_order(s, order) && lo == s[order[low_place(n)] as int] && widened::<A>(
                lo,
                s[order[high_place(n)] as int],
                hi,
            );
        let top = s[order[high_place(n)] as int];
        lemma_ends(p, order);
        let (l, t) = (scaled32(lo), scaled32(top));
        law_rank32_orders_the_values(top, lo);
        if is_single(upper_end(l, t)) {
            if l < t {
                assert(hi == top);
            } else {
                let e = choose|e: u32| finite32(e) && #[trigger] scaled32(e) == upper_end(l, t);
                assert(finite32(ieee::ONE_32));
                assert(scaled32(e) == scaled32(lo) + scaled32(ieee::ONE_32));
            }
            assert(finite32(hi) && scaled32(hi) == upper_end(l, t));
            assert forall|k: int|
                0 <= k < p.len() && finite32(#[trigger] p[k]) && gray_fits(scaled32(p[k]), l, upper_end(l, t)) implies out@[k]
                == gray_value(scaled32(p[k]), l, upper_end(l, t)) by {
                assert(gray::<A>(p[k], lo, hi, out@[k]));
                lemma_gray_value::<A>(p[k], lo, hi, out@[k]);
            }
        }
        assert(is_low_end(p, l) && is_high_end(p, t));
    }
}

/// How many of the first `k` rows carry the flag `used`.
pub open spec fn rows_with(rows: Seq<RowEstimate>, used: bool, k: int) -> int
    decreases k,
{
    if k <= 0 {
        0
    } else {
        rows_with(rows, used, k - 1) + if rows[k - 1].used == used {
            1int
        } else {
            0int
        }
    }
}

proof fn lemma_band_points(rows: Seq<RowEstimate>, used: bool, n: int)
    requires
        0 <= n <= rows.len(),
    ensures
        band_points(rows.take(n), used).len() == rows_with(rows, used, n),
        forall|k: int|
            0 <= k < n && (#[trigger] rows[k]).used == used ==> 0 <= rows_with(rows, used, k) < rows_with(rows, used, n) && band_points(
                rows.take(n),
                used,
            )[rows_with(rows, used, k)] == (rows[k].row, rows[k].cor),
    decreases n,
{
    if n > 0 {
        lemma_band_points(rows, used, n - 1);
        assert(rows.take(n).drop_last() =~= rows.take(n - 1));
        assert(rows.take(n).last() == rows[n - 1]);
    }
}

/// The plot shows the rows with a flag, each at its column, in their order.
pub proof fn law_plot_points_are_the_rows(rows: &Vec<RowEstimate>, used: bool, r: Vec<(u64, u64)>, k: int)
    requires
        call_ensures(view::plot_points, (rows, used), r),
        0 <= k < rows@.len(),
    ensures
        r@.len() == rows_with(rows@, used, rows@.len() as int),
        rows@[k].used == used ==> 0 <= rows_with(rows@, used, k) < r@.len() && r@[rows_with(rows@, used, k)] == (
            rows@[k].row,
            rows@[k].cor,
        ),
{
    lemma_band_points(rows@, used, rows@.len() as int);
    assert(rows@.take(rows@.len() as int) =~= rows@);
}

/// The plotted line runs from the intercept at the first row to the column of
/// the line at the last one.
pub proof fn law_fit_line_values<A: FloatUnit>(est: &Estimate, height: usize, r: ((u64, u64), (u64, u64)))
    requires
        rounds_only_if_needed::<A>(),
        finite(est.slope),
        finite(est.intercept),
        representable(height * unity()),
        line_fits(scaled(est.slope), scaled(est.intercept), height - 1),
        call_ensures(view::fit_line::<A>, (est, height), r),
    ensures
        scaled(r.0.0) == 0,
        r.0.1 == est.intercept,
        scaled(r.1.0) == (height - 1) * unity(),
        scaled(r.1.1) == line_value(scaled(est.slope), scaled(est.intercept), height - 1),
{
    lemma_scaled_constants();
    lemma_last_place_value::<A>(height, r.1.0);
    lemma_line_column::<A>(est.slope, est.intercept, r.1.0, r.1.1);
}

/// The axis is drawn on its line; in the flipped view it is as far from the
/// right border as it is from the left one in the others.
pub proof fn law_overlay_values<A: FloatUnit>(est: &Estimate, width: usize, view: ImageView, v: u64, c: u64)
    requires
        rounds_only_if_needed::<A>(),
        finite(est.slope),
        finite(est.intercept),
        finite(v),
        product_fits(scaled(est.slope), scaled(v)),
        representable(product(scaled(est.slope), scaled(v)) + scaled(est.intercept)),
        representable(width * unity()),
        representable((width - 1) * unity()),
        representable((width - 1) * unity() - (product(scaled(est.slope), scaled(v)) + scaled(est.intercept))),
        call_ensures(view::axis_overlay::<A>, (est, width, view, v), c),
    ensures
        view != ImageView::Proj180Flipped ==> scaled(c) == product(scaled(est.slope), scaled(v)) + scaled(est.intercept),
        view == ImageView::Proj180Flipped ==> scaled(c) + (product(scaled(est.slope), scaled(v)) + scaled(est.intercept)) == (width
            - 1) * unity(),
{
    let a = choose|a: u64|
        #[trigger] on_line::<A>(est.slope, est.intercept, v, a) && if view == ImageView::Proj180Flipped {
            from_the_right::<A>(width, a, c)
        } else {
            c == a
        };
    lemma_line_column::<A>(est.slope, est.intercept, v, a);
    if view == ImageView::Proj180Flipped {
        let last = choose|last: u64| #[trigger] last_place::<A>(width, last) && call_ensures(A::minus, (last, a), c);
        lemma_last_place_value::<A>(width, last);
    }
}

} // verus!
