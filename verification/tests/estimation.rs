//! Pairs, row bands, shifts, fits and rotations on real numbers.
use tilt_center_of_rotation::algorithms::{
    apply_tilt, bands, consensus_column, global_cor, multi_pair, multi_pair_method, pair_column, rotate_stack, single_pair,
    single_pair_method, Estimate, Params, RowEstimate,
};
use tilt_center_of_rotation::fit::{fit_estimate, linear_fit, trimmed_fit};
use tilt_center_of_rotation::job::EstimateJob;
use tilt_center_of_rotation::pairs::{opposite_pairs, Pair};
use tilt_center_of_rotation::profile::{band_profile, best_shift, radius, refine_shift, shift_error, sum_of};
use tilt_center_of_rotation::resample::{resample, rotate_plane, rotation};
use tilt_center_of_rotation::stack::Stack;
use tilt_center_of_rotation::unit::{affine_of, last_place_of, middle_of, product3_of, FloatUnit};

/// The arithmetic of the machine.
struct Real;

fn bits(x: f64) -> u64 {
    x.to_bits()
}

fn double(b: u64) -> f64 {
    f64::from_bits(b)
}

fn single(b: u32) -> f32 {
    f32::from_bits(b)
}

impl FloatUnit for Real {
    fn plus(a: u64, b: u64) -> u64 {
        bits(double(a) + double(b))
    }
    fn minus(a: u64, b: u64) -> u64 {
        bits(double(a) - double(b))
    }
    fn times(a: u64, b: u64) -> u64 {
        bits(double(a) * double(b))
    }
    fn over(a: u64, b: u64) -> u64 {
        bits(double(a) / double(b))
    }
    fn remainder(a: u64, b: u64) -> u64 {
        bits(double(a).rem_euclid(double(b)))
    }
    fn square(a: u64) -> u64 {
        bits(double(a).powi(2))
    }
    fn root(a: u64) -> u64 {
        bits(double(a).sqrt())
    }
    fn rounded(a: u64) -> u64 {
        bits(double(a).round())
    }
    fn arctan(a: u64) -> u64 {
        bits(double(a).atan())
    }
    fn degrees(a: u64) -> u64 {
        bits(double(a).to_degrees())
    }
    fn radians(a: u64) -> u64 {
        bits(double(a).to_radians())
    }
    fn sine_cosine(a: u64) -> (u64, u64) {
        let (sin, cos) = double(a).sin_cos();
        (bits(sin), bits(cos))
    }
    fn count(n: usize) -> u64 {
        bits(n as f64)
    }
    fn offset(s: isize) -> u64 {
        bits(s as f64)
    }
    fn widen(p: u32) -> u64 {
        bits(f64::from(single(p)))
    }
    fn narrow(a: u64) -> u32 {
        (double(a) as f32).to_bits()
    }
    fn plus32(p: u32, q: u32) -> u32 {
        (single(p) + single(q)).to_bits()
    }
    fn minus32(p: u32, q: u32) -> u32 {
        (single(p) - single(q)).to_bits()
    }
    fn times32(p: u32, q: u32) -> u32 {
        (single(p) * single(q)).to_bits()
    }
    fn over32(p: u32, q: u32) -> u32 {
        (single(p) / single(q)).to_bits()
    }
    fn fixed2(a: u64) -> String {
        format!("{:.2}", double(a))
    }
    fn fixed3(a: u64) -> String {
        format!("{:.3}", double(a))
    }
    fn signed3(a: u64) -> String {
        format!("{:+.3}", double(a))
    }
    fn json_number(a: u64) -> String {
        serde_json::Value::from(double(a)).to_string()
    }
}

fn all_bits(values: &[f64]) -> Vec<u64> {
    values.iter().map(|&v| bits(v)).collect()
}

fn doubles(values: &[u64]) -> Vec<f64> {
    values.iter().map(|&v| double(v)).collect()
}

fn points(values: &[(f64, f64)]) -> Vec<(u64, u64)> {
    values.iter().map(|&(x, y)| (bits(x), bits(y))).collect()
}

/// Tiny deterministic pseudo-random stream.
struct Lcg(u64);

impl Lcg {
    fn next(&mut self) -> f64 {
        self.0 = self.0.wrapping_mul(6364136223846793005).wrapping_add(1442695040888963407);
        (self.0 >> 33) as f64 / (1u64 << 31) as f64
    }
}

/// Linear interpolation of a row at fractional column `x`.
fn sample(row: &[f32], x: f64) -> f32 {
    let w = row.len();
    let xc = x.clamp(0.0, w as f64 - 1.0);
    let x0 = xc.floor() as usize;
    let x1 = (x0 + 1).min(w - 1);
    let f = xc - x0 as f64;
    (f64::from(row[x0]) * (1.0 - f) + f64::from(row[x1]) * f) as f32
}

fn stack_of(data: Vec<f32>, n: usize, height: usize, width: usize, angles: &[f64]) -> Stack {
    Stack {
        path: String::new(),
        data: data.iter().map(|v| v.to_bits()).collect(),
        n,
        height,
        width,
        angles_deg: all_bits(angles),
        center_of_rotation: None,
        previous_corrections: Vec::new(),
    }
}

/// A synthetic stack whose 0° projection is smooth noise and whose 180°
/// projection mirrors it about a tilted axis `c(y) = c0 + m·(y - mid)`.
fn synthetic(c0: f64, m: f64, n_pairs: usize) -> Stack {
    let (h, w) = (120, 200);
    let mut rng = Lcg(7);
    let mut planes: Vec<Vec<f32>> = Vec::new();
    let mut angles = Vec::new();
    for k in 0..n_pairs {
        // Smooth pseudo-random image: sum of a few sinusoids with
        // random phases (different per pair).
        let (a1, a2, a3) = (rng.next() * 6.0, rng.next() * 6.0, rng.next() * 6.0);
        let mut p0 = vec![0.0f32; h * w];
        for y in 0..h {
            for x in 0..w {
                let xf = x as f64 / w as f64;
                let yf = y as f64 / h as f64;
                p0[y * w + x] = ((xf * 19.0 + a1).sin()
                    + (xf * 7.0 + yf * 3.0 + a2).sin()
                    + (xf * 31.0 + a3).cos() * 0.5) as f32;
            }
        }
        let mid = (h as f64 - 1.0) / 2.0;
        let mut p180 = vec![0.0f32; h * w];
        for y in 0..h {
            let c = c0 + m * (y as f64 - mid);
            let row0 = &p0[y * w..(y + 1) * w];
            for x in 0..w {
                p180[y * w + x] = sample(row0, 2.0 * c - x as f64);
            }
        }
        planes.push(p0);
        planes.push(p180);
        angles.push(k as f64 * 2.0);
        angles.push(k as f64 * 2.0 + 180.0);
    }
    stack_of(planes.concat(), 2 * n_pairs, h, w, &angles)
}

fn pairs_of(stack: &Stack) -> Vec<Pair> {
    opposite_pairs::<Real>(&stack.angles_deg, bits(0.1))
}

#[test]
fn single_pair_recovers_center_and_tilt() {
    let (c0, m): (f64, f64) = (91.3, 0.02); // tilt ≈ 1.15°
    let stack = synthetic(c0, m, 1);
    let pairs = pairs_of(&stack);
    let params = Params::defaults_for(stack.height, stack.width);
    let e = single_pair::<Real>(&stack, &pairs[0], &params).unwrap();
    assert!((double(e.cor) - c0).abs() < 0.5, "cor {} vs {c0}", double(e.cor));
    let true_tilt = m.atan().to_degrees();
    assert!((double(e.tilt_deg) - true_tilt).abs() < 0.1, "tilt {} vs {true_tilt}", double(e.tilt_deg));
    assert!(double(e.r2) > 0.95, "r2 {}", double(e.r2));
}

#[test]
fn multi_pair_recovers_center_and_tilt() {
    let (c0, m): (f64, f64) = (104.6, -0.015);
    let stack = synthetic(c0, m, 4);
    let pairs = pairs_of(&stack);
    assert!(pairs.len() >= 4);
    let params = Params::defaults_for(stack.height, stack.width);
    let e = multi_pair::<Real>(&stack, &pairs, &params).unwrap();
    assert!((double(e.cor) - c0).abs() < 0.5, "cor {} vs {c0}", double(e.cor));
    let true_tilt = m.atan().to_degrees();
    assert!((double(e.tilt_deg) - true_tilt).abs() < 0.1, "tilt {} vs {true_tilt}", double(e.tilt_deg));
}

#[test]
fn global_cor_matches_on_untilted_stack() {
    let c0 = 88.25;
    let stack = synthetic(c0, 0.0, 1);
    let pairs = pairs_of(&stack);
    let params = Params::defaults_for(stack.height, stack.width);
    let c = double(global_cor::<Real>(&stack, &pairs[0], &params).unwrap());
    assert!((c - c0).abs() < 0.5, "global cor {c} vs {c0}");
}

#[test]
fn rotation_is_exact_on_a_linear_ramp() {
    // Bilinear interpolation reproduces a linear function exactly, so
    // rotating f(x,y) = 2x + 3y must give f(R⁻¹(x,y)) at every interior
    // pixel.
    let (h, w) = (41, 53);
    let data = (0..h * w).map(|i| (2 * (i % w) + 3 * (i / w)) as f32).collect();
    let mut stack = stack_of(data, 1, h, w, &[0.0]);
    let angle: f64 = 1.7;
    rotate_stack::<Real>(&mut stack, bits(angle));
    let (sin, cos) = angle.to_radians().sin_cos();
    let (cx, cy) = ((w as f64 - 1.0) / 2.0, (h as f64 - 1.0) / 2.0);
    for y in 10..h - 10 {
        for x in 10..w - 10 {
            let dx = x as f64 - cx;
            let dy = y as f64 - cy;
            let sx = cos * dx + sin * dy + cx;
            let sy = -sin * dx + cos * dy + cy;
            let expected = 2.0 * sx + 3.0 * sy;
            let got = f64::from(single(stack.data[y * w + x]));
            assert!((got - expected).abs() < 1e-3, "({x},{y}): {got} vs {expected}");
        }
    }
}

#[test]
fn measure_rotate_measure_converges() {
    // Apply the measured correction and re-measure: the residual tilt
    // must be an order of magnitude smaller.
    let (c0, m) = (97.0, 0.03);
    let mut stack = synthetic(c0, m, 1);
    let pairs = pairs_of(&stack);
    let params = Params::defaults_for(stack.height, stack.width);
    let before = single_pair::<Real>(&stack, &pairs[0], &params).unwrap();
    apply_tilt::<Real>(&mut stack, before.tilt_deg);
    let after = single_pair::<Real>(&stack, &pairs[0], &params).unwrap();
    assert!(
        double(after.tilt_deg).abs() < double(before.tilt_deg).abs() / 5.0,
        "tilt {} -> {}",
        double(before.tilt_deg),
        double(after.tilt_deg)
    );
}

#[test]
fn finds_exact_and_near_pairs() {
    let angles = all_bits(&[0.0, 90.0, 180.0, 270.1]);
    let pairs = opposite_pairs::<Real>(&angles, bits(0.5));
    assert_eq!(pairs.len(), 2);
    assert_eq!((pairs[0].i, pairs[0].j), (0, 2)); // exact first
    assert_eq!((pairs[1].i, pairs[1].j), (1, 3));
    assert!((double(pairs[1].error_deg) - 0.1).abs() < 1e-9);
}

#[test]
fn wraps_modulo_360() {
    let angles = all_bits(&[350.0, 170.0]);
    let pairs = opposite_pairs::<Real>(&angles, bits(0.1));
    assert_eq!(pairs.len(), 1);
    assert_eq!((pairs[0].i, pairs[0].j), (0, 1));
}

#[test]
fn ignores_nan_and_unpaired() {
    let angles = all_bits(&[0.0, f64::NAN, 90.0]);
    assert!(opposite_pairs::<Real>(&angles, bits(0.5)).is_empty());
}

#[test]
fn pairs_stand_by_error_then_angle_then_scan() {
    let angles = all_bits(&[20.0, 10.0, 200.0, 190.0, 200.0, 10.25]);
    let pairs = opposite_pairs::<Real>(&angles, bits(0.5));
    let order: Vec<(usize, usize)> = pairs.iter().map(|p| (p.i, p.j)).collect();
    assert_eq!(order, vec![(1, 3), (0, 2), (0, 4), (3, 5)]);
    assert_eq!(doubles(&[pairs[0].angle_i, pairs[0].angle_j, pairs[0].error_deg]), vec![10.0, 190.0, 0.0]);
    assert_eq!(double(pairs[3].error_deg), 0.25);
    assert!(opposite_pairs::<Real>(&all_bits(&[0.0, f64::INFINITY, 180.5]), bits(0.25)).is_empty());
    assert!(opposite_pairs::<Real>(&all_bits(&[0.0, 180.0]), bits(f64::NAN)).is_empty());
    assert!(opposite_pairs::<Real>(&[], bits(1.0)).is_empty());
}

#[test]
fn pair_labels_have_two_digits() {
    let p = Pair { i: 0, j: 1, angle_i: bits(0.125), angle_j: bits(180.5), error_deg: bits(0.375) };
    assert_eq!(p.label::<Real>(), "0.12° / 180.50°  (Δ 0.38°)");
    assert_eq!(single_pair_method::<Real>(&p), "0/180 pair 0.12° / 180.50°  (Δ 0.38°)");
    assert_eq!(multi_pair_method(32), "consensus of 32 opposite pairs");
}

#[test]
fn places_and_small_expressions() {
    assert_eq!(double(last_place_of::<Real>(7)), 6.0);
    assert_eq!(double(middle_of::<Real>(8)), 3.5);
    assert_eq!(double(affine_of::<Real>(bits(2.0), bits(3.0), bits(4.0), bits(5.0), bits(0.5))), 26.5);
    assert_eq!(double(product3_of::<Real>(bits(2.0), bits(3.0), bits(4.0))), 24.0);
}

#[test]
fn default_settings_follow_the_stack() {
    let p = Params::defaults_for(120, 200);
    assert_eq!(p, Params { y_top: 6, y_bottom: 113, ystep: 2, band: 5, max_shift: 66 });
    let p = Params::defaults_for(1, 3);
    assert_eq!(p, Params { y_top: 0, y_bottom: 0, ystep: 1, band: 5, max_shift: 10 });
}

#[test]
fn bands_stay_in_the_rows() {
    let p = Params { y_top: 2, y_bottom: 11, ystep: 3, band: 4, max_shift: 5 };
    let list: Vec<(usize, f64)> = bands::<Real>(20, &p).iter().map(|&(y, c)| (y, double(c))).collect();
    assert_eq!(list, vec![(2, 3.5), (5, 6.5), (8, 9.5)]);
    // Settings of zero count as one, rows beyond the stack as the last ones.
    let p = Params { y_top: 0, y_bottom: 99, ystep: 0, band: 0, max_shift: 5 };
    let starts: Vec<usize> = bands::<Real>(3, &p).iter().map(|b| b.0).collect();
    assert_eq!(starts, vec![0, 1, 2]);
    let p = Params { y_top: 9, y_bottom: 99, ystep: 1, band: 1, max_shift: 5 };
    let starts: Vec<usize> = bands::<Real>(6, &p).iter().map(|b| b.0).collect();
    assert_eq!(starts, vec![5]);
    // Bands that do not fit into the rows, and rows upside down, give none.
    let p = Params { y_top: 8, y_bottom: 9, ystep: 1, band: 5, max_shift: 10 };
    assert!(bands::<Real>(10, &p).is_empty());
    let p = Params { y_top: 9, y_bottom: 99, ystep: 1, band: 4, max_shift: 5 };
    assert!(bands::<Real>(6, &p).is_empty());
    let p = Params { y_top: 0, y_bottom: 99, ystep: 1, band: 7, max_shift: 5 };
    assert!(bands::<Real>(6, &p).is_empty());
    let p = Params { y_top: 5, y_bottom: 2, ystep: 1, band: 1, max_shift: 5 };
    assert!(bands::<Real>(9, &p).is_empty());
    // Steps and bands beyond all bounds do not wrap around.
    let p = Params { y_top: 0, y_bottom: usize::MAX, ystep: usize::MAX, band: 2, max_shift: 5 };
    assert_eq!(bands::<Real>(9, &p).len(), 1);
    let p = Params { y_top: usize::MAX, y_bottom: usize::MAX, ystep: 1, band: usize::MAX, max_shift: 5 };
    assert!(bands::<Real>(9, &p).is_empty());
}

#[test]
fn profiles_have_mean_zero_and_deviation_one() {
    let plane: Vec<u32> = [9.0f32, 9.0, 9.0, 0.0, 1.0, 2.0, 1.0, 2.0, 3.0].iter().map(|v| v.to_bits()).collect();
    let p = doubles(&band_profile::<Real>(&plane, 3, 1, 2));
    // Column sums 1, 3, 5: mean 3, deviation the root of 8/3.
    let std = (8.0f64 / 3.0).sqrt();
    assert_eq!(p, vec![-2.0 / std, 0.0, 2.0 / std]);
    // Where nothing rounds, the mean is zero and the mean square one.
    let plane: Vec<u32> = [1.0f32, 3.0].iter().map(|v| v.to_bits()).collect();
    assert_eq!(doubles(&band_profile::<Real>(&plane, 2, 0, 1)), vec![-1.0, 1.0]);
    // A flat profile stays flat.
    let flat: Vec<u32> = vec![1.5f32.to_bits(); 6];
    assert_eq!(doubles(&band_profile::<Real>(&flat, 3, 0, 2)), vec![0.0, 0.0, 0.0]);
}

#[test]
fn profiles_depend_on_their_rows_and_not_on_the_intensity() {
    let mut rng = Lcg(3);
    let (w, h) = (17, 9);
    let plane: Vec<f32> = (0..w * h).map(|_| rng.next() as f32).collect();
    let coded = |values: &[f32]| values.iter().map(|v| v.to_bits()).collect::<Vec<u32>>();
    let p = band_profile::<Real>(&coded(&plane), w, 2, 4);
    // Every sample doubled: the same profile, to the last bit.
    let bright: Vec<f32> = plane.iter().map(|v| 2.0 * v).collect();
    assert_eq!(band_profile::<Real>(&coded(&bright), w, 2, 4), p);
    // Rows outside the band do not count, those inside do.
    let mut other = plane.clone();
    other[..2 * w].fill(77.0);
    other[6 * w..].fill(f32::NAN);
    assert_eq!(band_profile::<Real>(&coded(&other), w, 2, 4), p);
    other[5 * w] = 77.0;
    assert_ne!(band_profile::<Real>(&coded(&other), w, 2, 4), p);
    // Mean zero and mean square one, up to rounding.
    let values = doubles(&p);
    assert!(values.iter().sum::<f64>().abs() < 1e-12);
    assert!((values.iter().map(|v| v * v).sum::<f64>() / w as f64 - 1.0).abs() < 1e-12);
}

#[test]
fn shift_errors_are_symmetric() {
    let mut rng = Lcg(5);
    let a: Vec<u64> = (0..9).map(|_| bits(rng.next())).collect();
    let f: Vec<u64> = (0..9).map(|_| bits(rng.next())).collect();
    for s in -10..=10 {
        assert_eq!(shift_error::<Real>(&a, &f, s), shift_error::<Real>(&f, &a, -s), "{s}");
    }
}

#[test]
fn refined_shifts_stay_near_the_least_error() {
    let mut rng = Lcg(11);
    for round in 0..50 {
        let errors: Vec<f64> = (0..9).map(|_| rng.next()).collect();
        let least = (0..9).min_by(|&i, &j| errors[i].total_cmp(&errors[j])).unwrap();
        let r = double(refine_shift::<Real>(&all_bits(&errors), 4));
        assert!((r - (least as f64 - 4.0)).abs() <= 0.5 + 1e-12, "{round}: {r}");
        assert!(r.abs() <= 4.0);
        if least == 0 || least == 8 {
            assert_eq!(r, least as f64 - 4.0);
        }
    }
}

#[test]
fn shift_errors_count_the_overlap_only() {
    let a = all_bits(&[1.0, 2.0, 3.0, 4.0]);
    let f = all_bits(&[0.0, 1.0, 2.0, 3.0]);
    assert_eq!(double(shift_error::<Real>(&a, &f, 0)), 1.0);
    assert_eq!(double(shift_error::<Real>(&a, &f, 1)), 0.0);
    assert_eq!(double(shift_error::<Real>(&a, &f, -1)), 4.0);
    assert_eq!(double(shift_error::<Real>(&a, &f, 3)), 4.0);
    assert_eq!(double(shift_error::<Real>(&all_bits(&[1.0, 2.0, 3.0]), &all_bits(&[9.0, 1.0, 2.0]), 1)), 0.0);
    assert_eq!(double(shift_error::<Real>(&all_bits(&[1.0, 2.0, 6.0]), &all_bits(&[9.0, 1.0, 4.0]), 1)), 2.0);
    // No overlap at all: nothing is summed, over a count of one.
    assert_eq!(double(shift_error::<Real>(&a, &f, 9)), 0.0);
    assert_eq!(double(sum_of::<Real>(&a)), 10.0);
    assert_eq!(sum_of::<Real>(&Vec::new()), bits(-0.0));
}

#[test]
fn flipping_turns_the_mirror_into_a_shift() {
    let a: Vec<f64> = (0..12).map(|x| ((x * x) % 7) as f64).collect();
    let w = a.len() as isize;
    for twice_c in [7isize, 11, 14] {
        // b mirrors a about half of twice_c; beyond a it is far off.
        let mut b: Vec<f64> = (0..w)
            .map(|x| if (0..w).contains(&(twice_c - x)) { a[(twice_c - x) as usize] } else { 99.0 })
            .collect();
        b.reverse();
        let s = w - 1 - twice_c;
        assert_eq!(double(shift_error::<Real>(&all_bits(&a), &all_bits(&b), s)), 0.0, "{twice_c}");
        assert!(double(shift_error::<Real>(&all_bits(&a), &all_bits(&b), s + 1)) > 0.0);
    }
}

#[test]
fn search_radius_leaves_two_columns() {
    assert_eq!(radius(200, 66), 66);
    assert_eq!(radius(20, 66), 18);
    assert_eq!(radius(3, 66), 1);
    assert_eq!(radius(2, 66), 1);
    assert_eq!(radius(0, 66), 1);
    assert_eq!(radius(200, 1), 1);
    assert_eq!(radius(200, usize::MAX), 198);
    // Nothing beyond the largest shift is searched.
    assert_eq!(radius(200, 0), 0);
    let a = all_bits(&[1.0, 5.0, 2.0, 9.0, 3.0, 7.0, 4.0, 8.0]);
    let f = all_bits(&[0.0, 1.0, 5.0, 2.0, 9.0, 3.0, 7.0, 4.0]);
    assert_eq!(best_shift::<Real>(&a, &f, 0), Some(bits(0.0)));
    assert!((double(best_shift::<Real>(&a, &f, usize::MAX).unwrap()) - 1.0).abs() <= 0.5);
}

#[test]
fn shifts_are_refined_by_a_parabola() {
    // The parabola (s - 0.25)² has its vertex at 0.25.
    let errors = all_bits(&[1.5625, 0.0625, 0.5625]);
    assert_eq!(double(refine_shift::<Real>(&errors, 1)), 0.25);
    // A minimum at the end is not refined; the first of equal ones counts.
    assert_eq!(double(refine_shift::<Real>(&all_bits(&[0.0, 1.0, 0.0]), 1)), -1.0);
    assert_eq!(double(refine_shift::<Real>(&all_bits(&[2.0, 1.0, 0.5]), 1)), 1.0);
    assert_eq!(double(refine_shift::<Real>(&all_bits(&[3.0, 2.0, 1.0, 1.0, 1.0]), 2)), 0.5);
    // A curve that is almost flat has no vertex.
    assert_eq!(double(refine_shift::<Real>(&all_bits(&[1.0 + 1e-13, 1.0, 1.0]), 1)), 0.0);
    let a = all_bits(&[0.0, 0.0, 1.0, 0.0, 0.0, 0.0, 0.0, 0.0]);
    let f = all_bits(&[0.0, 0.0, 0.0, 0.0, 1.0, 0.0, 0.0, 0.0]);
    let s = double(best_shift::<Real>(&a, &f, 3).unwrap());
    assert!((s - 2.0).abs() <= 1.0, "shift {s}");
    let s = double(best_shift::<Real>(&a, &f, 2).unwrap());
    assert_eq!(s, 2.0);
}

#[test]
fn a_degenerate_search_range_gives_no_shift() {
    assert_eq!(best_shift::<Real>(&Vec::new(), &Vec::new(), 5), None);
    assert_eq!(best_shift::<Real>(&Vec::new(), &Vec::new(), 0), None);
    assert!(best_shift::<Real>(&all_bits(&[1.0]), &all_bits(&[1.0]), 5).is_some());
    assert!(best_shift::<Real>(&all_bits(&[1.0, 2.0]), &all_bits(&[1.0, 2.0]), 0).is_some());
}

#[test]
fn lines_fit_exactly() {
    let (slope, intercept, r2) = linear_fit::<Real>(&points(&[(0.0, 1.0), (1.0, 3.0), (2.0, 5.0)])).unwrap();
    assert_eq!((double(slope), double(intercept), double(r2)), (2.0, 1.0, 1.0));
    // Columns that do not spread are explained altogether.
    let (slope, intercept, r2) = linear_fit::<Real>(&points(&[(0.0, 4.0), (2.0, 4.0)])).unwrap();
    assert_eq!((double(slope), double(intercept), double(r2)), (0.0, 4.0, 1.0));
    let (_, _, r2) = linear_fit::<Real>(&points(&[(-1.0, 1.0), (0.0, 0.0), (1.0, 1.0)])).unwrap();
    assert_eq!(double(r2), 0.0);
    assert!(linear_fit::<Real>(&points(&[(0.0, 1.0)])).is_none());
    assert!(linear_fit::<Real>(&points(&[(3.0, 1.0), (3.0, 2.0)])).is_none());
}

#[test]
fn no_line_has_smaller_squares() {
    let mut rng = Lcg(21);
    let columns: Vec<(f64, f64)> = (0..12).map(|k| (k as f64, 3.0 + 0.5 * k as f64 + rng.next())).collect();
    let squares = |m: f64, q: f64| columns.iter().map(|&(x, y)| (y - (m * x + q)).powi(2)).sum::<f64>();
    let (m, q, r2) = linear_fit::<Real>(&points(&columns)).unwrap();
    let (m, q) = (double(m), double(q));
    assert!(double(r2) < 1.0);
    for (dm, dq) in [(0.01, 0.0), (-0.01, 0.0), (0.0, 0.01), (0.0, -0.01), (0.02, -0.1), (-0.02, 0.1), (1.0, -4.0)] {
        assert!(squares(m, q) < squares(m + dm, q + dq), "{dm} {dq}");
    }
    // All points on a line: nothing is left over, and the quality is one.
    let exact: Vec<(f64, f64)> = (0..5).map(|k| (k as f64, 7.0 - 2.0 * k as f64)).collect();
    let (m, q, r2) = linear_fit::<Real>(&points(&exact)).unwrap();
    assert_eq!((double(m), double(q), double(r2)), (-2.0, 7.0, 1.0));
}

#[test]
fn mirrored_profiles_give_their_column_back() {
    let mut rng = Lcg(31);
    let w = 25isize;
    let a: Vec<f64> = (0..w).map(|_| rng.next()).collect();
    for twice_c in [18isize, 24, 27, 31] {
        let mut f: Vec<f64> = (0..w)
            .map(|x| if (0..w).contains(&(twice_c - x)) { a[(twice_c - x) as usize] } else { rng.next() })
            .collect();
        f.reverse();
        let (a, f) = (all_bits(&a), all_bits(&f));
        let s = w - 1 - twice_c;
        // No shift fits better than that of the column, and none has a
        // negative error.
        assert_eq!(shift_error::<Real>(&a, &f, s), bits(0.0));
        for other in -12..=12 {
            let e = double(shift_error::<Real>(&a, &f, other));
            assert!(e.is_sign_positive() && (other == s || e > 0.0), "{twice_c} {other} {e}");
        }
        let r = double(best_shift::<Real>(&a, &f, 12).unwrap());
        assert!((r - s as f64).abs() <= 0.5, "{twice_c}: {r}");
    }
    let (stack, pairs) = spots(21, &[(10, 24)]);
    let params = Params { y_top: 0, y_bottom: 3, ystep: 1, band: 1, max_shift: 8 };
    let c = double(pair_column::<Real>(&stack, &pairs[0], &params, (1, bits(1.0))).unwrap().1);
    assert!((c - 12.0).abs() <= 0.25, "{c}");
    // All pairs about one column give it back together.
    let (stack, pairs) = spots(21, &[(10, 24), (13, 24), (9, 24)]);
    let c = double(consensus_column::<Real>(&stack, &pairs, &params, (1, bits(1.0))).unwrap().1);
    assert!((c - 12.0).abs() <= 0.25, "{c}");
}

#[test]
fn the_worst_quarter_is_dropped() {
    let columns = points(&[(0.0, 0.0), (1.0, 1.0), (2.0, 2.0), (3.0, 30.0), (4.0, 4.0), (5.0, 5.0), (6.0, 6.0), (7.0, 7.0)]);
    let ((slope, _, r2), used) = trimmed_fit::<Real>(&columns).unwrap();
    assert_eq!(used.iter().filter(|u| **u).count(), 6);
    assert!(!used[3]);
    assert!((double(slope) - 1.0).abs() < 1e-12);
    assert!((double(r2) - 1.0).abs() < 1e-12);
    // Two and three points are all kept or all but one.
    assert_eq!(trimmed_fit::<Real>(&points(&[(0.0, 0.0), (1.0, 1.0)])).unwrap().1, vec![true, true]);
    let used = trimmed_fit::<Real>(&points(&[(0.0, 0.0), (1.0, 5.0), (2.0, 0.0)])).unwrap().1;
    assert_eq!(used.iter().filter(|u| **u).count(), 2);
    assert!(trimmed_fit::<Real>(&points(&[(0.0, 0.0)])).is_none());
}

#[test]
fn kept_points_fit_no_worse_than_dropped_ones() {
    let columns = points(&[(0.0, 0.0), (1.0, 9.0), (2.0, 2.0), (3.0, 3.0), (4.0, -7.0), (5.0, 5.0)]);
    let (m, q, _) = linear_fit::<Real>(&columns).unwrap();
    let (_, used) = trimmed_fit::<Real>(&columns).unwrap();
    let residual = |k: usize| (double(columns[k].1) - (double(m) * double(columns[k].0) + double(q))).abs();
    let worst_kept = (0..6).filter(|&k| used[k]).map(residual).fold(0.0, f64::max);
    let best_dropped = (0..6).filter(|&k| !used[k]).map(residual).fold(f64::INFINITY, f64::min);
    assert_eq!(used.iter().filter(|u| **u).count(), 4);
    assert!(worst_kept <= best_dropped);
}

#[test]
fn estimates_carry_their_rows() {
    let columns = points(&[(0.0, 10.0), (2.0, 11.0), (4.0, 12.0)]);
    let e = fit_estimate::<Real>("some method".to_owned(), 11, &columns).unwrap();
    assert_eq!(e.method, "some method");
    assert_eq!(doubles(&[e.slope, e.intercept, e.r2]), vec![0.5, 10.0, 1.0]);
    assert_eq!(double(e.cor), 12.5);
    assert_eq!(double(e.tilt_deg), 0.5f64.atan().to_degrees());
    assert_eq!(e.rows.len(), 3);
    assert_eq!(e.rows[0], RowEstimate { row: bits(0.0), cor: bits(10.0), used: true });
    let err = fit_estimate::<Real>(String::new(), 11, &points(&[(0.0, 10.0)])).unwrap_err();
    assert_eq!(err, "fewer than 2 row bands gave a usable shift");
    let err = fit_estimate::<Real>(String::new(), 11, &points(&[(1.0, 10.0), (1.0, 11.0)])).unwrap_err();
    assert_eq!(err, "degenerate row range for the axis fit");
}

#[test]
fn consensus_needs_pairs_and_bands() {
    let stack = synthetic(100.0, 0.0, 1);
    let params = Params::defaults_for(stack.height, stack.width);
    let err = multi_pair::<Real>(&stack, &[], &params).unwrap_err();
    assert_eq!(err, "no opposite (0/180) pairs in the angle list");
    let pairs = pairs_of(&stack);
    let few = Params { y_top: 118, ..params };
    let err = single_pair::<Real>(&stack, &pairs[0], &few).unwrap_err();
    assert_eq!(err, "fewer than 2 row bands gave a usable shift");
    let err = multi_pair::<Real>(&stack, &pairs, &few).unwrap_err();
    assert_eq!(err, "fewer than 2 row bands gave a usable shift");
    let e = multi_pair::<Real>(&stack, &pairs, &params).unwrap();
    assert_eq!(e.method, "consensus of 1 opposite pairs");
}

/// A stack of pairs whose projections are single bright columns: `at` and its
/// mirror image about half of `sum`.
fn spots(w: usize, list: &[(usize, usize)]) -> (Stack, Vec<Pair>) {
    let h = 4;
    let mut data = Vec::new();
    for &(at, sum) in list {
        for column in [at, sum - at] {
            data.extend((0..h * w).map(|k| if k % w == column { 1.0f32 } else { 0.0 }));
        }
    }
    let n = 2 * list.len();
    let stack = stack_of(data, n, h, w, &vec![0.0; n]);
    let pairs = (0..list.len()).map(|k| Pair { i: 2 * k, j: 2 * k + 1, angle_i: 0, angle_j: 0, error_deg: 0 }).collect();
    (stack, pairs)
}

#[test]
fn the_consensus_counts_every_pair() {
    // Of 40 pairs every second one has its axis at column 12, and the others,
    // which are one more in the end, have it at column 8.
    let w = 21;
    let mut list: Vec<(usize, usize)> = (0..40).map(|k| if k % 2 == 0 { (10, 24) } else { (10, 16) }).collect();
    let params = Params { y_top: 0, y_bottom: 3, ystep: 1, band: 1, max_shift: 8 };
    let axis = |list: &[(usize, usize)]| {
        let (stack, pairs) = spots(w, list);
        let e = multi_pair::<Real>(&stack, &pairs, &params).unwrap();
        (double(e.cor), e.method)
    };
    list.push((10, 16));
    let (cor, method) = axis(&list);
    assert!((cor - 8.0).abs() <= 0.25, "{cor}");
    assert_eq!(method, "consensus of 41 opposite pairs");
    list[40] = (10, 24);
    let (cor, _) = axis(&list);
    assert!((cor - 12.0).abs() <= 0.25, "{cor}");
}

#[test]
fn one_pair_is_its_own_consensus() {
    let stack = synthetic(93.0, 0.01, 1);
    let pairs = pairs_of(&stack);
    let params = Params::defaults_for(stack.height, stack.width);
    let at = bands::<Real>(stack.height, &params)[3];
    let one = pair_column::<Real>(&stack, &pairs[0], &params, at).unwrap();
    let all = consensus_column::<Real>(&stack, &pairs, &params, at).unwrap();
    assert_eq!(one, all);
    assert_eq!(double(one.0), at.0 as f64 + 2.0);
    assert!((double(one.1) - (93.0 + 0.01 * (double(one.0) - 59.5))).abs() < 0.5);
    let a = single_pair::<Real>(&stack, &pairs[0], &params).unwrap();
    let b = multi_pair::<Real>(&stack, &pairs, &params).unwrap();
    assert_eq!((a.tilt_deg, a.cor, a.slope, a.intercept, a.r2), (b.tilt_deg, b.cor, b.slope, b.intercept, b.r2));
    assert_eq!(a.rows, b.rows);
    assert_eq!(b.method, "consensus of 1 opposite pairs");
}

#[test]
fn jobs_give_what_the_estimators_give() {
    let stack = synthetic(96.0, 0.01, 2);
    let pairs = pairs_of(&stack);
    let params = Params::defaults_for(stack.height, stack.width);
    let job = |all_pairs: bool| EstimateJob { all_pairs, pair: pairs[1], pairs: pairs.clone(), params };
    let same = |a: &Estimate, b: &Estimate| a.method == b.method && a.rows == b.rows && a.cor == b.cor && a.tilt_deg == b.tilt_deg;
    let (e, global) = job(false).run::<Real>(&stack).unwrap();
    assert!(same(&e, &single_pair::<Real>(&stack, &pairs[1], &params).unwrap()));
    assert_eq!(global, Some(global_cor::<Real>(&stack, &pairs[1], &params).unwrap()));
    let (e, global) = job(true).run::<Real>(&stack).unwrap();
    assert!(same(&e, &multi_pair::<Real>(&stack, &pairs, &params).unwrap()));
    assert_eq!(global, Some(global_cor::<Real>(&stack, &pairs[1], &params).unwrap()));
    // The bands may be handed out one by one.
    let all = job(true);
    let columns: Vec<(u64, u64)> =
        bands::<Real>(stack.height, &params).iter().filter_map(|&at| all.column::<Real>(&stack, at)).collect();
    assert!(same(&all.finish::<Real>(&stack, &columns).unwrap().0, &e));
    // A top row at the bottom gives an error, not a cross-check.
    let low = EstimateJob { all_pairs: false, pair: pairs[0], pairs: Vec::new(), params: Params { y_top: 119, ..params } };
    assert_eq!(low.run::<Real>(&stack).unwrap_err(), "fewer than 2 row bands gave a usable shift");
    let none = EstimateJob { all_pairs: true, pair: pairs[0], pairs: Vec::new(), params };
    assert_eq!(none.run::<Real>(&stack).unwrap_err(), "no opposite (0/180) pairs in the angle list");
}

#[test]
fn the_cross_check_covers_two_rows_at_least() {
    let stack = synthetic(100.25, 0.0, 1);
    let pairs = pairs_of(&stack);
    let base = Params::defaults_for(stack.height, stack.width);
    let narrow = Params { y_top: 50, y_bottom: 10, ..base };
    let two = Params { y_top: 50, y_bottom: 51, ..base };
    assert_eq!(
        global_cor::<Real>(&stack, &pairs[0], &narrow).unwrap(),
        global_cor::<Real>(&stack, &pairs[0], &two).unwrap()
    );
    // Rows beyond the stack count as the last one.
    let last = Params { y_top: 119, y_bottom: 119, ..base };
    let beyond = Params { y_top: 500, y_bottom: 700, ..base };
    let c = global_cor::<Real>(&stack, &pairs[0], &last).unwrap();
    assert_eq!(c, global_cor::<Real>(&stack, &pairs[0], &beyond).unwrap());
    assert!((double(c) - 100.25).abs() < 0.5);
    let (low, pairs) = spots(9, &[(3, 7)]);
    let params = Params { y_top: 3, y_bottom: 3, ystep: 1, band: 1, max_shift: 3 };
    assert!((double(global_cor::<Real>(&low, &pairs[0], &params).unwrap()) - 3.5).abs() <= 0.25);
}

#[test]
fn rotated_pixels_stay_between_the_samples() {
    let mut rng = Lcg(41);
    let (n, h, w) = (3, 9, 14);
    let mut data: Vec<f32> = (0..n * h * w).map(|_| rng.next() as f32 - 0.25).collect();
    // The second projection is flat.
    data[h * w..2 * h * w].fill(0.1);
    for angle in [0.3, -2.5, 45.0, 170.0] {
        let mut stack = stack_of(data.clone(), n, h, w, &[0.0, 1.0, 2.0]);
        rotate_stack::<Real>(&mut stack, bits(angle));
        for i in 0..n {
            let before = &data[i * h * w..(i + 1) * h * w];
            let lo = before.iter().copied().fold(f32::INFINITY, f32::min);
            let hi = before.iter().copied().fold(f32::NEG_INFINITY, f32::max);
            assert!(stack.plane(i).iter().all(|&p| lo <= single(p) && single(p) <= hi), "{angle} {i}");
        }
    }
}

#[test]
fn rotating_by_nothing_changes_nothing() {
    let data: Vec<f32> = (0..2 * 5 * 7).map(|i| i as f32 * 0.25 - 3.0).collect();
    let mut stack = stack_of(data.clone(), 2, 5, 7, &[0.0, 1.0]);
    rotate_stack::<Real>(&mut stack, bits(0.0));
    let back: Vec<f32> = stack.data.iter().map(|&b| single(b)).collect();
    assert_eq!(back, data);
    assert_eq!((stack.n, stack.height, stack.width), (2, 5, 7));
    assert_eq!(stack.angles_deg, all_bits(&[0.0, 1.0]));
}

#[test]
fn rotating_by_a_half_turn_reverses_the_plane() {
    let plane: Vec<u32> = (0..12).map(|i| (i as f32).to_bits()).collect();
    let t = rotation::<Real>(4, 3, bits(180.0));
    let out: Vec<f32> = rotate_plane::<Real>(&plane, 4, 3, &t).iter().map(|&b| single(b)).collect();
    for (k, v) in out.iter().enumerate() {
        assert!((v - (11 - k) as f32).abs() < 1e-4, "{k}: {v}");
    }
    let corner = double(resample::<Real>(&plane, 4, 3, &t, 0, 0));
    assert!((corner - 11.0).abs() < 1e-9);
}
