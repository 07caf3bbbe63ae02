//! The state behind the window, its images and its texts.
use tilt_center_of_rotation::algorithms::apply_tilt;
use tilt_center_of_rotation::app::{checkpoint_argument, limits, Limits, Step, TiltCorApp};
use tilt_center_of_rotation::fit::{Estimate, RowEstimate};
use tilt_center_of_rotation::labels::{
    center_label, corrected_label, cross_check_label, file_label, pair_count_label, result_label, saved_label,
};
use tilt_center_of_rotation::pairs::Pair;
use tilt_center_of_rotation::stack::Stack;
use tilt_center_of_rotation::unit::FloatUnit;
use tilt_center_of_rotation::view::{axis_overlay, fit_line, grayscale_of, plot_points, view_plane, ImageView};

/// The arithmetic of the machine.
struct Real;

fn bits(x: f64) -> u64 {
    x.to_bits()
}

fn double(b: u64) -> f64 {
    f64::from_bits(b)
}

fn single(b: u32) -> f32 {
    f32::from_bits(b)
}

impl FloatUnit for Real {
    fn plus(a: u64, b: u64) -> u64 {
        bits(double(a) + double(b))
    }
    fn minus(a: u64, b: u64) -> u64 {
        bits(double(a) - double(b))
    }
    fn times(a: u64, b: u64) -> u64 {
        bits(double(a) * double(b))
    }
    fn over(a: u64, b: u64) -> u64 {
        bits(double(a) / double(b))
    }
    fn remainder(a: u64, b: u64) -> u64 {
        bits(double(a).rem_euclid(double(b)))
    }
    fn square(a: u64) -> u64 {
        bits(double(a).powi(2))
    }
    fn root(a: u64) -> u64 {
        bits(double(a).sqrt())
    }
    fn rounded(a: u64) -> u64 {
        bits(double(a).round())
    }
    fn arctan(a: u64) -> u64 {
        bits(double(a).atan())
    }
    fn degrees(a: u64) -> u64 {
        bits(double(a).to_degrees())
    }
    fn radians(a: u64) -> u64 {
        bits(double(a).to_radians())
    }
    fn sine_cosine(a: u64) -> (u64, u64) {
        let (sin, cos) = double(a).sin_cos();
        (bits(sin), bits(cos))
    }
    fn count(n: usize) -> u64 {
        bits(n as f64)
    }
    fn offset(s: isize) -> u64 {
        bits(s as f64)
    }
    fn widen(p: u32) -> u64 {
        bits(f64::from(single(p)))
    }
    fn narrow(a: u64) -> u32 {
        (double(a) as f32).to_bits()
    }
    fn plus32(p: u32, q: u32) -> u32 {
        (single(p) + single(q)).to_bits()
    }
    fn minus32(p: u32, q: u32) -> u32 {
        (single(p) - single(q)).to_bits()
    }
    fn times32(p: u32, q: u32) -> u32 {
        (single(p) * single(q)).to_bits()
    }
    fn over32(p: u32, q: u32) -> u32 {
        (single(p) / single(q)).to_bits()
    }
    fn fixed2(a: u64) -> String {
        format!("{:.2}", double(a))
    }
    fn fixed3(a: u64) -> String {
        format!("{:.3}", double(a))
    }
    fn signed3(a: u64) -> String {
        format!("{:+.3}", double(a))
    }
    fn json_number(a: u64) -> String {
        serde_json::Value::from(double(a)).to_string()
    }
}

fn stack(n: usize, height: usize, width: usize, angles: &[f64]) -> Stack {
    Stack {
        path: "dir/file.h5".to_owned(),
        data: (0..n * height * width).map(|k| (k as f32).to_bits()).collect(),
        n,
        height,
        width,
        angles_deg: angles.iter().map(|&a| bits(a)).collect(),
        center_of_rotation: None,
        previous_corrections: Vec::new(),
    }
}

fn estimate(slope: f64, intercept: f64) -> Estimate {
    Estimate {
        method: "some method".to_owned(),
        tilt_deg: bits(-0.5),
        cor: bits(12.345),
        slope: bits(slope),
        intercept: bits(intercept),
        r2: bits(0.98765),
        rows: vec![
            RowEstimate { row: bits(1.0), cor: bits(2.0), used: true },
            RowEstimate { row: bits(3.0), cor: bits(9.0), used: false },
            RowEstimate { row: bits(5.0), cor: bits(2.5), used: true },
        ],
    }
}

fn loaded_app() -> (TiltCorApp, Stack) {
    let s = stack(3, 40, 60, &[0.0, 180.25, 180.0]);
    let mut app = TiltCorApp::new(&Some("x.h5".to_owned()));
    assert!(app.loading);
    assert_eq!(app.poll_jobs::<Real>(Some(Ok(&s)), None, None), None);
    (app, s)
}

#[test]
fn a_new_window_is_empty() {
    let app = TiltCorApp::new(&None);
    assert!(!app.loading && !app.estimating && !app.saving);
    assert_eq!(app.size, None);
    assert_eq!(app.tol_deg, bits(0.5));
    assert_eq!(app.view, ImageView::Difference);
    assert_eq!((app.y_top, app.y_bottom, app.ystep, app.band, app.max_shift), (0, 0, 1, 5, 100));
    assert!(!app.can_apply());
    assert!(app.needs_image());
    assert_eq!(app.activity(), None);
    assert!(TiltCorApp::new(&Some(String::new())).loading);
}

#[test]
fn a_loaded_stack_sets_the_parameters_and_pairs() {
    let (app, _) = loaded_app();
    assert!(!app.loading);
    assert_eq!(app.size, Some((3, 40, 60)));
    let places: Vec<(usize, usize)> = app.pairs.iter().map(|p| (p.i, p.j)).collect();
    assert_eq!(places, vec![(0, 2), (0, 1)]);
    let p = app.params();
    assert_eq!((p.y_top, p.y_bottom, p.ystep, p.band, p.max_shift), (2, 37, 1, 5, 20));
}

#[test]
fn a_failed_load_leaves_its_message() {
    let (mut app, _) = loaded_app();
    app.start_load();
    assert!(app.loading);
    assert_eq!(app.poll_jobs::<Real>(None, None, None), Some(200));
    assert_eq!(app.poll_jobs::<Real>(Some(Err("no such file".to_owned())), None, None), None);
    assert_eq!(app.load_error.as_deref(), Some("no such file"));
    assert_eq!(app.pairs.len(), 2);
    app.start_load();
    assert_eq!(app.load_error, None);
    // What no job was started for is not folded in.
    let mut idle = TiltCorApp::new(&None);
    assert_eq!(idle.poll_jobs::<Real>(None, Some(Err("e".to_owned())), Some(Ok("s".to_owned()))), None);
    assert_eq!((idle.est_error, idle.save_status), (None, None));
}

#[test]
fn estimations_need_a_stack_and_a_pair() {
    let mut app = TiltCorApp::new(&None);
    assert!(app.start_estimate(false).is_none());
    assert!(!app.estimating);
    let (mut app, s) = loaded_app();
    app.select_pair(1);
    let job = app.start_estimate(true).unwrap();
    assert!(app.estimating && job.all_pairs);
    assert_eq!((job.pair.i, job.pair.j), (0, 1));
    assert_eq!(job.pairs, app.pairs);
    assert_eq!(job.params, app.params());
    assert_eq!(app.poll_jobs::<Real>(None, None, None), Some(200));
    app.poll_jobs::<Real>(None, Some(Err("no fit".to_owned())), None);
    assert_eq!(app.est_error.as_deref(), Some("no fit"));
    app.set_tolerance::<Real>(bits(0.01), &s);
    assert_eq!((app.pairs.len(), app.pair_idx), (1, 0));
    app.set_tolerance::<Real>(bits(-1.0), &s);
    assert!(app.pairs.is_empty());
    assert!(app.start_estimate(false).is_none());
    assert!(app.view_image::<Real>(&s).is_none());
}

#[test]
fn a_new_estimate_is_adopted_and_applied_once() {
    let (mut app, mut s) = loaded_app();
    app.start_estimate(false).unwrap();
    assert!(!app.can_apply());
    app.poll_jobs::<Real>(None, Some(Ok((estimate(0.0, 30.0), Some(bits(29.5))))), None);
    app.start_estimate(false).unwrap();
    app.poll_jobs::<Real>(None, Some(Ok((estimate(0.1, 31.0), None))), None);
    assert_eq!((app.estimates.len(), app.adopted, app.global_cor), (2, Some(1), None));
    app.adopt(0);
    assert_eq!(app.adopted_estimate().map(|e| e.intercept), Some(bits(30.0)));
    assert!(app.can_apply());
    app.request_apply();
    assert!(!app.can_apply());
    assert_eq!(app.activity(), Some("rotating the projections…"));
    assert_eq!(app.advance(), Step::Repaint);
    assert_eq!(app.advance(), Step::Apply);
    assert_eq!(app.advance(), Step::Idle);
    let est = app.apply_and_save::<Real>(&mut s).unwrap();
    assert_eq!(est.intercept, bits(30.0));
    assert_eq!(s.center_of_rotation, Some(est.cor));
    let (_, mut rotated) = loaded_app();
    apply_tilt::<Real>(&mut rotated, est.tilt_deg);
    assert_eq!(s.data, rotated.data);
    assert!(app.saving && app.estimates.is_empty() && app.adopted.is_none());
    assert_eq!(app.activity(), Some("writing the HDF5…"));
    assert_eq!(app.poll_jobs::<Real>(None, None, None), Some(300));
    assert!(app.apply_and_save::<Real>(&mut s).is_none());
    assert_eq!(s.data, rotated.data);
    app.refuse_apply();
    assert_eq!(app.save_status, None);
    app.poll_jobs::<Real>(None, None, Some(Ok("saved".to_owned())));
    assert_eq!(app.save_status, Some(Ok("saved".to_owned())));
    assert!(!app.saving);
    app.request_apply();
    assert_eq!(app.advance(), Step::Idle);
}

#[test]
fn a_shared_stack_is_not_corrected() {
    let (mut app, _) = loaded_app();
    app.start_estimate(false).unwrap();
    app.poll_jobs::<Real>(None, Some(Ok((estimate(0.0, 30.0), None))), None);
    app.refuse_apply();
    assert_eq!(
        app.save_status,
        Some(Err("an estimation is still running — wait for it to finish".to_owned()))
    );
    assert_eq!(app.adopted, Some(0));
    assert!(!app.saving);
}

#[test]
fn another_stack_forgets_the_estimates() {
    let (mut app, s) = loaded_app();
    app.start_estimate(false).unwrap();
    app.poll_jobs::<Real>(None, Some(Ok((estimate(0.0, 30.0), Some(0)))), None);
    app.adopt_stack::<Real>(&s);
    assert!(app.estimates.is_empty());
    assert_eq!((app.adopted, app.global_cor), (None, None));
}

#[test]
fn the_bottom_row_stays_below_the_top_row() {
    let (mut app, _) = loaded_app();
    app.y_top = 20;
    app.y_bottom = 3;
    app.settle_rows(40);
    assert_eq!(app.y_bottom, 21);
    app.y_bottom = 400;
    app.settle_rows(40);
    assert_eq!(app.y_bottom, 39);
    app.y_bottom = 30;
    app.settle_rows(40);
    assert_eq!(app.y_bottom, 30);
    assert_eq!(limits(40, 60), Limits { y_top: 38, y_bottom: 39, ystep: 20, band: 50, max_shift: 30 });
}

#[test]
fn images_are_made_anew_when_what_they_show_changes() {
    let (mut app, _) = loaded_app();
    assert!(app.needs_image());
    assert_eq!(app.image_key(), (0, 2, 0));
    app.image_made();
    assert!(!app.needs_image());
    app.select_view(ImageView::Proj0);
    assert!(app.needs_image());
    assert_eq!(app.image_key(), (0, 0, 0));
    app.image_made();
    app.select_pair(1);
    assert!(app.needs_image());
    app.select_view(ImageView::Proj180Flipped);
    app.start_estimate(false).unwrap();
    app.poll_jobs::<Real>(None, Some(Ok((estimate(0.0, 30.0), None))), None);
    assert!(app.needs_image());
    assert_eq!(app.image_key(), (1, 1, 1));
    app.image_made();
    app.adopt(0);
    assert!(app.needs_image());
}

#[test]
fn views_are_labelled() {
    assert_eq!(ImageView::Proj0.label(), "0° projection");
    assert_eq!(ImageView::Proj180Flipped.label(), "180° flipped");
    assert_eq!(ImageView::Difference.label(), "difference about the axis");
}

fn pair() -> Pair {
    Pair { i: 0, j: 1, angle_i: 0, angle_j: bits(180.0), error_deg: 0 }
}

fn shown(s: &Stack, view: ImageView, axis: Option<(u64, u64)>) -> Vec<f32> {
    view_plane::<Real>(s, &pair(), view, axis).iter().map(|&b| single(b)).collect()
}

#[test]
fn views_show_the_planes() {
    let mut s = stack(2, 2, 3, &[0.0, 180.0]);
    assert_eq!(shown(&s, ImageView::Proj0, None), vec![0.0, 1.0, 2.0, 3.0, 4.0, 5.0]);
    assert_eq!(shown(&s, ImageView::Proj180Flipped, None), vec![8.0, 7.0, 6.0, 11.0, 10.0, 9.0]);
    // Without an axis the image is mirrored about its middle.
    assert_eq!(shown(&s, ImageView::Difference, None), vec![8.0, 6.0, 4.0, 8.0, 6.0, 4.0]);
    // About column 0.5 of the first row and 1.5 of the second: 0 ↔ 1, and 1 ↔ 2;
    // a column without an opposite one differs from itself by nothing.
    let axis = Some((bits(1.0), bits(0.5)));
    assert_eq!(shown(&s, ImageView::Difference, axis), vec![7.0, 5.0, 0.0, 0.0, 7.0, 5.0]);
    // The difference goes flat when the axis is right.
    for y in 0..2 {
        for x in 0..3 {
            s.data[6 + y * 3 + x] = s.data[y * 3 + (2 - x)];
        }
    }
    assert_eq!(shown(&s, ImageView::Difference, Some((bits(0.0), bits(1.0)))), vec![0.0; 6]);
}

#[test]
fn flipping_twice_shows_the_plane() {
    let mut s = stack(2, 3, 4, &[0.0, 180.0]);
    let flipped = view_plane::<Real>(&s, &pair(), ImageView::Proj180Flipped, None);
    let plane = s.plane(1).to_vec();
    s.data.splice(12..24, flipped);
    assert_eq!(view_plane::<Real>(&s, &pair(), ImageView::Proj180Flipped, None), plane);
}

#[test]
fn grays_span_the_percentile_window() {
    let gray = |values: &[f32]| grayscale_of::<Real>(&values.iter().map(|v| v.to_bits()).collect());
    assert_eq!(gray(&[0.0, 1.0, 2.0, 4.0]), vec![0, 63, 127, 255]);
    assert_eq!(gray(&[3.0, 3.0]), vec![0, 0]);
    assert_eq!(gray(&[]), Vec::<u8>::new());
    assert_eq!(gray(&[f32::NAN, 0.0, 10.0, f32::INFINITY, f32::NEG_INFINITY]), vec![0, 0, 255, 255, 0]);
    assert_eq!(gray(&[f32::NAN, 0.5]), vec![0, 0]);
    assert_eq!(gray(&[f32::NAN]), vec![0]);
    // One percent is cut off at either end.
    let ramp: Vec<f32> = (0..200).map(|k| k as f32).collect();
    let g = gray(&ramp);
    assert_eq!((g[0], g[2], g[197], g[199]), (0, 0, 255, 255));
    assert_eq!(g[100], ((98.0f32 / 195.0) * 255.0) as u8);
}

#[test]
fn large_images_are_sampled() {
    // Every second pixel of 80 000 is sampled: the others do not count.
    let pixels: Vec<u32> = (0..80_000).map(|k| (if k % 2 == 0 { (k % 100) as f32 } else { 1e9 }).to_bits()).collect();
    let g = grayscale_of::<Real>(&pixels);
    assert_eq!(g[1], 255);
    assert_eq!(g[0], 0);
    assert_eq!(g[98], 255);
    assert!(g[48] > 100 && g[48] < 150, "{}", g[48]);
}

#[test]
fn the_view_image_is_gray() {
    let (app, s) = loaded_app();
    let image = app.view_image::<Real>(&s).unwrap();
    let expected =
        grayscale_of::<Real>(&view_plane::<Real>(&s, &app.pairs[0], ImageView::Difference, None));
    assert_eq!(image, expected);
    assert_eq!(image.len(), 40 * 60);
}

#[test]
fn plots_split_the_bands() {
    let est = estimate(0.5, 10.0);
    assert_eq!(plot_points(&est.rows, true), vec![(bits(1.0), bits(2.0)), (bits(5.0), bits(2.5))]);
    assert_eq!(plot_points(&est.rows, false), vec![(bits(3.0), bits(9.0))]);
    let (first, last) = fit_line::<Real>(&est, 11);
    assert_eq!((double(first.0), double(first.1), double(last.0), double(last.1)), (0.0, 10.0, 10.0, 15.0));
    assert_eq!(double(axis_overlay::<Real>(&est, 31, ImageView::Proj0, bits(4.0))), 12.0);
    assert_eq!(double(axis_overlay::<Real>(&est, 31, ImageView::Difference, bits(4.0))), 12.0);
    assert_eq!(double(axis_overlay::<Real>(&est, 31, ImageView::Proj180Flipped, bits(4.0))), 18.0);
}

#[test]
fn labels_read_as_they_should() {
    let est = estimate(0.0, 0.0);
    assert_eq!(file_label("a.h5", 3, 40, 60), "a.h5 — 3 projections, 40×60");
    assert_eq!(center_label::<Real>(None), "center of rotation in the file: none");
    assert_eq!(center_label::<Real>(Some(bits(12.5))), "center of rotation in the file: 12.50 px");
    assert_eq!(corrected_label(2), "⚠ this file was already corrected 2 time(s) by this tool");
    assert_eq!(pair_count_label(11), "11 pair(s)");
    assert_eq!(result_label::<Real>(&est), "tilt -0.500°, center 12.35 px  (r² 0.988)\nsome method");
    assert_eq!(
        cross_check_label::<Real>(bits(7.0)),
        "cross-check — whole-image single shift: center 7.00 px"
    );
    assert_eq!(
        saved_label::<Real>(&est, "dir/a.h5"),
        "tilt of -0.500° corrected, center of rotation 12.35 px — saved into dir/a.h5"
    );
}

#[test]
fn the_checkpoint_is_the_first_plain_argument() {
    let find = |args: &[&str]| checkpoint_argument(&args.iter().map(|a| a.to_string()).collect());
    assert_eq!(find(&["prog"]), None);
    assert_eq!(find(&[]), None);
    assert_eq!(find(&["prog", "--called-from-app"]), None);
    assert_eq!(find(&["prog", "--called-from-app", "a.h5", "b.h5"]), Some("a.h5".to_owned()));
    assert_eq!(find(&["prog", "-x", "a.h5"]), Some("-x".to_owned()));
    assert_eq!(find(&["prog", "", "a.h5"]), Some(String::new()));
}
