//! Arrays, checkpoints, records and what is handed to the reconstruction.
use tilt_center_of_rotation::algorithms::{apply_tilt, rotate_stack};
use tilt_center_of_rotation::correction::{correct, save_correction};
use tilt_center_of_rotation::fit::Estimate;
use tilt_center_of_rotation::json::{correction_record, recon_spec_text};
use tilt_center_of_rotation::npy::{decode, is_header_complete, read_f32, write_f32};
use tilt_center_of_rotation::recon::{assemble, extract_sinogram, failure_text, gridrec_failure, prepare, receive, ReconTest};
use tilt_center_of_rotation::stack::{
    bracketed_text, decimal_texts, load, parse_history, save, stack_shape, Stack, RESULT_METADATA,
};
use tilt_center_of_rotation::unit::FloatUnit;

/// The arithmetic of the machine.
struct Real;

fn bits(x: f64) -> u64 {
    x.to_bits()
}

fn double(b: u64) -> f64 {
    f64::from_bits(b)
}

fn single(b: u32) -> f32 {
    f32::from_bits(b)
}

impl FloatUnit for Real {
    fn plus(a: u64, b: u64) -> u64 {
        bits(double(a) + double(b))
    }
    fn minus(a: u64, b: u64) -> u64 {
        bits(double(a) - double(b))
    }
    fn times(a: u64, b: u64) -> u64 {
        bits(double(a) * double(b))
    }
    fn over(a: u64, b: u64) -> u64 {
        bits(double(a) / double(b))
    }
    fn remainder(a: u64, b: u64) -> u64 {
        bits(double(a).rem_euclid(double(b)))
    }
    fn square(a: u64) -> u64 {
        bits(double(a).powi(2))
    }
    fn root(a: u64) -> u64 {
        bits(double(a).sqrt())
    }
    fn rounded(a: u64) -> u64 {
        bits(double(a).round())
    }
    fn arctan(a: u64) -> u64 {
        bits(double(a).atan())
    }
    fn degrees(a: u64) -> u64 {
        bits(double(a).to_degrees())
    }
    fn radians(a: u64) -> u64 {
        bits(double(a).to_radians())
    }
    fn sine_cosine(a: u64) -> (u64, u64) {
        let (sin, cos) = double(a).sin_cos();
        (bits(sin), bits(cos))
    }
    fn count(n: usize) -> u64 {
        bits(n as f64)
    }
    fn offset(s: isize) -> u64 {
        bits(s as f64)
    }
    fn widen(p: u32) -> u64 {
        bits(f64::from(single(p)))
    }
    fn narrow(a: u64) -> u32 {
        (double(a) as f32).to_bits()
    }
    fn plus32(p: u32, q: u32) -> u32 {
        (single(p) + single(q)).to_bits()
    }
    fn minus32(p: u32, q: u32) -> u32 {
        (single(p) - single(q)).to_bits()
    }
    fn times32(p: u32, q: u32) -> u32 {
        (single(p) * single(q)).to_bits()
    }
    fn over32(p: u32, q: u32) -> u32 {
        (single(p) / single(q)).to_bits()
    }
    fn fixed2(a: u64) -> String {
        format!("{:.2}", double(a))
    }
    fn fixed3(a: u64) -> String {
        format!("{:.3}", double(a))
    }
    fn signed3(a: u64) -> String {
        format!("{:+.3}", double(a))
    }
    fn json_number(a: u64) -> String {
        serde_json::Value::from(double(a)).to_string()
    }
}

fn single_bits(values: &[f32]) -> Vec<u32> {
    values.iter().map(|v| v.to_bits()).collect()
}

fn singles(values: &[u32]) -> Vec<f32> {
    values.iter().map(|&v| single(v)).collect()
}

fn stack(h: usize, w: usize, n: usize) -> Stack {
    Stack {
        path: String::new(),
        // Plane i: f(x, y) = x + 10·y + 1000·i — linear, so the tilted
        // extraction is analytic.
        data: (0..n)
            .flat_map(|i| (0..h * w).map(move |p| (((p % w) + 10 * (p / w) + 1000 * i) as f32).to_bits()))
            .collect(),
        n,
        height: h,
        width: w,
        angles_deg: (0..n).map(|i| bits(i as f64)).collect(),
        center_of_rotation: None,
        previous_corrections: Vec::new(),
    }
}

#[test]
fn round_trip_2d_and_3d() {
    let data: Vec<f32> = (0..24).map(|i| i as f32 * 0.5).collect();
    let data = single_bits(&data);
    let bytes = write_f32(&[4, 6], &data).unwrap();
    assert_eq!(read_f32("a.npy", &bytes).unwrap(), (vec![4, 6], data.clone()));
    let bytes = write_f32(&[2, 3, 4], &data).unwrap();
    assert_eq!(read_f32("a.npy", &bytes).unwrap(), (vec![2, 3, 4], data));
}

#[test]
fn header_is_64_byte_aligned() {
    let bytes = write_f32(&[1], &single_bits(&[1.0])).unwrap();
    let header_len = u16::from_le_bytes([bytes[8], bytes[9]]) as usize;
    assert_eq!((10 + header_len) % 64, 0);
}

#[test]
fn files_are_written_byte_by_byte() {
    let bytes = write_f32(&[2], &single_bits(&[1.0, -2.5])).unwrap();
    let header = "{'descr': '<f4', 'fortran_order': False, 'shape': (2,), }";
    let mut expected = b"\x93NUMPY\x01\x00\x76\x00".to_vec();
    expected.extend_from_slice(header.as_bytes());
    expected.resize(127, b' ');
    expected.push(b'\n');
    expected.extend_from_slice(&1.0f32.to_le_bytes());
    expected.extend_from_slice(&(-2.5f32).to_le_bytes());
    assert_eq!(bytes, expected);
    assert!(is_header_complete(&bytes));
    // A single value has an empty shape.
    let bytes = write_f32(&[], &single_bits(&[7.0])).unwrap();
    assert_eq!(read_f32("a.npy", &bytes).unwrap(), (vec![], single_bits(&[7.0])));
    let err = write_f32(&[2, 3], &single_bits(&[1.0])).unwrap_err();
    assert_eq!(err, "npy shape [2, 3] does not match 1 values");
}

fn with_header(version: u8, header: &[u8], data: &[u8]) -> Vec<u8> {
    let mut out = b"\x93NUMPY".to_vec();
    out.push(version);
    out.push(0);
    if version == 1 {
        out.extend_from_slice(&(header.len() as u16).to_le_bytes());
    } else {
        out.extend_from_slice(&(header.len() as u32).to_le_bytes());
    }
    out.extend_from_slice(header);
    out.extend_from_slice(data);
    out
}

#[test]
fn other_versions_and_layouts_are_read_or_refused() {
    let head = b"{'shape': ( 1 ,x, 2,), 'descr': '<f4', 'fortran_order': False}";
    let body = [0, 0, 128, 63, 0, 0, 0, 64, 9, 9];
    for version in [1, 2, 3] {
        let bytes = with_header(version, head, &body);
        assert!(is_header_complete(&bytes));
        assert_eq!(read_f32("b", &bytes).unwrap(), (vec![1, 2], single_bits(&[1.0, 2.0])));
    }
    let err = |bytes: &[u8]| read_f32("dir/b.npy", bytes).unwrap_err();
    assert_eq!(err(b"\x93NUMPY\x01\x00\x00"), "dir/b.npy is not a .npy file");
    assert_eq!(err(b"\x93NUMPX\x01\x00\x00\x00"), "dir/b.npy is not a .npy file");
    assert_eq!(err(&with_header(9, head, &body)), "unsupported .npy version 9");
    let text = "{'descr': '<f8', 'shape': (1,)}";
    assert_eq!(
        err(&with_header(1, text.as_bytes(), &body)),
        format!("expected little-endian f32 data, header: {text}")
    );
    let text = "{'descr': '<f4', 'fortran_order': True, 'shape': (1,)}";
    assert_eq!(err(&with_header(1, text.as_bytes(), &body)), "Fortran-ordered .npy is not supported");
    for text in ["{'descr': '<f4'}", "{'descr': '<f4', 'shape': 1}"] {
        assert_eq!(err(&with_header(1, text.as_bytes(), &body)), format!("cannot parse the shape from: {text}"));
    }
    let text = "{'descr': '<f4', 'shape': (3, 4)}";
    assert_eq!(err(&with_header(1, text.as_bytes(), &body)), "dir/b.npy: 10 data bytes for shape [3, 4]");
    let text = "{'descr': '<f4', 'shape': (9999999999, 9999999999)}";
    assert_eq!(
        err(&with_header(1, text.as_bytes(), &body)),
        "dir/b.npy: shape [9999999999, 9999999999] is too large"
    );
}

#[test]
fn bytes_that_are_no_text_are_replaced() {
    let bytes = with_header(1, b"{'descr': \xff}", &[]);
    assert_eq!(
        read_f32("b", &bytes).unwrap_err(),
        "expected little-endian f32 data, header: {'descr': \u{fffd}}"
    );
    let bytes = with_header(1, "{'descr': '<f4', 'é': 0, 'shape': (1,)}".as_bytes(), &[0, 0, 128, 63]);
    assert_eq!(read_f32("b", &bytes).unwrap(), (vec![1], single_bits(&[1.0])));
}

#[test]
fn headers_that_are_cut_off_are_noticed() {
    let bytes = write_f32(&[1], &single_bits(&[1.0])).unwrap();
    assert!(is_header_complete(&bytes));
    assert!(!is_header_complete(&bytes[..100]));
    assert!(!is_header_complete(b"\x93NUMPY\x02\x00\x01\x00"));
    assert!(!is_header_complete(b"\x93NUMPY\x03\x00\xff\xff\xff\xff...."));
    assert!(is_header_complete(b"\x93NUMPY\x07\x00\xff\xff"));
    assert!(is_header_complete(b""));
}

#[test]
fn headers_and_bodies_are_decoded_apart() {
    let head = "{'descr': '<f4', 'fortran_order': False, 'shape': (1, 2), }";
    let body = [0, 0, 128, 63, 0, 0, 0, 64];
    assert_eq!(decode("p", head, &body).unwrap(), (vec![1, 2], single_bits(&[1.0, 2.0])));
    assert_eq!(decode("p", head, &body[..7]).unwrap_err(), "p: 7 data bytes for shape [1, 2]");
}

fn checkpoint(n: usize, h: usize, w: usize) -> (Vec<usize>, Vec<u32>, Vec<u64>) {
    let data = (0..n * h * w).map(|i| (i as f32).to_bits()).collect();
    let angles = (0..n).map(|i| bits(i as f64 * 180.0)).collect();
    (vec![n, h, w], data, angles)
}

#[test]
fn load_save_round_trip() {
    let path = "roundtrip.h5";
    let (shape, data, angles) = checkpoint(2, 4, 5);
    let mut stack = load(path, &shape, data, Some(angles.clone()), None, None).unwrap();
    assert_eq!((stack.n, stack.height, stack.width), (2, 4, 5));
    assert_eq!(stack.angles_deg, vec![bits(0.0), bits(180.0)]);
    assert_eq!(stack.center_of_rotation, None);
    assert!(stack.previous_corrections.is_empty());

    stack.data[0] = 42.0f32.to_bits();
    let file = save(&stack, bits(2.25), "{\"tilt_deg\":0.5}", None);
    let shape = [file.shape.0, file.shape.1, file.shape.2];
    let reloaded = load(
        path,
        &shape,
        stack.data.clone(),
        Some(angles.clone()),
        Some(file.center_of_rotation),
        Some(&file.metadata),
    )
    .unwrap();
    assert_eq!(single(reloaded.data[0]), 42.0);
    assert_eq!(reloaded.center_of_rotation, Some(bits(2.25)));
    assert_eq!(reloaded.previous_corrections, vec!["{\"tilt_deg\":0.5}"]);

    // A second save appends to the history instead of replacing it.
    let file = save(&reloaded, bits(2.5), "{\"tilt_deg\":0.1}", Some(&file.metadata));
    let again = load(
        path,
        &shape,
        reloaded.data.clone(),
        Some(angles),
        Some(file.center_of_rotation),
        Some(&file.metadata),
    )
    .unwrap();
    assert_eq!(again.previous_corrections.len(), 2);
    assert_eq!(again.previous_corrections[1], "{\"tilt_deg\":0.1}");
    assert_eq!(again.path, path);
}

#[test]
fn saves_append_to_what_the_file_holds() {
    // The same stack is saved twice, without loading it again.
    let s = stack(2, 3, 2);
    let first = save(&s, bits(2.25), "{\"tilt_deg\":0.5}", None);
    assert_eq!(first.metadata, "{\"tilt_deg\":0.5}");
    let second = save(&s, bits(2.5), "{\"tilt_deg\":0.1}", Some(&first.metadata));
    assert_eq!(second.metadata, "{\"tilt_deg\":0.5}\n{\"tilt_deg\":0.1}");
    assert_eq!((second.shape, second.center_of_rotation), ((2, 2, 3), bits(2.5)));
    // What the stack was loaded with is not written again.
    let mut loaded = stack(2, 3, 2);
    loaded.previous_corrections = vec!["{\"tilt_deg\":0.5}".to_owned()];
    assert_eq!(save(&loaded, bits(2.5), "{\"tilt_deg\":0.1}", Some(&first.metadata)).metadata, second.metadata);
}

#[test]
fn corrections_are_recorded_and_read_back() {
    let mut s = stack(9, 11, 2);
    let mut rotated = stack(9, 11, 2);
    let est = estimate("some method");
    let (sino, _) = extract_sinogram::<Real>(&s, 3, est.tilt_deg);
    correct::<Real>(&mut s, &est);
    apply_tilt::<Real>(&mut rotated, est.tilt_deg);
    assert_eq!(s.data, rotated.data);
    assert_ne!(s.data, stack(9, 11, 2).data);
    assert_eq!(s.center_of_rotation, Some(bits(101.0)));
    assert_eq!((s.n, s.height, s.width), (2, 9, 11));
    assert_eq!(s.angles_deg, rotated.angles_deg);
    assert!(s.previous_corrections.is_empty());
    // What was extracted before is a row of the corrected stack.
    assert_eq!(&sino[..11], &s.plane(0)[3 * 11..4 * 11]);
    assert_eq!(&sino[11..], &s.plane(1)[3 * 11..4 * 11]);

    let file = save_correction::<Real>(&s, &est, "2024-05-06 07:08:09", "ann", Some("{\"first\":1}"));
    let shape = [file.shape.0, file.shape.1, file.shape.2];
    let again = load(
        "p",
        &shape,
        s.data.clone(),
        Some(s.angles_deg.clone()),
        Some(file.center_of_rotation),
        Some(&file.metadata),
    )
    .unwrap();
    assert_eq!(again.data, rotated.data);
    assert_eq!(again.center_of_rotation, Some(est.cor));
    let record = correction_record::<Real>(&est, "2024-05-06 07:08:09", "ann");
    assert_eq!(again.previous_corrections, vec!["{\"first\":1}".to_owned(), record.clone()]);
    let value: serde_json::Value = serde_json::from_str(&record).unwrap();
    assert_eq!(value["corrected_tilt_deg"].as_f64(), Some(0.5));
    assert_eq!(value["center_of_rotation"].as_f64(), Some(101.0));
    assert_eq!(value["r2"].as_f64(), Some(0.75));
}

#[test]
fn load_rejects_wrong_shapes() {
    assert!(load("flat.h5", &[4, 5], vec![0; 20], None, None, None).is_err());
}

#[test]
fn load_says_what_is_wrong() {
    let err = |shape: &[usize], angles: Option<Vec<u64>>| load("p", shape, Vec::new(), angles, None, None).unwrap_err();
    assert_eq!(err(&[4, 5], None), "/projections is not a 3D stack (shape [4, 5])");
    assert_eq!(err(&[], None), "/projections is not a 3D stack (shape [])");
    assert_eq!(err(&[0, 4, 5], None), "the projection stack is empty");
    assert_eq!(err(&[1, 0, 5], None), "the projection stack is empty");
    assert_eq!(err(&[1, 4, 0], None), "the projection stack is empty");
    assert_eq!(err(&[3, 4, 5], Some(vec![0; 2])), "2 angles for 3 projections");
    assert_eq!(stack_shape(&[3, 4, 5]), Ok((3, 4, 5)));
    assert_eq!(bracketed_text(&[7]), "[7]");
    assert_eq!(decimal_texts(&[1, 20]), vec!["1", "20"]);
    assert_eq!(RESULT_METADATA, "tilt_center_of_rotation");
}

#[test]
fn missing_angles_are_nan() {
    let s = load("p", &[2, 1, 1], vec![0, 0], None, Some(bits(1.5)), None).unwrap();
    assert!(s.angles_deg.iter().all(|&a| double(a).is_nan()));
    assert_eq!(s.angles_deg.len(), 2);
    assert_eq!(s.center_of_rotation, Some(bits(1.5)));
}

#[test]
fn planes_are_cut_from_the_data() {
    let s = stack(2, 3, 2);
    assert_eq!(singles(s.plane(1)), vec![1000.0, 1001.0, 1002.0, 1010.0, 1011.0, 1012.0]);
}

#[test]
fn inconsistent_stacks_are_noticed() {
    assert!(stack(2, 3, 4).is_consistent());
    let broken = |change: fn(&mut Stack)| {
        let mut s = stack(2, 3, 4);
        change(&mut s);
        !s.is_consistent()
    };
    assert!(broken(|s| s.n = 0));
    assert!(broken(|s| s.height = 0));
    assert!(broken(|s| s.width = 5));
    assert!(broken(|s| {
        s.angles_deg.pop();
    }));
    assert!(broken(|s| {
        s.data.pop();
    }));
    assert!(broken(|s| {
        s.height = usize::MAX;
        s.width = usize::MAX;
    }));
    assert!(broken(|s| {
        s.height = usize::MAX / 2;
        s.width = 2;
    }));
}

#[test]
fn blank_lines_are_no_history() {
    assert_eq!(parse_history("a\n\n  \nb\r\n\t\n"), vec!["a", "b"]);
    assert!(parse_history("").is_empty());
}

fn estimate(method: &str) -> Estimate {
    Estimate {
        method: method.to_owned(),
        tilt_deg: bits(0.5),
        cor: bits(101.0),
        slope: bits(0.25),
        intercept: bits(100.0),
        r2: bits(0.75),
        rows: Vec::new(),
    }
}

#[test]
fn records_are_json_objects() {
    let r = correction_record::<Real>(&estimate("0/180 pair 0.00° / 180.00°  (Δ 0.00°)"), "2024-05-06 07:08:09", "ann");
    assert_eq!(
        r,
        "{\"center_of_rotation\":101.0,\"corrected_tilt_deg\":0.5,\"date\":\"2024-05-06 07:08:09\",\"method\":\"0/180 pair 0.00° / 180.00°  (Δ 0.00°)\",\"r2\":0.75,\"user\":\"ann\"}"
    );
    let value: serde_json::Value = serde_json::from_str(&r).unwrap();
    assert_eq!(value.to_string(), r);
}

#[test]
fn records_stay_on_one_line_whatever_they_hold() {
    let odd = "q\"b\\ \u{8}\u{c}\n\r\t\u{1}\u{1f}\u{7f}é/";
    let r = correction_record::<Real>(&estimate(odd), "d\nd", "u\r\nu");
    assert!(!r.contains('\n'));
    assert!(r.contains("\"q\\\"b\\\\ \\b\\f\\n\\r\\t\\u0001\\u001f\u{7f}é/\""));
    let value: serde_json::Value = serde_json::from_str(&r).unwrap();
    assert_eq!(value["method"].as_str(), Some(odd));
    assert_eq!(value["user"].as_str(), Some("u\r\nu"));
    // And the history gives it back.
    let file = save(&stack(1, 1, 1), bits(1.0), &r, Some("{\"first\":1}\n"));
    assert_eq!(parse_history(&file.metadata), vec!["{\"first\":1}".to_owned(), r]);
}

#[test]
fn numbers_that_json_lacks_are_null() {
    let text = recon_spec_text::<Real>(&[bits(0.0), bits(f64::NAN)], true, &[bits(-1.5), bits(1e300)]);
    assert_eq!(text, "{\"angles_rad\":[0.0,null],\"apply_log\":true,\"centers\":[-1.5,1e+300]}");
    let text = recon_spec_text::<Real>(&[], false, &[]);
    assert_eq!(text, "{\"angles_rad\":[],\"apply_log\":false,\"centers\":[]}");
}

#[test]
fn untilted_extraction_is_the_raw_row() {
    let s = stack(20, 30, 3);
    let (sino, angles) = extract_sinogram::<Real>(&s, 7, bits(0.0));
    assert_eq!(angles.len(), 3);
    assert_eq!(sino.len(), 3 * 30);
    assert_eq!(&sino[..30], &s.plane(0)[7 * 30..8 * 30]);
}

#[test]
fn tilted_extraction_matches_the_analytic_rotation() {
    let (h, w) = (21, 31);
    let s = stack(h, w, 1);
    let row = 10; // the center row: dy = 0, so sy = cy − sin·dx
    let tilt: f64 = 2.0;
    let (sino, _) = extract_sinogram::<Real>(&s, row, bits(tilt));
    let (sin, cos) = tilt.to_radians().sin_cos();
    let (cx, cy) = ((w as f64 - 1.0) / 2.0, (h as f64 - 1.0) / 2.0);
    for x in 5..w - 5 {
        let dx = x as f64 - cx;
        let expected = (cos * dx + cx) + 10.0 * (-sin * dx + cy);
        assert!((f64::from(single(sino[x])) - expected).abs() < 1e-3, "x={x}: {} vs {expected}", single(sino[x]));
    }
}

#[test]
fn nan_pixels_become_zero_in_the_sinogram() {
    let mut s = stack(8, 9, 1);
    s.data[3 * 9 + 4] = f32::NAN.to_bits();
    let (sino, _) = extract_sinogram::<Real>(&s, 3, bits(0.0));
    assert!(sino.iter().all(|&v| single(v).is_finite()));
    assert_eq!(single(sino[4]), 0.0);
}

#[test]
fn nan_angles_are_skipped() {
    let mut s = stack(8, 9, 3);
    s.angles_deg[1] = bits(f64::NAN);
    let (sino, angles) = extract_sinogram::<Real>(&s, 2, bits(0.0));
    assert_eq!(angles.len(), 2);
    assert_eq!(sino.len(), 2 * 9);
}

#[test]
fn a_sinogram_is_a_row_of_the_rotated_stack() {
    let mut s = stack(11, 13, 3);
    s.angles_deg[1] = bits(f64::INFINITY);
    let (sino, angles) = extract_sinogram::<Real>(&s, 4, bits(1.25));
    let (beyond, _) = extract_sinogram::<Real>(&s, 99, bits(1.25));
    rotate_stack::<Real>(&mut s, bits(1.25));
    assert_eq!(&sino[..13], &s.plane(0)[4 * 13..5 * 13]);
    assert_eq!(&sino[13..], &s.plane(2)[4 * 13..5 * 13]);
    assert_eq!(&beyond[..13], &s.plane(0)[10 * 13..]);
    assert_eq!(angles, vec![bits(0.0), bits(2.0f64.to_radians())]);
}

#[test]
fn sinograms_are_handed_over_by_tilt_and_row() {
    let mut s = stack(6, 5, 4);
    s.angles_deg[0] = bits(f64::NAN);
    let (rows, tilts, centers) = (vec![1, 4], vec![bits(0.0), bits(0.5)], vec![bits(2.0)]);
    let h = prepare::<Real>(&s, &rows, &tilts, &centers, true).unwrap();
    let (shape, data) = read_f32("sino.npy", &h.sinograms).unwrap();
    assert_eq!(shape, vec![4, 3, 5]);
    let mut expected = Vec::new();
    for &tilt in &tilts {
        for &row in &rows {
            expected.extend(extract_sinogram::<Real>(&s, row, tilt).0);
        }
    }
    assert_eq!(data, expected);
    let angles = extract_sinogram::<Real>(&s, 0, bits(0.0)).1;
    assert_eq!(h.spec, recon_spec_text::<Real>(&angles, true, &centers));
}

#[test]
fn nothing_is_handed_over_without_values_or_angles() {
    let mut s = stack(6, 5, 3);
    let (rows, tilts, centers) = (vec![1], vec![bits(0.0)], vec![bits(2.0)]);
    let none = "no row, tilt or center values to reconstruct";
    assert_eq!(prepare::<Real>(&s, &Vec::new(), &tilts, &centers, false).unwrap_err(), none);
    assert_eq!(prepare::<Real>(&s, &rows, &Vec::new(), &centers, false).unwrap_err(), none);
    assert_eq!(prepare::<Real>(&s, &rows, &tilts, &Vec::new(), false).unwrap_err(), none);
    assert!(prepare::<Real>(&s, &rows, &tilts, &centers, false).is_ok());
    s.angles_deg[2] = bits(f64::NAN);
    assert_eq!(
        prepare::<Real>(&s, &rows, &tilts, &centers, false).unwrap_err(),
        "fewer than 3 projections carry an angle"
    );
}

#[test]
fn failures_show_the_last_lines() {
    let printed = "\n one\ntwo\nthree\nfour\nfive \n\n";
    let expected = "gridrec failed (exit status: 1): two | three | four | five";
    assert_eq!(failure_text("exit status: 1", printed), expected);
    assert_eq!(gridrec_failure("exit status: 1", printed.as_bytes()), expected);
    assert_eq!(gridrec_failure("signal: 9", b"a\xffb"), "gridrec failed (signal: 9): a\u{fffd}b");
    assert_eq!(gridrec_failure("signal: 9", b""), "gridrec failed (signal: 9): ");
}

#[test]
fn slices_are_found_by_tilt_row_and_center() {
    // Slice (t, r, c) is filled with 100 t + 10 r + c.
    let mut data = Vec::new();
    for t in 0..2 {
        for r in 0..3 {
            for c in 0..2 {
                data.extend(vec![(100 * t + 10 * r + c) as f32; 4]);
            }
        }
    }
    let bytes = write_f32(&[6, 2, 2, 2], &single_bits(&data)).unwrap();
    let rows = vec![5, 58, 60];
    let (tilts, centers) = (vec![bits(0.0), bits(0.2)], vec![bits(1.0), bits(2.0)]);
    let test: ReconTest = receive("out.npy", &bytes, rows.clone(), tilts.clone(), centers.clone()).unwrap();
    assert_eq!((test.rows.clone(), test.tilts.clone(), test.centers.clone(), test.size), (rows, tilts, centers, 2));
    for t in 0..2 {
        for r in 0..3 {
            for c in 0..2 {
                assert_eq!(singles(test.slice(t, r, c)), vec![(100 * t + 10 * r + c) as f32; 4]);
            }
        }
    }
}

#[test]
fn slices_of_another_shape_are_refused() {
    let two = || vec![bits(0.0), bits(1.0)];
    let err = |shape: Vec<usize>| assemble(&shape, Vec::new(), vec![5], two(), two()).unwrap_err();
    assert_eq!(err(vec![2, 2, 3]), "unexpected reconstruction shape [2, 2, 3]");
    let tail = "for 2 tilts × 1 rows × 2 centers";
    assert_eq!(err(vec![3, 2, 4, 4]), format!("unexpected reconstruction shape [3, 2, 4, 4] {tail}"));
    assert_eq!(err(vec![2, 1, 4, 4]), format!("unexpected reconstruction shape [2, 1, 4, 4] {tail}"));
    assert_eq!(err(vec![2, 2, 4, 5]), format!("unexpected reconstruction shape [2, 2, 4, 5] {tail}"));
    assert!(assemble(&vec![2, 2, 4, 4], vec![0; 64], vec![5], two(), two()).is_ok());
    let err = receive("out.npy", b"nothing", vec![5], two(), two()).unwrap_err();
    assert_eq!(err, "out.npy is not a .npy file");
}
