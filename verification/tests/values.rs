//! Bit patterns, orders and texts.
use tilt_center_of_rotation::ieee;
use tilt_center_of_rotation::logger::{error, log, log_path, start_message, user_id};
use tilt_center_of_rotation::order::{least_index, sorted_indices};
use tilt_center_of_rotation::text::{
    append_decimal, characters, contains, is_blank, join, parse_number, position, split_lines, text_before,
    text_second_piece, trim,
};

fn bits(x: f64) -> u64 {
    x.to_bits()
}

const SAMPLES: [f64; 22] = [
    0.0,
    -0.0,
    0.25,
    0.999,
    1.0,
    1.5,
    -1.5,
    2.0,
    255.0,
    1e9,
    -1e9,
    4503599627370495.5,
    4503599627370496.0,
    9007199254740993.0,
    1.8446744073709552e19,
    1e300,
    1e-300,
    5e-324,
    f64::INFINITY,
    f64::NEG_INFINITY,
    f64::NAN,
    f64::MAX,
];

#[test]
fn constants_are_the_numbers_they_are_named_after() {
    assert_eq!(ieee::ZERO, bits(0.0));
    assert_eq!(ieee::NEG_ZERO, bits(-0.0));
    assert_eq!(ieee::HALF, bits(0.5));
    assert_eq!(ieee::ONE, bits(1.0));
    assert_eq!(ieee::NEG_ONE, bits(-1.0));
    assert_eq!(ieee::TWO, bits(2.0));
    assert_eq!(ieee::HALF_TURN, bits(180.0));
    assert_eq!(ieee::FULL_TURN, bits(360.0));
    assert_eq!(ieee::TINY, bits(1e-12));
    assert_eq!(ieee::INFINITY, bits(f64::INFINITY));
    assert!(f64::from_bits(ieee::NAN).is_nan());
    assert_eq!(ieee::ZERO_32, 0.0f32.to_bits());
    assert_eq!(ieee::NEG_ZERO_32, (-0.0f32).to_bits());
    assert_eq!(ieee::ONE_32, 1.0f32.to_bits());
    assert_eq!(ieee::WHITE_32, 255.0f32.to_bits());
    assert_eq!(ieee::INFINITY_32, f32::INFINITY.to_bits());
}

#[test]
fn doubles_are_classified_and_compared_as_the_machine_does() {
    for &x in &SAMPLES {
        let a = bits(x);
        assert_eq!(ieee::is_finite(a), x.is_finite(), "{x}");
        assert_eq!(ieee::is_nan(a), x.is_nan(), "{x}");
        assert_eq!(ieee::abs(a), bits(x.abs()), "{x}");
        assert_eq!(ieee::negate(a), bits(-x), "{x}");
        assert_eq!(ieee::to_index(a), x as usize, "{x}");
        for &y in &SAMPLES {
            let b = bits(y);
            assert_eq!(ieee::less(a, b), x < y, "{x} {y}");
            assert_eq!(ieee::less_or_equal(a, b), x <= y, "{x} {y}");
            assert_eq!(ieee::total_key(a).cmp(&ieee::total_key(b)), x.total_cmp(&y), "{x} {y}");
            if !y.is_nan() {
                assert_eq!(f64::from_bits(ieee::raise(a, b)), x.max(y), "{x} {y}");
                assert_eq!(f64::from_bits(ieee::lower(a, b)), x.min(y), "{x} {y}");
            }
            if ieee::less(a, b) {
                assert!(ieee::total_key(a) < ieee::total_key(b));
            }
        }
        if !x.is_nan() {
            assert_eq!(f64::from_bits(ieee::clamp(a, ieee::NEG_ONE, ieee::TWO)), x.clamp(-1.0, 2.0));
        }
    }
    assert!(f64::from_bits(ieee::clamp(ieee::NAN, ieee::ZERO, ieee::ONE)).is_nan());
}

#[test]
fn singles_are_classified_and_compared_as_the_machine_does() {
    for &x in &SAMPLES {
        let (x, a) = (x as f32, (x as f32).to_bits());
        assert_eq!(ieee::is_finite32(a), x.is_finite(), "{x}");
        assert_eq!(ieee::abs32(a), x.abs().to_bits(), "{x}");
        assert_eq!(ieee::to_byte(a), x as u8, "{x}");
        for &y in &SAMPLES {
            let (y, b) = (y as f32, (y as f32).to_bits());
            assert_eq!(ieee::less32(a, b), x < y, "{x} {y}");
            assert_eq!(ieee::total_key32(a).cmp(&ieee::total_key32(b)), x.total_cmp(&y), "{x} {y}");
        }
        if !x.is_nan() {
            assert_eq!(f32::from_bits(ieee::clamp32(a, ieee::ZERO_32, ieee::ONE_32)), x.clamp(0.0, 1.0));
        }
    }
    for k in 0..=2560u32 {
        let x = k as f32 / 10.0;
        assert_eq!(ieee::to_byte(x.to_bits()), x as u8, "{x}");
    }
}

#[test]
fn clamped_points_have_an_index_in_range() {
    for n in [1usize, 2, 7, 4096, 1 << 40] {
        let last = bits((n - 1) as f64);
        assert_eq!(ieee::to_index(last), n - 1);
        for &x in &SAMPLES {
            assert!(ieee::to_index(ieee::clamp(bits(x), ieee::ZERO, last)) < n, "{x} {n}");
        }
    }
    let mut sorted = SAMPLES.iter().copied().filter(|x| !x.is_nan()).collect::<Vec<f64>>();
    sorted.sort_by(f64::total_cmp);
    let indices: Vec<usize> = sorted.iter().map(|&x| ieee::to_index(bits(x))).collect();
    assert!(indices.windows(2).all(|w| w[0] <= w[1]));
}

#[test]
fn sorting_is_stable() {
    let keys = vec![(3, 0), (1, 2), (3, -1), (1, 2), (i64::MIN, 5), (1, 0)];
    assert_eq!(sorted_indices(&keys), vec![4, 5, 1, 3, 2, 0]);
    assert!(sorted_indices(&Vec::new()).is_empty());
    let many: Vec<(i64, i64)> = (0..1000i64).map(|k| ((k * 7919) % 31, (k * 104729) % 7)).collect();
    let mut expected: Vec<usize> = (0..1000).collect();
    expected.sort_by_key(|&k| many[k]);
    assert_eq!(sorted_indices(&many), expected);
}

#[test]
fn the_first_least_value_is_found() {
    let values: Vec<u64> = [2.0, 1.0, 3.0, 1.0].iter().map(|&v| bits(v)).collect();
    assert_eq!(least_index(&values), Some(1));
    assert_eq!(least_index(&vec![bits(0.0), bits(-0.0)]), Some(1));
    assert_eq!(least_index(&vec![bits(f64::NAN), bits(9.0)]), Some(1));
    assert_eq!(least_index(&Vec::new()), None);
}

#[test]
fn decimals_round_trip() {
    for n in [0usize, 7, 10, 99, 100, 12345, usize::MAX] {
        let mut s = String::from("n=");
        append_decimal(&mut s, n);
        assert_eq!(s, format!("n={n}"));
        assert_eq!(parse_number(&characters(&s[2..])), Some(n));
    }
    let parse = |s: &str| parse_number(&characters(s));
    assert_eq!(parse("+12"), Some(12));
    assert_eq!(parse("007"), Some(7));
    for bad in ["", "+", "-1", "1a", " 1", "18446744073709551616", "99999999999999999999999", "١"] {
        assert_eq!(parse(bad), bad.parse::<usize>().ok(), "{bad}");
        assert_eq!(parse(bad), None);
    }
}

#[test]
fn white_space_is_trimmed_as_std_does() {
    for s in ["", " ", "a", " a b ", "\u{a0}\u{3000}x\u{2028}", "\t\r\nq\u{85}", "\u{200b}z", "\u{1680}\u{205f}"] {
        let t: String = trim(&characters(s)).into_iter().collect();
        assert_eq!(t, s.trim());
        assert_eq!(is_blank(s), s.trim().is_empty());
    }
}

#[test]
fn lines_are_split_as_std_does() {
    for s in ["", "\n", "a", "a\n", "a\nb", "a\r\nb\r\n", "\n\na\n", "a\r", "a\r\r\nb", "é\nß"] {
        let expected: Vec<String> = s.lines().map(str::to_owned).collect();
        assert_eq!(split_lines(s), expected, "{s:?}");
    }
}

#[test]
fn joined_lines_are_split_again() {
    let list: Vec<String> = ["one", "", "two words", "{\"a\":1}"].iter().map(|s| s.to_string()).collect();
    assert_eq!(split_lines(&join(&list, "\n")), list);
    assert_eq!(join(&list, ", "), "one, , two words, {\"a\":1}");
    assert_eq!(join(&Vec::new(), ", "), "");
    assert_eq!(join(&vec!["x".to_string()], ", "), "x");
}

#[test]
fn patterns_are_found_first_come_first() {
    let t = characters("abcabc(d)(e)");
    assert_eq!(position(&t, &characters("bc")), Some(1));
    assert_eq!(position(&t, &characters("")), Some(0));
    assert_eq!(position(&t, &characters("zz")), None);
    assert_eq!(position(&characters("a"), &characters("ab")), None);
    assert!(contains(&t, "c(d"));
    assert!(!contains(&t, "cd"));
    let string = |v: Vec<char>| v.into_iter().collect::<String>();
    assert_eq!(string(text_before(&t, "(")), "abcabc");
    assert_eq!(string(text_before(&t, "!")), "abcabc(d)(e)");
    assert_eq!(text_second_piece(&t, "(").map(string), Some("d)".to_string()));
    assert_eq!(text_second_piece(&t, "!"), None);
}

#[test]
fn log_lines_have_time_and_level() {
    let ts = "2024-05-06 07:08:09,123";
    assert_eq!(log(ts, "hello"), "2024-05-06 07:08:09,123 - INFO - hello\n");
    assert_eq!(error(ts, "broken"), "2024-05-06 07:08:09,123 - ERROR - broken\n");
    assert_eq!(log_path("ann"), "/SNS/VENUS/shared/log/rust_tilt_center_of_rotation_ann.log");
    assert_eq!(user_id(Some("ann".to_owned())), "ann");
    assert_eq!(user_id(None), "user");
    assert_eq!(
        start_message("ann", 4242, "0.1.0"),
        "=== Application started (user: ann, pid: 4242, version: 0.1.0) ==="
    );
}
