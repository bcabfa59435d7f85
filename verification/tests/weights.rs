use idea_chooser::{
    parse_weight, weight_or_default, Weight, WeightSet, DEFAULT_WEIGHT_TEXT, NANOS_PER_UNIT,
};

fn finite(text: &str) -> i64 {
    match parse_weight(text) {
        Some(Weight::Finite(nanos)) => nanos,
        other => panic!("{:?} read as {:?}", text, other),
    }
}

#[test]
fn plain_numbers_are_read() {
    assert_eq!(NANOS_PER_UNIT, 1_000_000_000);
    assert_eq!(finite("1.0"), 1_000_000_000);
    assert_eq!(finite("1"), 1_000_000_000);
    assert_eq!(finite("2"), 2_000_000_000);
    assert_eq!(finite("0.5"), 500_000_000);
    assert_eq!(finite("0"), 0);
    assert_eq!(finite("0.0"), 0);
    assert_eq!(finite("12.345678901"), 12_345_678_901);
    assert_eq!(finite("007"), 7_000_000_000);
    assert_eq!(finite("3.14"), 3_140_000_000);
    assert_eq!(finite("0.1234567"), 123_456_700);
}

#[test]
fn negative_weight_is_read_as_negative() {
    assert_eq!(parse_weight("-1.0"), Some(Weight::Finite(-1_000_000_000)));
    assert_eq!(weight_or_default("-1.0"), Weight::Finite(-1_000_000_000));
    assert_eq!(finite("-0.5"), -500_000_000);
    assert_eq!(finite("-2"), -2_000_000_000);
    assert_eq!(finite("-0"), 0);
}

#[test]
fn plus_sign_is_accepted() {
    assert_eq!(finite("+1.5"), 1_500_000_000);
    assert_eq!(finite("+0"), 0);
}

#[test]
fn point_may_stand_first_or_last() {
    assert_eq!(finite(".5"), 500_000_000);
    assert_eq!(finite("5."), 5_000_000_000);
    assert_eq!(finite("-.25"), -250_000_000);
    assert_eq!(finite("+7."), 7_000_000_000);
}

#[test]
fn digits_beyond_the_ninth_place_are_cut_off() {
    assert_eq!(finite("0.1234567891"), 123_456_789);
    assert_eq!(finite("0.9999999999"), 999_999_999);
    assert_eq!(finite("-0.9999999999"), -999_999_999);
    assert_eq!(finite("0.0000000001"), 0);
    assert_eq!(finite("-0.0000000009"), 0);
    assert_eq!(finite("1.00000000049999999999999999999999999999"), 1_000_000_000);
    assert_eq!(finite("0.333333333333"), 333_333_333);
}

#[test]
fn powers_of_ten_are_applied() {
    assert_eq!(finite("1e3"), 1_000_000_000_000);
    assert_eq!(finite("1E3"), 1_000_000_000_000);
    assert_eq!(finite("1e+3"), 1_000_000_000_000);
    assert_eq!(finite("1e0"), 1_000_000_000);
    assert_eq!(finite("1e-2"), 10_000_000);
    assert_eq!(finite("25e-1"), 2_500_000_000);
    assert_eq!(finite("2.5e1"), 25_000_000_000);
    assert_eq!(finite("-2.5e-1"), -250_000_000);
    assert_eq!(finite(".5e1"), 5_000_000_000);
    assert_eq!(finite("5.e1"), 50_000_000_000);
    assert_eq!(finite("1e-9"), 1);
    assert_eq!(finite("1e-10"), 0);
    assert_eq!(finite("123456789123e-12"), 123_456_789);
    assert_eq!(finite("0.000123e4"), 1_230_000_000);
    assert_eq!(finite("1e0000000000000000000000000000000000001"), 10_000_000_000);
}

#[test]
fn far_powers_of_ten_are_zero_or_not_finite() {
    assert_eq!(finite("1e-400"), 0);
    assert_eq!(finite("0e400"), 0);
    assert_eq!(finite("0.000e99999999999999999999999999999999"), 0);
    assert_eq!(finite("-0e99999999999999999999999999999999"), 0);
    assert_eq!(finite("123e-99999999999999999999999999999999"), 0);
    assert_eq!(parse_weight("1e400"), Some(Weight::NonFinite));
    assert_eq!(parse_weight("1e10"), Some(Weight::NonFinite));
    assert_eq!(parse_weight("0.001e99999999999999999999999999999999"), Some(Weight::NonFinite));
    assert_eq!(finite("10000000000000000000000000000000000000000e-40"), 1_000_000_000);
    assert_eq!(finite("0.0000000000000000000000000000000000000001e40"), 1_000_000_000);
}

#[test]
fn largest_finite_weight() {
    assert_eq!(finite("9223372036.854775807"), i64::MAX);
    assert_eq!(finite("-9223372036.854775807"), -i64::MAX);
    assert_eq!(finite("9223372036.8547758079"), i64::MAX);
    assert_eq!(parse_weight("9223372036.854775808"), Some(Weight::NonFinite));
    assert_eq!(finite("-9223372036.854775808"), i64::MIN);
    assert_eq!(finite("-9223372036.8547758089"), i64::MIN);
    assert_eq!(parse_weight("-9223372036.854775809"), Some(Weight::NonFinite));
    assert_eq!(parse_weight("-9223372037"), Some(Weight::NonFinite));
    assert_eq!(parse_weight("9223372037"), Some(Weight::NonFinite));
    assert_eq!(finite("1e9"), 1_000_000_000_000_000_000);
    assert_eq!(finite("9e9"), 9_000_000_000_000_000_000);
    assert_eq!(parse_weight("10e9"), Some(Weight::NonFinite));
    assert_eq!(parse_weight("99999999999999999999999999999999999999"), Some(Weight::NonFinite));
}

#[test]
fn words_name_weights_that_are_not_finite() {
    for text in [
        "inf", "INF", "Inf", "+inf", "-inf", "infinity", "Infinity", "-INFINITY", "+InFiNiTy", "nan",
        "NaN", "NAN", "-nan", "+nan",
    ] {
        assert_eq!(parse_weight(text), Some(Weight::NonFinite), "{}", text);
        assert_eq!(weight_or_default(text), Weight::NonFinite, "{}", text);
    }
}

#[test]
fn other_text_is_no_weight() {
    for text in [
        "", "+", "-", ".", "+.", "-.", "e", "e5", ".e5", "1e", "1e+", "1e-", "1.5.2", "1..5", "--1",
        "+-1", "-+1", "1-", " 1", "1 ", "1 000", "1,5", "1_000", "0x10", "abc", "in", "infinit",
        "infinityy", "na", "nana", "1inf", "inf1", "i nf", "1f", "1.0f32", "1e5.5", "1e5e5", "١", "½",
        "1٫5", "ınf", "İNF", "nän",
    ] {
        assert_eq!(parse_weight(text), None, "{:?}", text);
    }
}

#[test]
fn text_that_is_no_weight_counts_as_one() {
    assert_eq!(weight_or_default("abc"), Weight::Finite(1_000_000_000));
    assert_eq!(weight_or_default(""), Weight::one());
    assert_eq!(weight_or_default("1.5.2"), Weight::one());
    assert_eq!(weight_or_default("2.5"), Weight::Finite(2_500_000_000));
    assert_eq!(weight_or_default("0"), Weight::Finite(0));
}

#[test]
fn reading_agrees_with_floating_point() {
    for text in ["1.0", "-1.0", "0.5", "2", "3.25", "1e2", "-4.75e-1", "100.125", ".5", "7."] {
        let expected: f64 = text.parse().unwrap();
        let got = finite(text) as f64 / NANOS_PER_UNIT as f64;
        assert!((got - expected).abs() < 1e-9, "{}", text);
    }
}

#[test]
fn default_text_reads_as_one() {
    assert_eq!(DEFAULT_WEIGHT_TEXT, "1.0");
    assert_eq!(parse_weight(DEFAULT_WEIGHT_TEXT), Some(Weight::one()));
    assert_eq!(
        WeightSet::new(
            weight_or_default(DEFAULT_WEIGHT_TEXT),
            weight_or_default(DEFAULT_WEIGHT_TEXT),
            weight_or_default(DEFAULT_WEIGHT_TEXT)
        ),
        WeightSet::default()
    );
}

fn every_text(symbols: &[char], longest: usize) -> Vec<String> {
    let mut texts = vec![String::new()];
    let mut from = 0;
    for _ in 0..longest {
        let upto = texts.len();
        for at in from..upto {
            for &symbol in symbols {
                let mut longer = texts[at].clone();
                longer.push(symbol);
                texts.push(longer);
            }
        }
        from = upto;
    }
    texts
}

fn agrees_with_floating_point(text: &str) {
    let float: Result<f64, _> = text.parse();
    match parse_weight(text) {
        None => assert!(float.is_err(), "{:?}", text),
        Some(Weight::NonFinite) => {
            let value = float.unwrap();
            assert!(!value.is_finite() || value.abs() > 9.2e9, "{:?}", text);
        },
        Some(Weight::Finite(nanos)) => {
            let value = float.unwrap();
            assert!(value.is_finite(), "{:?}", text);
            let expected = (value * 1e9).trunc();
            assert!((nanos as f64 - expected).abs() <= 1.0, "{:?}", text);
        },
    }
}

#[test]
fn weights_are_the_texts_that_read_as_floating_point() {
    let symbols = ['+', '-', '.', '0', '1', '9', 'e', 'E', 'i', 'n', 'f', 'a', 'N', ' ', 'x'];
    let texts = every_text(&symbols, 4);
    assert_eq!(texts.len(), 1 + 15 + 225 + 3375 + 50625);
    for text in &texts {
        agrees_with_floating_point(text);
    }
}

#[test]
fn longer_numbers_read_as_floating_point_does() {
    let symbols = ['+', '-', '.', '0', '7', 'e'];
    let texts = every_text(&symbols, 6);
    assert_eq!(texts.len(), 1 + 6 + 36 + 216 + 1296 + 7776 + 46656);
    for text in &texts {
        agrees_with_floating_point(text);
    }
}

#[test]
fn long_numbers_agree_with_floating_point() {
    let mut state: u64 = 0x2545_f491_4f6c_dd1d;
    let mut next = |bound: u64| -> u64 {
        state ^= state << 13;
        state ^= state >> 7;
        state ^= state << 17;
        state % bound
    };
    for _ in 0..20_000 {
        let mut text = String::new();
        match next(3) {
            0 => text.push('-'),
            1 => text.push('+'),
            _ => {},
        }
        let whole = next(22);
        for _ in 0..whole {
            text.push((b'0' + next(10) as u8) as char);
        }
        let point = next(2) == 0;
        let mut fraction = 0;
        if point {
            text.push('.');
            fraction = next(22);
            for _ in 0..fraction {
                text.push((b'0' + next(10) as u8) as char);
            }
        }
        if whole + fraction == 0 {
            text.push('5');
        }
        if next(2) == 0 {
            text.push(if next(2) == 0 { 'e' } else { 'E' });
            let exponent = next(61) as i64 - 30;
            text.push_str(&exponent.to_string());
        }
        let value: f64 = text.parse().unwrap();
        let scaled = value * 1e9;
        match parse_weight(&text) {
            None => panic!("{:?} is not read", text),
            Some(Weight::NonFinite) => assert!(scaled.abs() > 9.2e18, "{:?}", text),
            Some(Weight::Finite(nanos)) => {
                assert!(scaled.abs() < 9.3e18, "{:?}", text);
                let slack = 1.0 + scaled.abs() * 1e-12;
                assert!((nanos as f64 - scaled.trunc()).abs() <= slack, "{:?}", text);
                assert!(nanos == 0 || (nanos < 0) == text.starts_with('-'), "{:?}", text);
            },
        }
    }
}
