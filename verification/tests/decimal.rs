use imgcrop::decimal::{parse_decimal, Decimal, LIMIT, ONE};
use imgcrop::text::{chars_of, decimal_chars, is_whitespace, parse_u32, split_chars, split_words, str_le, string_of};

fn units(token: &str) -> Option<i128> {
    parse_decimal(token).map(|d| d.units())
}

#[test]
fn decimals_are_read_exactly() {
    assert_eq!(units("0"), Some(0));
    assert_eq!(units("1"), Some(ONE as i128));
    assert_eq!(units("0.5"), Some(500_000_000_000_000_000));
    assert_eq!(units("-0.25"), Some(-250_000_000_000_000_000));
    assert_eq!(units("+12.000000000000000001"), Some(12_000_000_000_000_000_001));
    assert_eq!(units("0.8189814814814815"), Some(818_981_481_481_481_500));
    assert_eq!(units("0.027083333333333334"), Some(27_083_333_333_333_334));
    assert_eq!(units("123.456e2"), Some(12_345_600_000_000_000_000_000));
    assert_eq!(units("123.456E-2"), Some(1_234_560_000_000_000_000));
    assert_eq!(units("1e-18"), Some(1));
    assert_eq!(units("-0"), Some(0));
    assert_eq!(units("007"), Some(7 * ONE as i128));
}

#[test]
fn decimals_are_cut_off_after_eighteen_places() {
    assert_eq!(units("0.1234567890123456789"), Some(123_456_789_012_345_678));
    assert_eq!(units("0.9999999999999999999"), Some(999_999_999_999_999_999));
    assert_eq!(units("-0.0000000000000000009"), Some(0));
    assert_eq!(units("1e-19"), Some(0));
    assert_eq!(units("19e-19"), Some(1));
}

#[test]
fn decimals_stop_at_the_limit() {
    assert_eq!(units("4294967296"), Some(LIMIT as i128));
    assert_eq!(units("4294967295.999999999999999999"), Some(LIMIT as i128 - 1));
    assert_eq!(units("5000000000"), Some(LIMIT as i128));
    assert_eq!(units("-5000000000"), Some(-(LIMIT as i128)));
    assert_eq!(units("1e300"), Some(LIMIT as i128));
    assert_eq!(units("0.000001e300"), Some(LIMIT as i128));
    assert_eq!(units("0e300"), Some(0));
    assert_eq!(units("0.0e+999999999999999999999999999999999999"), Some(0));
    assert_eq!(units("123e-999999999999999999999999999999999999"), Some(0));
    assert_eq!(Decimal::from_units(i128::MAX).units(), LIMIT as i128);
    assert_eq!(Decimal::from_units(i128::MIN).units(), -(LIMIT as i128));
    assert_eq!(Decimal::from_units(-5).units(), -5);
}

#[test]
fn what_is_no_decimal() {
    for token in ["", ".", "+", "-.", "e1", ".e1", "1e", "1e-", "1e1.5", "1_000", "1 ", " 1", "--1", "1..2", "infinity", "nan", "0x1p3", "1f"] {
        assert_eq!(units(token), None, "{:?}", token);
    }
}

#[test]
fn unsigned_integers() {
    let read = |s: &str| parse_u32(&chars_of(s));
    assert_eq!(read("0"), Some(0));
    assert_eq!(read("42"), Some(42));
    assert_eq!(read("+42"), Some(42));
    assert_eq!(read("0042"), Some(42));
    assert_eq!(read("4294967295"), Some(u32::MAX));
    assert_eq!(read("4294967296"), None);
    assert_eq!(read("99999999999999999999999999"), None);
    assert_eq!(read(""), None);
    assert_eq!(read("+"), None);
    assert_eq!(read("-1"), None);
    assert_eq!(read("1.0"), None);
    assert_eq!(read("4 2"), None);
    assert_eq!(read("++1"), None);
}

#[test]
fn integers_are_written_in_base_ten() {
    for n in [0usize, 1, 9, 10, 11, 99, 100, 101, 12345, usize::MAX] {
        assert_eq!(string_of(&decimal_chars(n)), n.to_string());
    }
}

#[test]
fn text_goes_to_characters_and_back() {
    for s in ["", "a", "héllo wörld", "日本語", "a\nb"] {
        assert_eq!(string_of(&chars_of(s)), s);
        assert_eq!(chars_of(s), s.chars().collect::<Vec<char>>());
    }
}

#[test]
fn strings_are_ordered_as_the_standard_library_orders_them() {
    let samples = ["", "a", "A", "ab", "abc", "b", "é", "z", "日本", "a\u{ffff}", "a\u{10000}", "~", " "];
    for a in samples {
        for b in samples {
            assert_eq!(str_le(a, b), a <= b, "{:?} {:?}", a, b);
        }
    }
}

#[test]
fn white_space_is_what_the_standard_library_takes_for_it() {
    for code in 0..0x11_0000u32 {
        if let Some(c) = char::from_u32(code) {
            assert_eq!(is_whitespace(c), c.is_whitespace(), "{:x}", code);
        }
    }
}

#[test]
fn splitting_agrees_with_the_standard_library() {
    for s in ["", "a", "a\nb", "\n", "a\n", "\na", "a\n\nb\n", "one two\nthree"] {
        let got: Vec<String> = split_chars(&chars_of(s), '\n').iter().map(string_of).collect();
        let expected: Vec<String> = s.split('\n').map(|p| p.to_string()).collect();
        assert_eq!(got, expected, "{:?}", s);
    }
    for s in ["", " ", "a", " a ", "a b", "  a \t b\u{3000}c \r\n", "\u{a0}x\u{2003}y"] {
        let got: Vec<String> = split_words(&chars_of(s)).iter().map(string_of).collect();
        let expected: Vec<String> = s.split_whitespace().map(|p| p.to_string()).collect();
        assert_eq!(got, expected, "{:?}", s);
    }
}
