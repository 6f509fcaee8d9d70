use pepper_plucker::decimal::Decimal;

fn parsed(s: &str) -> i128 {
    Decimal::parse(s).expect("token should parse").micro
}

#[test]
fn parses_simple_tokens() {
    assert_eq!(parsed("12.5"), 12_500_000);
    assert_eq!(parsed("100.005"), 100_005_000);
    assert_eq!(parsed("50.00"), 50_000_000);
    assert_eq!(parsed("0"), 0);
    assert_eq!(parsed("7"), 7_000_000);
    assert_eq!(parsed("007.25"), 7_250_000);
    assert_eq!(parsed("0.000001"), 1);
}

#[test]
fn parses_negative_tokens() {
    assert_eq!(parsed("-3.25"), -3_250_000);
    assert_eq!(parsed("-0.5"), -500_000);
    assert_eq!(parsed("-0"), 0);
}

#[test]
fn rounds_the_seventh_fraction_digit_half_up() {
    assert_eq!(parsed("0.0000005"), 1);
    assert_eq!(parsed("0.00000049"), 0);
    assert_eq!(parsed("1.2345675"), 1_234_568);
    assert_eq!(parsed("1.2345674999"), 1_234_567);
    assert_eq!(parsed("-0.0000005"), -1);
}

#[test]
fn accepts_the_largest_representable_weight() {
    assert_eq!(parsed("999999999"), 999_999_999_000_000);
    assert_eq!(parsed("999999999.999999"), 999_999_999_999_999);
}

#[test]
fn rejects_malformed_tokens() {
    for bad in [
        "", "-", ".", "1.", ".5", "1..2", "1.2.3", "12a", "a12", "1 2", "+5", "--1", "-.5",
        "1,5", " 1",
    ] {
        assert!(Decimal::parse(bad).is_none(), "{bad:?} should be rejected");
    }
}

#[test]
fn rejects_non_finite_spellings() {
    for bad in ["NaN", "nan", "Infinity", "-Infinity", "inf", "-inf"] {
        assert!(Decimal::parse(bad).is_none(), "{bad:?} should be rejected");
    }
}

#[test]
fn rejects_out_of_range_tokens() {
    assert!(Decimal::parse("1000000000").is_none());
    assert!(Decimal::parse("999999999999").is_none());
    assert!(Decimal::parse("0000000000001000000000").is_none());
    // Rounding the fraction up can push the value just out of range.
    assert!(Decimal::parse("999999999.9999995").is_none());
}

#[test]
fn renders_canonical_tokens() {
    assert_eq!(Decimal { micro: 12_500_000 }.to_decimal_string(), "12.500000");
    assert_eq!(Decimal { micro: 0 }.to_decimal_string(), "0.000000");
    assert_eq!(Decimal { micro: -3_250_000 }.to_decimal_string(), "-3.250000");
    assert_eq!(Decimal { micro: 100_005_000 }.to_decimal_string(), "100.005000");
}

#[test]
fn parse_render_round_trip() {
    for micro in [
        0i128, 1, -1, 12_500_000, -12_500_000, 100_005_000, 999_999_999_999_999,
        -999_999_999_999_999, 42,
    ] {
        let d = Decimal { micro };
        let s = d.to_decimal_string();
        let back = Decimal::parse(&s).expect("canonical rendering should parse");
        assert_eq!(back.micro, micro, "round trip through {s:?}");
    }
}

#[test]
fn rounds_half_up_to_two_places() {
    assert_eq!(Decimal { micro: 150_005_000 }.rounded2().micro, 150_010_000);
    assert_eq!(Decimal { micro: 150_004_999 }.rounded2().micro, 150_000_000);
    assert_eq!(Decimal { micro: -150_005_000 }.rounded2().micro, -150_010_000);
    assert_eq!(Decimal { micro: 0 }.rounded2().micro, 0);
    assert_eq!(Decimal { micro: 10_000 }.rounded2().micro, 10_000);
}

#[test]
fn renders_two_place_strings() {
    assert_eq!(Decimal { micro: 150_005_000 }.to_string_2dp(), "150.01");
    assert_eq!(Decimal { micro: 0 }.to_string_2dp(), "0.00");
    assert_eq!(Decimal { micro: 12_500_000 }.to_string_2dp(), "12.50");
    assert_eq!(Decimal { micro: -1_239_999 }.to_string_2dp(), "-1.24");
}
