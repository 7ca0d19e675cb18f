use parse_frequency::{parse_frequency, parse_lowered, Error, Frequency};

fn unknown(s: &str) -> Error {
    Error::UnknownUnit(s.to_string())
}

fn invalid(s: &str) -> Error {
    Error::InvalidValue(s.to_string())
}

#[test]
fn parse_each_unit_scales_the_number() {
    assert_eq!(parse_frequency("7hz").unwrap().as_hz(), 7);
    assert_eq!(parse_frequency("7khz").unwrap().as_hz(), 7_000);
    assert_eq!(parse_frequency("7mhz").unwrap().as_hz(), 7_000_000);
    assert_eq!(parse_frequency("7ghz").unwrap().as_hz(), 7_000_000_000);
    assert_eq!(parse_frequency("2.5GHz").unwrap().as_hz(), 2_500_000_000);
    assert_eq!(parse_frequency("500kHz").unwrap().as_hz(), 500_000);
    assert_eq!(parse_frequency("100Hz").unwrap().as_hz(), 100);
}

#[test]
fn parse_errors_name_their_kind() {
    assert_eq!(parse_frequency(""), Err(unknown("")));
    assert_eq!(parse_frequency("42"), Err(unknown("42")));
    assert_eq!(parse_frequency("GHz"), Err(invalid("")));
    assert_eq!(parse_frequency("20h"), Err(unknown("20h")));
    assert_eq!(parse_frequency("  Invalid "), Err(unknown("invalid")));
    assert_eq!(parse_frequency("--5GHz"), Err(invalid("--5")));
    assert_eq!(parse_frequency("2.5.1 MHz"), Err(invalid("2.5.1 ")));
    assert_eq!(parse_frequency(". hz"), Err(invalid(". ")));
}

#[test]
fn parse_rejects_negative_values_including_zero() {
    assert_eq!(parse_frequency("-1hz"), Err(invalid("-1")));
    assert_eq!(parse_frequency("-0 GHz"), Err(invalid("-0 ")));
}

#[test]
fn parse_accepts_sign_and_bare_point_forms() {
    assert_eq!(parse_frequency("+5 hz").unwrap().as_hz(), 5);
    assert_eq!(parse_frequency(".5khz").unwrap().as_hz(), 500);
    assert_eq!(parse_frequency("3. mhz").unwrap().as_hz(), 3_000_000);
    assert_eq!(parse_frequency(" \t 4 kHz \n").unwrap().as_hz(), 4_000);
}

#[test]
fn parse_rounds_to_nearest_hertz_halves_up() {
    assert_eq!(parse_frequency("0.5 hz").unwrap().as_hz(), 1);
    assert_eq!(parse_frequency("0.49 hz").unwrap().as_hz(), 0);
    assert_eq!(parse_frequency("1.0005 khz").unwrap().as_hz(), 1_001);
    assert_eq!(parse_frequency("1.00049 khz").unwrap().as_hz(), 1_000);
    assert_eq!(parse_frequency("0.0000000015 ghz").unwrap().as_hz(), 2);
}

#[test]
fn parse_clamps_to_the_largest_count() {
    assert_eq!(parse_frequency("99999999999 GHz").unwrap().as_hz(), u64::MAX);
    assert_eq!(
        parse_frequency("18446744073709551615 Hz").unwrap().as_hz(),
        u64::MAX
    );
    assert_eq!(
        parse_frequency("18446744073709551616 Hz").unwrap().as_hz(),
        u64::MAX
    );
}

#[test]
fn parse_lowers_the_case_of_any_letter() {
    assert_eq!(parse_frequency("3 KHZ").unwrap().as_hz(), 3_000);
    assert_eq!(parse_frequency("3 mHz").unwrap().as_hz(), 3_000_000);
}

#[test]
fn parse_lowered_takes_the_text_as_given() {
    assert_eq!(parse_lowered("2.5 khz").unwrap().as_hz(), 2_500);
    assert_eq!(parse_lowered("2.5 kHz"), Err(unknown("2.5 kHz")));
    assert_eq!(parse_lowered(" 1hz").unwrap().as_hz(), 1);
}

#[test]
fn from_str_agrees_with_parse_frequency() {
    assert_eq!("1.5 MHz".parse::<Frequency>(), parse_frequency("1.5 MHz"));
    assert_eq!("bad".parse::<Frequency>(), Err(unknown("bad")));
}

#[test]
fn try_from_agrees_with_parse_frequency() {
    assert_eq!(Frequency::try_from("2.5 kHz"), parse_frequency("2.5 kHz"));
    assert_eq!(
        Frequency::try_from(String::from("abc")),
        Err(unknown("abc"))
    );
}

#[test]
fn error_messages_name_the_text() {
    assert_eq!(unknown("invalid").message(), "Unknown unit: invalid");
    assert_eq!(invalid("--5").message(), "Invalid value: --5");
}

#[test]
fn parse_reads_exponents() {
    assert_eq!(parse_frequency("1e3 GHz").unwrap().as_hz(), 1_000_000_000_000);
    assert_eq!(parse_frequency("1E3ghz").unwrap().as_hz(), 1_000_000_000_000);
    assert_eq!(parse_frequency("2.5e-3 khz").unwrap().as_hz(), 3);
    assert_eq!(parse_frequency("25e+1 hz").unwrap().as_hz(), 250);
    assert_eq!(parse_frequency(".5e1 hz").unwrap().as_hz(), 5);
    assert_eq!(parse_frequency("1e-10 ghz").unwrap().as_hz(), 0);
    assert_eq!(
        parse_frequency("1e99999999999999999999999999999999999999 hz").unwrap().as_hz(),
        u64::MAX
    );
    assert_eq!(
        parse_frequency("7e-99999999999999999999999999999999999999 ghz").unwrap().as_hz(),
        0
    );
    assert_eq!(parse_frequency("0e999999 hz").unwrap().as_hz(), 0);
}

#[test]
fn parse_refuses_malformed_exponents_and_negative_words() {
    assert_eq!(parse_frequency("1e hz"), Err(invalid("1e ")));
    assert_eq!(parse_frequency("1e+ hz"), Err(invalid("1e+ ")));
    assert_eq!(parse_frequency("e5 hz"), Err(invalid("e5 ")));
    assert_eq!(parse_frequency("infin hz"), Err(invalid("infin ")));
    assert_eq!(parse_frequency("-inf hz"), Err(invalid("-inf ")));
    assert_eq!(parse_frequency("-nan hz"), Err(invalid("-nan ")));
}

#[test]
fn parse_reads_infinity_and_nan_words() {
    assert_eq!(parse_frequency("inf hz").unwrap().as_hz(), u64::MAX);
    assert_eq!(parse_frequency("Infinity GHz").unwrap().as_hz(), u64::MAX);
    assert_eq!(parse_frequency("+INF khz").unwrap().as_hz(), u64::MAX);
    assert_eq!(parse_frequency("nan hz").unwrap().as_hz(), 0);
    assert_eq!(parse_frequency("NaN MHz").unwrap().as_hz(), 0);
}
