use parse_frequency::{Frequency, GIGAHERTZ, KILOHERTZ, MEGAHERTZ};

#[test]
fn constructors_multiply_by_the_unit() {
    assert_eq!(Frequency::from_hz(5).as_hz(), 5);
    assert_eq!(Frequency::from_khz(5).as_hz(), 5 * KILOHERTZ);
    assert_eq!(Frequency::from_mhz(5).as_hz(), 5 * MEGAHERTZ);
    assert_eq!(Frequency::from_ghz(5).as_hz(), 5 * GIGAHERTZ);
    assert_eq!(Frequency::from_ghz(1).as_hz(), 1_000_000_000);
    assert_eq!(Frequency::from_mhz(1500).as_ghz(), 1);
}

#[test]
fn accessors_truncate() {
    let f = Frequency::from_hz(1_999_999_999);
    assert_eq!(f.as_khz(), 1_999_999);
    assert_eq!(f.as_mhz(), 1_999);
    assert_eq!(f.as_ghz(), 1);
}

#[test]
fn operators_work_on_hertz_counts() {
    assert_eq!(
        Frequency::from_mhz(1000) + Frequency::from_mhz(500),
        Frequency::from_mhz(1500)
    );
    assert_eq!(Frequency::from_hz(7) * 3, Frequency::from_hz(21));
    assert_eq!(Frequency::from_hz(7) / 2, Frequency::from_hz(3));
    assert_eq!(Frequency::from_hz(7) * Frequency::from_hz(3), Frequency::from_hz(21));
    assert_eq!(Frequency::from_hz(7) / Frequency::from_hz(3), Frequency::from_hz(2));
    assert_eq!(Frequency::from_hz(7) % Frequency::from_hz(3), Frequency::from_hz(1));
}

#[test]
fn identities() {
    assert_eq!(Frequency::zero(), Frequency::from_hz(0));
    assert_eq!(Frequency::one(), Frequency::from_hz(1));
    assert!(Frequency::zero().is_zero());
    assert!(!Frequency::one().is_zero());
}

#[test]
fn period_in_nanoseconds() {
    assert_eq!(Frequency::from_ghz(1).period_nanos(), 1);
    assert_eq!(Frequency::from_mhz(1).period_nanos(), 1_000);
    assert_eq!(Frequency::from_hz(0).period_nanos(), 0);
    assert_eq!(Frequency::from_hz(1).period_nanos(), 1_000_000_000);
    assert_eq!(Frequency::from_hz(3).period_nanos(), 333_333_333);
    assert_eq!(Frequency::from_mhz(999).period_nanos(), 1);
    assert_eq!(Frequency::from_mhz(400).period_nanos(), 2);
    assert_eq!(Frequency::from_ghz(3).period_nanos(), 0);
    assert_eq!(Frequency::from_hz(u64::MAX).period_nanos(), 0);
}

#[test]
fn durations_agree_with_the_period() {
    let f = Frequency::from_mhz(3);
    assert_eq!(f.as_duration().as_nanos(), 333);
    assert_eq!(f.as_chrono_duration().num_nanoseconds(), Some(333));
    assert_eq!(f.as_time_duration().whole_nanoseconds(), 333);
    assert_eq!(Frequency::from_ghz(1).as_chrono_duration().num_nanoseconds(), Some(1));
    assert_eq!(Frequency::from_mhz(1).as_chrono_duration().num_nanoseconds(), Some(1_000));
    assert_eq!(Frequency::from_ghz(1).as_time_duration().whole_nanoseconds(), 1);
    assert_eq!(Frequency::from_hz(0).as_time_duration().whole_nanoseconds(), 0);
}

#[test]
fn display_picks_the_largest_unit() {
    assert_eq!(Frequency::from_hz(42).to_string(), "42 Hz");
    assert_eq!(Frequency::from_hz(0).to_string(), "0 Hz");
    assert_eq!(Frequency::from_hz(999).to_string(), "999 Hz");
    assert_eq!(Frequency::from_hz(1000).to_string(), "1.00 kHz");
    assert_eq!(
        (Frequency::from_ghz(2) + Frequency::from_mhz(250)).to_string(),
        "2.25 GHz"
    );
    assert_eq!(Frequency::from_mhz(100).to_string(), "100.00 MHz");
    assert_eq!(Frequency::from_mhz(1340).to_string(), "1.34 GHz");
}

#[test]
fn display_rounds_to_hundredths() {
    assert_eq!(Frequency::from_hz(1_234).to_string(), "1.23 kHz");
    assert_eq!(Frequency::from_hz(1_235).to_string(), "1.24 kHz");
    assert_eq!(Frequency::from_hz(999_999).to_string(), "1000.00 kHz");
    assert_eq!(Frequency::from_hz(u64::MAX).to_string(), "18446744073.71 GHz");
}

#[test]
fn display_then_parse_is_close() {
    let f = Frequency::from_hz(1_234_567);
    let back: Frequency = f.to_string().parse().unwrap();
    assert_eq!(back, Frequency::from_hz(1_230_000));
    let exact = Frequency::from_mhz(100);
    assert_eq!(exact.to_string(), "100.00 MHz");
    assert_eq!("100.00 MHz".parse::<Frequency>().unwrap(), exact);
}

#[test]
fn from_str_radix_reads_a_bare_count() {
    assert_eq!(Frequency::from_str_radix("440", 10).unwrap(), Frequency::from_hz(440));
    assert_eq!(Frequency::from_str_radix("+7", 16).unwrap(), Frequency::from_hz(7));
    assert!(Frequency::from_str_radix("440 Hz", 10).is_err());
    assert!(Frequency::from_str_radix("", 10).is_err());
    assert!(Frequency::from_str_radix("-1", 10).is_err());
    assert!(Frequency::from_str_radix("18446744073709551616", 10).is_err());
    assert_eq!(
        Frequency::from_str_radix("18446744073709551615", 10).unwrap(),
        Frequency::from_hz(u64::MAX)
    );
}
