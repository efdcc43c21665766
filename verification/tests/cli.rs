use devx::cli::{parse_bytes, parse_duration};

#[test]
fn parses_human_sizes() {
    assert_eq!(parse_bytes("1.5GB").unwrap(), 1_610_612_736);
    assert_eq!(parse_bytes("512MB").unwrap(), 536_870_912);
    assert!(parse_bytes("12watts").is_err());
}

#[test]
fn parses_human_durations() {
    assert_eq!(parse_duration("2d").unwrap(), 172_800);
    assert_eq!(parse_duration("1.5h").unwrap(), 5_400);
    assert!(parse_duration("10").is_err());
}

#[test]
fn whole_sizes_are_counted_in_units_of_1024() {
    assert_eq!(parse_bytes("3").unwrap(), 3);
    assert_eq!(parse_bytes("3b").unwrap(), 3);
    assert_eq!(parse_bytes("2KiB").unwrap(), 2048);
    assert_eq!(parse_bytes("2 kb").unwrap(), 2048);
    assert_eq!(parse_bytes("1t").unwrap(), 1_099_511_627_776);
    assert_eq!(parse_bytes("0.5k").unwrap(), 512);
    assert_eq!(parse_bytes("0.1KB").unwrap(), 102);
}

#[test]
fn size_errors_name_their_cause() {
    assert_eq!(parse_bytes("GB").unwrap_err(), "invalid size");
    assert_eq!(parse_bytes(".").unwrap_err(), "invalid size");
    assert_eq!(parse_bytes("1.2.3MB").unwrap_err(), "invalid size");
    assert_eq!(parse_bytes("5XB").unwrap_err(), "size unit must be B, KB, MB, GB, or TB");
    assert_eq!(parse_bytes("20000000TB").unwrap_err(), "size is out of range");
}

#[test]
fn durations_in_every_unit() {
    assert_eq!(parse_duration("45s").unwrap(), 45);
    assert_eq!(parse_duration("2m").unwrap(), 120);
    assert_eq!(parse_duration("2min").unwrap(), 120);
    assert_eq!(parse_duration("1w").unwrap(), 604_800);
    assert_eq!(parse_duration("1D").unwrap(), 86_400);
}

#[test]
fn duration_errors_name_their_cause() {
    assert_eq!(parse_duration("d").unwrap_err(), "invalid duration");
    assert_eq!(parse_duration("3y").unwrap_err(), "duration unit must be s, m, h, d, or w");
    assert_eq!(
        parse_duration("99999999999999999999999w").unwrap_err(),
        "duration is out of range"
    );
}
