use pfx2as::startup::{midnight_of, output_path, parse_timestamp_arg, resolve, StartupError};

fn args(list: &[&str]) -> Vec<String> {
    list.iter().map(|s| s.to_string()).collect()
}

#[test]
fn a_date_gives_path_and_midnight() {
    let (path, ts) = parse_timestamp_arg(&args(&["prog", "2020-01-01"])).unwrap();
    assert_eq!(path, "./output/2020-01/pfx2as_2020-01-01.bz2");
    assert_eq!(ts, 1_577_836_800);
}

#[test]
fn an_early_archive_date() {
    let (path, ts) = parse_timestamp_arg(&args(&["prog", "2008-07-07"])).unwrap();
    assert_eq!(path, "./output/2008-07/pfx2as_2008-07-07.bz2");
    assert_eq!(ts, 1_215_388_800);
}

#[test]
fn the_epoch_is_zero() {
    let (_, ts) = parse_timestamp_arg(&args(&["prog", "1970-01-01"])).unwrap();
    assert_eq!(ts, 0);
}

#[test]
fn a_leap_day_is_a_date() {
    let (_, ts) = parse_timestamp_arg(&args(&["prog", "2024-02-29"])).unwrap();
    assert_eq!(ts, 1_709_164_800);
    assert!(matches!(
        parse_timestamp_arg(&args(&["prog", "2023-02-29"])),
        Err(StartupError::DateFormat)
    ));
}

#[test]
fn no_argument_is_refused() {
    assert!(matches!(
        parse_timestamp_arg(&args(&["prog"])),
        Err(StartupError::ArgumentCount { given: 0 })
    ));
    assert!(matches!(
        parse_timestamp_arg(&args(&[])),
        Err(StartupError::ArgumentCount { given: 0 })
    ));
}

#[test]
fn extra_arguments_are_refused() {
    assert!(matches!(
        parse_timestamp_arg(&args(&["prog", "2020-01-01", "2020-01-02"])),
        Err(StartupError::ArgumentCount { given: 2 })
    ));
}

#[test]
fn what_is_no_date_is_refused() {
    for bad in ["", "today", "2020-1-1", "2020-13-01", "2020-01-32", "20200101", "2020/01/01",
        "2020-01-01T00:00:00Z", " 2020-01-01", "2020-01-01 ", "2020-01-0\u{661}"]
    {
        assert!(
            matches!(parse_timestamp_arg(&args(&["prog", bad])), Err(StartupError::DateFormat)),
            "{:?}",
            bad
        );
    }
}

#[test]
fn midnight_is_the_date_with_time_and_offset() {
    assert_eq!(midnight_of("2020-01-01"), "2020-01-01T00:00:00-00:00");
    assert_eq!(midnight_of(""), "T00:00:00-00:00");
}

#[test]
fn the_path_names_month_and_day() {
    assert_eq!(output_path("2021-12-31"), "./output/2021-12/pfx2as_2021-12-31.bz2");
    assert_eq!(output_path("1999-01"), "./output/1999-01/pfx2as_1999-01.bz2");
}

#[test]
fn resolve_needs_a_parsed_midnight_and_a_month() {
    let (path, ts) = resolve("2020-01-01", Some(5)).unwrap();
    assert_eq!(path, "./output/2020-01/pfx2as_2020-01-01.bz2");
    assert_eq!(ts, 5);
    assert!(matches!(resolve("2020-01-01", None), Err(StartupError::DateFormat)));
    assert!(matches!(resolve("2020", Some(5)), Err(StartupError::DateFormat)));
    assert!(matches!(resolve("2020-0\u{e9}-01", Some(5)), Err(StartupError::DateFormat)));
}

#[test]
fn the_staging_path_lies_beside_the_artifact() {
    assert_eq!(
        pfx2as::startup::staging_path("2021-12-31"),
        "./output/2021-12/pfx2as_2021-12-31.part.bz2"
    );
}

#[test]
fn messages_say_what_was_expected() {
    assert_eq!(
        StartupError::ArgumentCount { given: 0 }.message(),
        "Expected exactly one argument, got 0"
    );
    assert_eq!(
        StartupError::ArgumentCount { given: 12 }.message(),
        "Expected exactly one argument, got 12"
    );
    assert_eq!(StartupError::DateFormat.message(), "Expected date format to be yyyy-mm-dd");
}

#[test]
fn errors_compare_by_value() {
    assert_eq!(
        parse_timestamp_arg(&args(&["prog", "a", "b", "c"])),
        Err(StartupError::ArgumentCount { given: 3 })
    );
    assert_eq!(parse_timestamp_arg(&args(&["prog", "x"])), Err(StartupError::DateFormat));
}
