use file_sharing::stamp::{
    Stamp, FIRST_PRINTABLE_SECOND, FIRST_SECOND, LAST_PRINTABLE_SECOND, LAST_SECOND,
};

fn at(seconds: i64, nanos: u32) -> Stamp {
    Stamp::new(seconds, nanos, 0).unwrap()
}

#[test]
fn stamp_keeps_its_parts() {
    let stamp = Stamp::new(1_700_000_000, 123_456_789, -18_000).unwrap();
    assert_eq!(stamp.parts(), (1_700_000_000, 123_456_789, -18_000));
}

#[test]
fn numbers_out_of_range_are_no_stamp() {
    assert!(Stamp::new(LAST_SECOND, 999_999_999, 86_399).is_some());
    assert!(Stamp::new(FIRST_SECOND, 0, -86_399).is_some());
    assert!(Stamp::new(LAST_SECOND + 1, 0, 0).is_none());
    assert!(Stamp::new(FIRST_SECOND - 1, 0, 0).is_none());
    assert!(Stamp::new(0, 1_000_000_000, 0).is_none());
    assert!(Stamp::new(0, 0, 86_400).is_none());
    assert!(Stamp::new(0, 0, -86_400).is_none());
}

#[test]
fn leap_second_ends_a_minute() {
    assert!(Stamp::new(59, 1_999_999_999, 0).is_some());
    assert!(Stamp::new(-1, 1_000_000_000, 0).is_some());
    assert!(Stamp::new(59, 2_000_000_000, 0).is_none());
    assert!(Stamp::new(58, 1_000_000_000, 0).is_none());
    assert!(Stamp::new(-2, 1_000_000_000, 0).is_none());
    for seconds in -200..200 {
        for nanos in [999_999_999, 1_000_000_000, 1_999_999_999, 2_000_000_000] {
            assert_eq!(
                Stamp::new(seconds, nanos, 0).is_some(),
                chrono::DateTime::from_timestamp(seconds, nanos).is_some()
            );
        }
    }
    assert_eq!(
        Stamp::new(59, 1_500_000_000, 0).unwrap().to_rfc2822(),
        "Thu, 1 Jan 1970 00:00:60 +0000"
    );
}

#[test]
fn leap_second_counts_by_the_time_of_day() {
    let leap = at(59, 1_500_000_000);
    assert_eq!(leap.elapsed_since(&at(59, 0)), 1);
    assert_eq!(at(60, 600_000_000).elapsed_since(&leap), 1);
    assert_eq!(leap.elapsed_since(&at(60, 600_000_000)), -1);
    assert_eq!(at(86_399, 900_000_000).elapsed_since(&leap), 86_340);
    assert_eq!(at(86_400, 0).elapsed_since(&leap), 86_339);
    assert_eq!(at(100 + 86_400, 0).elapsed_since(&leap), 86_440);
    assert_eq!(at(86_459, 1_000_000_000).elapsed_since(&at(100, 0)), 86_359);
}

#[test]
fn range_of_seconds_is_that_of_the_calendar() {
    assert!(chrono::DateTime::from_timestamp(FIRST_SECOND, 0).is_some());
    assert!(chrono::DateTime::from_timestamp(FIRST_SECOND - 1, 0).is_none());
    assert!(chrono::DateTime::from_timestamp(LAST_SECOND, 999_999_999).is_some());
    assert!(chrono::DateTime::from_timestamp(LAST_SECOND + 1, 0).is_none());
}

#[test]
fn elapsed_seconds_are_cut_towards_zero() {
    assert_eq!(at(10, 0).elapsed_since(&at(0, 0)), 10);
    assert_eq!(at(10, 0).elapsed_since(&at(0, 1)), 9);
    assert_eq!(at(10, 5).elapsed_since(&at(0, 5)), 10);
    assert_eq!(at(0, 1).elapsed_since(&at(10, 0)), -9);
    assert_eq!(at(0, 0).elapsed_since(&at(0, 999_999_999)), 0);
    assert_eq!(at(-5, 500_000_000).elapsed_since(&at(-7, 0)), 2);
    assert_eq!(
        at(LAST_SECOND, 0).elapsed_since(&at(FIRST_SECOND, 0)),
        16_544_868_105_599
    );
}

#[test]
fn offsets_do_not_count_as_time() {
    let here = Stamp::new(100, 0, 7_200).unwrap();
    let there = Stamp::new(40, 0, -3_600).unwrap();
    assert_eq!(here.elapsed_since(&there), 60);
}

#[test]
fn exchanging_stamps_turns_the_sign() {
    for (a, b) in [
        (at(10, 0), at(3, 999_999_999)),
        (at(-4, 2), at(9, 1)),
        (at(0, 0), at(0, 0)),
    ] {
        assert_eq!(a.elapsed_since(&b), -b.elapsed_since(&a));
    }
}

#[test]
fn later_stamps_are_further_from_the_start() {
    let start = at(5, 500_000_000);
    let stamps = [at(0, 0), at(4, 600_000_000), at(6, 0), at(6, 500_000_000)];
    let elapsed: Vec<i64> = stamps.iter().map(|s| s.elapsed_since(&start)).collect();
    assert_eq!(elapsed, vec![-5, 0, 0, 1]);
}

#[test]
fn stamp_is_printed_in_its_local_time() {
    let text = |seconds, nanos, offset| Stamp::new(seconds, nanos, offset).unwrap().to_rfc2822();
    assert_eq!(text(0, 0, 0), "Thu, 1 Jan 1970 00:00:00 +0000");
    assert_eq!(text(951_782_400, 0, 3_600), "Tue, 29 Feb 2000 01:00:00 +0100");
    assert_eq!(
        text(1_700_000_000, 999_999_999, -18_000),
        "Tue, 14 Nov 2023 17:13:20 -0500"
    );
    assert_eq!(text(LAST_PRINTABLE_SECOND, 0, 0), "Fri, 31 Dec 9999 23:59:59 +0000");
    assert_eq!(text(FIRST_PRINTABLE_SECOND, 0, 0), "Sat, 1 Jan 0000 00:00:00 +0000");
}

#[test]
fn only_four_digit_years_are_printable() {
    let printable = |seconds, offset| Stamp::new(seconds, 0, offset).unwrap().is_printable();
    assert!(printable(LAST_PRINTABLE_SECOND, 0));
    assert!(!printable(LAST_PRINTABLE_SECOND + 1, 0));
    assert!(printable(LAST_PRINTABLE_SECOND + 1, -1));
    assert!(!printable(LAST_PRINTABLE_SECOND, 1));
    assert!(printable(FIRST_PRINTABLE_SECOND, 0));
    assert!(!printable(FIRST_PRINTABLE_SECOND - 1, 0));
    assert!(printable(FIRST_PRINTABLE_SECOND - 60, 60));
}

#[test]
fn current_time_is_that_of_the_clock() {
    let before = chrono::Local::now().timestamp();
    let (seconds, nanos, offset) = Stamp::now().parts();
    let after = chrono::Local::now().timestamp();
    assert!(before <= seconds && seconds <= after);
    assert!(nanos < 1_000_000_000);
    assert!(-86_400 < offset && offset < 86_400);
}
