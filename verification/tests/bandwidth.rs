use file_sharing::bandwidth::{
    bandwidth_at, bandwidth_over, calculate_bandwidth_from_date_and_bytes, Bandwidth,
};
use file_sharing::stamp::Stamp;

/// The unit and the figure of a rate, computed in single precision.
fn in_single_precision(rate: usize) -> (&'static str, f32) {
    let kbytes = rate as f32 / 1024.;
    let mbytes = kbytes / 1024.;
    let mbits = mbytes * 8.;
    if mbits > 1024. {
        ("GBPS", mbytes / 1024. * 8.)
    } else if mbits < 1. {
        ("KBPS", kbytes * 8.)
    } else {
        ("MBPS", mbits)
    }
}

fn unit(bandwidth: Bandwidth) -> &'static str {
    match bandwidth {
        Bandwidth::GBPS(_) => "GBPS",
        Bandwidth::MBPS(_) => "MBPS",
        Bandwidth::KBPS(_) => "KBPS",
    }
}

#[test]
fn bytes_are_spread_over_the_seconds() {
    assert_eq!(bandwidth_over(1_000_000, 10), Bandwidth::KBPS(100_000));
    assert_eq!(bandwidth_over(10_000_000, 10), Bandwidth::MBPS(1_000_000));
    assert_eq!(bandwidth_over(10_000_000_009, 10), Bandwidth::GBPS(1_000_000_000));
    assert_eq!(bandwidth_over(999, 1_000), Bandwidth::KBPS(0));
}

#[test]
fn first_second_counts_as_a_whole_one() {
    assert_eq!(bandwidth_over(200_000, 0), Bandwidth::MBPS(200_000));
    assert_eq!(bandwidth_over(200_000, 1), Bandwidth::MBPS(200_000));
}

#[test]
fn units_change_at_one_and_at_1024_megabits() {
    assert_eq!(bandwidth_over(131_071, 1), Bandwidth::KBPS(131_071));
    assert_eq!(bandwidth_over(131_072, 1), Bandwidth::MBPS(131_072));
    assert_eq!(bandwidth_over(134_217_728, 1), Bandwidth::MBPS(134_217_728));
    assert_eq!(bandwidth_over(134_217_736, 1), Bandwidth::MBPS(134_217_736));
    assert_eq!(bandwidth_over(134_217_737, 1), Bandwidth::GBPS(134_217_737));
}

#[test]
fn unit_is_that_of_single_precision() {
    let mut rates: Vec<usize> = vec![0, 1, usize::MAX, usize::MAX - 1];
    for around in [131_072usize, 16_777_216, 134_217_728, 268_435_456, 1 << 40] {
        rates.extend(around - 40..around + 40);
    }
    let mut rate: usize = 3;
    while rate < usize::MAX / 5 {
        rates.push(rate);
        rate = rate * 4 + 1;
    }
    for rate in rates {
        assert_eq!(unit(bandwidth_over(rate, 1)), in_single_precision(rate).0, "{rate}");
    }
}

#[test]
fn higher_rates_have_no_smaller_units() {
    let rank = |rate| match bandwidth_over(rate, 1) {
        Bandwidth::KBPS(_) => 0,
        Bandwidth::MBPS(_) => 1,
        Bandwidth::GBPS(_) => 2,
    };
    let ranks: Vec<i32> = [0, 131_071, 131_072, 134_217_736, 134_217_737, usize::MAX]
        .into_iter()
        .map(rank)
        .collect();
    assert_eq!(ranks, vec![0, 0, 1, 1, 2, 2]);
}

#[test]
fn clock_that_was_set_back_leaves_no_rate() {
    assert_eq!(bandwidth_over(1_000_000_000, -1), Bandwidth::KBPS(0));
    assert_eq!(bandwidth_over(1_000_000_000, i64::MIN), Bandwidth::KBPS(0));
    assert_eq!(bandwidth_over(usize::MAX, -1), Bandwidth::KBPS(1));
}

#[test]
fn bandwidth_counts_from_the_start_of_the_download() {
    let start = Stamp::new(1_000, 500_000_000, 3_600).unwrap();
    let now = Stamp::new(1_005, 400_000_000, 0).unwrap();
    assert_eq!(bandwidth_at(4_000_000, start, now), Bandwidth::MBPS(1_000_000));
    assert_eq!(bandwidth_at(4_000_000, start, start), Bandwidth::MBPS(4_000_000));
}

#[test]
fn bandwidth_counts_up_to_the_current_time() {
    let (seconds, nanos, offset) = Stamp::now().parts();
    let long_ago = Stamp::new(seconds - 1_000_000, nanos, offset).unwrap();
    match calculate_bandwidth_from_date_and_bytes(1_000_000_000_000, long_ago) {
        Bandwidth::MBPS(rate) => assert!(999_900 <= rate && rate <= 1_000_000),
        other => panic!("{other:?}"),
    }
}

#[test]
fn higher_rates_are_no_smaller_numbers() {
    let single = |rate: usize| match bandwidth_over(rate, 1) {
        Bandwidth::GBPS(rate) | Bandwidth::MBPS(rate) | Bandwidth::KBPS(rate) => rate as f32,
    };
    for around in [131_072usize, 16_777_216, 33_554_432, 134_217_728, 1 << 40] {
        for rate in around - 40..around + 40 {
            assert!(single(rate) <= single(rate + 1));
        }
    }
}
