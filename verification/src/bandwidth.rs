//! How fast a download is, and the unit in which to say so.

use crate::stamp::Stamp;
use vstd::prelude::*;

verus! {

/// The rate of a download in bytes per second, under the unit that suits it.
///
/// The figure that goes with the unit is the rate as a single-precision number, times eight bits,
/// over as many powers of 1024 as the unit stands for.
#[derive(Clone, Copy, Debug, PartialEq, Eq, Structural)]
pub enum Bandwidth {
    GBPS(usize),
    MBPS(usize),
    KBPS(usize),
}

/// How far apart the single-precision numbers around a whole number lie, where that is more
/// than one: they have 24 significant bits.
pub open spec fn single_spacing(n: nat) -> nat
    decreases n,
{
    if n < 0x100_0000 {
        1
    } else {
        2 * single_spacing(n / 2)
    }
}

/// The single-precision number that is closest to a whole number; of two, the even one.
pub open spec fn to_single(n: nat) -> nat {
    let spacing = single_spacing(n);
    let below = (n / spacing) * spacing;
    let rest = n % spacing;
    if 2 * rest < spacing || (2 * rest == spacing && (n / spacing) % 2 == 0) {
        below
    } else {
        below + spacing
    }
}

/// The seconds that a number of bytes is spread over: those that have passed, read as an unsigned
/// number, and at least one.
pub open spec fn spread_over(seconds: i64) -> usize {
    let unsigned = #[verifier::truncate] (seconds as usize);
    if unsigned < 1 {
        1
    } else {
        unsigned
    }
}

/// A rate under its unit: gigabits above 1024 megabits per second, kilobits below one megabit
/// per second, and megabits between the two. A rate is compared as a single-precision number.
pub open spec fn in_unit(rate: usize) -> Bandwidth {
    // One megabit per second is 2^17 bytes per second.
    if to_single(rate as nat) > 1024 * 0x2_0000 {
        Bandwidth::GBPS(rate)
    } else if to_single(rate as nat) < 0x2_0000 {
        Bandwidth::KBPS(rate)
    } else {
        Bandwidth::MBPS(rate)
    }
}

/// The number of bytes per second that a bandwidth tells, under whichever unit.
pub open spec fn carried(bandwidth: Bandwidth) -> usize {
    match bandwidth {
        Bandwidth::GBPS(rate) => rate,
        Bandwidth::MBPS(rate) => rate,
        Bandwidth::KBPS(rate) => rate,
    }
}

/// The bandwidth of `bytes` that have come in since `start`, at the time `now`.
pub open spec fn bandwidth_between(bytes: usize, start: Stamp, now: Stamp) -> Bandwidth {
    in_unit(bytes / spread_over(now.seconds_after(start) as i64))
}

proof fn lemma_spacing_bounds(n: nat)
    requires
        n >= 0x100_0000,
    ensures
        0x80_0000 * single_spacing(n) <= n,
        single_spacing(n) >= 2,
    decreases n,
{
    if n / 2 >= 0x100_0000 {
        lemma_spacing_bounds(n / 2);
    } else {
        assert(single_spacing(n / 2) == 1);
    }
}

proof fn lemma_spacing_is_tight(n: nat)
    ensures
        single_spacing(n) >= 1,
        n < 0x100_0000 * single_spacing(n),
        single_spacing(n) == 1 || 0x80_0000 * single_spacing(n) <= n,
    decreases n,
{
    if n >= 0x100_0000 {
        lemma_spacing_is_tight(n / 2);
        lemma_spacing_bounds(n);
    }
}

proof fn lemma_spacing_grows(a: nat, b: nat)
    requires
        a <= b,
    ensures
        single_spacing(a) == single_spacing(b) || 2 * single_spacing(a) <= single_spacing(b),
    decreases b,
{
    if b >= 0x100_0000 {
        lemma_spacing_bounds(b);
        if a >= 0x100_0000 {
            lemma_spacing_grows(a / 2, b / 2);
        }
    }
}

/// A number lies between two multiples of the spacing around it, and is rounded to one of them; both
/// lie between `2^23` and `2^24` spacings, but for the lower bound where the spacing is one.
proof fn lemma_single_bounds(n: nat)
    ensures
        ({
            let spacing = single_spacing(n);
            let below = (n / spacing) * spacing;
            &&& spacing >= 1
            &&& below + n % spacing == n
            &&& n % spacing < spacing
            &&& to_single(n) == below || to_single(n) == below + spacing
            &&& to_single(n) <= 0x100_0000 * spacing
            &&& spacing == 1 || 0x80_0000 * spacing <= to_single(n)
        }),
{
    lemma_spacing_is_tight(n);
    let spacing = single_spacing(n);
    let quotient = n / spacing;
    assert(quotient * spacing + n % spacing == n && n % spacing < spacing) by (nonlinear_arith)
        requires
            spacing >= 1,
            quotient == n / spacing,
    ;
    assert(quotient < 0x100_0000) by (nonlinear_arith)
        requires
            quotient * spacing <= n,
            n < 0x100_0000 * spacing,
    ;
    assert(quotient * spacing + spacing <= 0x100_0000 * spacing) by (nonlinear_arith)
        requires
            quotient < 0x100_0000,
    ;
    if spacing > 1 {
        assert(0x80_0000 <= quotient) by (nonlinear_arith)
            requires
                0x80_0000 * spacing <= n,
                n < quotient * spacing + spacing,
        ;
        assert(0x80_0000 * spacing <= quotient * spacing) by (nonlinear_arith)
            requires
                0x80_0000 <= quotient,
        ;
    }
}

/// Rounding to single precision keeps the order of numbers.
pub proof fn lemma_single_is_monotone(a: nat, b: nat)
    requires
        a <= b,
    ensures
        to_single(a) <= to_single(b),
{
    lemma_single_bounds(a);
    lemma_single_bounds(b);
    lemma_spacing_grows(a, b);
    let spacing = single_spacing(a);
    if spacing == single_spacing(b) {
        let low = a / spacing;
        let high = b / spacing;
        assert(low <= high) by (nonlinear_arith)
            requires
                a <= b,
                spacing >= 1,
                low == a / spacing,
                high == b / spacing,
        ;
        if low < high {
            assert(low * spacing + spacing <= high * spacing) by (nonlinear_arith)
                requires
                    low < high,
            ;
        }
    }
}

/// A number reaches `2^17` and exceeds `2^27` as a single exactly where the number itself does
/// the first, and exceeds `2^27` by more than half the distance to the next single.
proof fn lemma_single_thresholds(n: nat)
    ensures
        to_single(n) < 0x2_0000 <==> n < 0x2_0000,
        to_single(n) > 0x800_0000 <==> n > 0x800_0008,
{
    let spacing = single_spacing(n);
    if n < 0x100_0000 {
        assert(spacing == 1);
        assert((n / spacing) * spacing == n && n % spacing == 0) by (nonlinear_arith)
            requires
                spacing == 1,
        ;
    } else if n < 0x1000_0000 {
        reveal_with_fuel(single_spacing, 6);
        if n < 0x200_0000 {
            assert(spacing == 2);
            assert((n / spacing) * spacing == (n / 2) * 2 && n % spacing == n % 2);
        } else if n < 0x400_0000 {
            assert(spacing == 4);
            assert((n / spacing) * spacing == (n / 4) * 4 && n % spacing == n % 4);
        } else if n < 0x800_0000 {
            assert(spacing == 8);
            assert((n / spacing) * spacing == (n / 8) * 8 && n % spacing == n % 8);
        } else {
            assert(spacing == 16);
            assert((n / spacing) * spacing == (n / 16) * 16 && n % spacing == n % 16);
        }
    } else {
        lemma_spacing_bounds(n);
        assert((n / spacing) * spacing + n % spacing == n && n % spacing < spacing)
            by (nonlinear_arith)
            requires
                spacing >= 2,
        ;
    }
}

/// The bandwidth of `bytes` that came in over `seconds`.
pub fn bandwidth_over(bytes: usize, seconds: i64) -> (bandwidth: Bandwidth)
    ensures
        bandwidth == in_unit(bytes / spread_over(seconds)),
        1 <= seconds <= usize::MAX ==> carried(bandwidth) == bytes as int / seconds as int,
        seconds == 0 ==> carried(bandwidth) == bytes,
        bandwidth is KBPS <==> carried(bandwidth) < 131_072,
        bandwidth is GBPS <==> carried(bandwidth) > 134_217_736,
{
    let unsigned: usize = #[verifier::truncate] (seconds as usize);
    let spread: usize = if unsigned < 1 { 1 } else { unsigned };
    let rate: usize = bytes / spread;
    proof {
        lemma_single_thresholds(rate as nat);
    }
    if rate > 0x800_0008 {
        Bandwidth::GBPS(rate)
    } else if rate < 0x2_0000 {
        Bandwidth::KBPS(rate)
    } else {
        Bandwidth::MBPS(rate)
    }
}

/// The bandwidth of `bytes` that have come in since `date`, at the time `now`.
pub fn bandwidth_at(bytes: usize, date: Stamp, now: Stamp) -> (bandwidth: Bandwidth)
    ensures
        bandwidth == bandwidth_between(bytes, date, now),
        1 <= now.seconds_after(date) <= usize::MAX ==> carried(bandwidth) == bytes as int
            / now.seconds_after(date),
        now.seconds_after(date) == 0 ==> carried(bandwidth) == bytes,
        bandwidth is KBPS <==> carried(bandwidth) < 131_072,
        bandwidth is GBPS <==> carried(bandwidth) > 134_217_736,
{
    bandwidth_over(bytes, now.elapsed_since(&date))
}

/// The bandwidth of `bytes` that have come in since `date`, until the current time.
pub fn calculate_bandwidth_from_date_and_bytes(bytes: usize, date: Stamp) -> (bandwidth: Bandwidth)
    ensures
        exists|now: Stamp|
            now.can_be_now() && bandwidth == #[trigger] bandwidth_between(bytes, date, now),
        bandwidth is KBPS <==> carried(bandwidth) < 131_072,
        bandwidth is GBPS <==> carried(bandwidth) > 134_217_736,
{
    let now = Stamp::now();
    bandwidth_at(bytes, date, now)
}

/// The size of a unit: kilobits, megabits and gigabits, in this order.
pub open spec fn unit_rank(bandwidth: Bandwidth) -> nat {
    match bandwidth {
        Bandwidth::KBPS(_) => 0,
        Bandwidth::MBPS(_) => 1,
        Bandwidth::GBPS(_) => 2,
    }
}

/// A higher rate is never told in a smaller unit, nor as a smaller number.
pub proof fn lemma_units_grow_with_the_rate(slow: usize, fast: usize)
    requires
        slow <= fast,
    ensures
        unit_rank(in_unit(slow)) <= unit_rank(in_unit(fast)),
        to_single(slow as nat) <= to_single(fast as nat),
{
    lemma_single_is_monotone(slow as nat, fast as nat);
    lemma_single_thresholds(slow as nat);
    lemma_single_thresholds(fast as nat);
}

/// In the first second, and for a start that is the current time, the rate is what has come in.
pub proof fn lemma_rate_in_the_first_second(bytes: usize)
    ensures
        bytes / spread_over(0) == bytes,
        bytes / spread_over(1) == bytes,
{
    assert(bytes / 1usize == bytes) by (nonlinear_arith);
}

/// Where time has passed, as many seconds of it as a `usize` can hold, the bytes are spread over
/// those seconds.
pub proof fn lemma_rate_is_bytes_over_seconds(bytes: usize, seconds: i64)
    requires
        1 <= seconds <= usize::MAX,
    ensures
        bytes / spread_over(seconds) == bytes as int / seconds as int,
{
}

/// Where the clock was set back since the start, by as many seconds as an `isize` can hold, the
/// bytes are spread over more seconds than that: nothing is left of the rate.
pub proof fn lemma_rate_after_clock_was_set_back(bytes: usize, seconds: i64)
    requires
        isize::MIN <= seconds < 0,
    ensures
        spread_over(seconds) > isize::MAX,
        bytes <= isize::MAX ==> bytes / spread_over(seconds) == 0,
        spread_over(seconds) == usize::MAX + 1 + seconds,
        carried(in_unit(bytes / spread_over(seconds))) == bytes as int / (usize::MAX + 1 + seconds),
{
    if usize::BITS == 32 {
        assert((seconds as usize) > 0x7fff_ffff && (seconds as usize) == 0x1_0000_0000 + seconds)
            by (bit_vector)
            requires
                -0x8000_0000i64 <= seconds,
                seconds < 0i64,
                usize::BITS == 32,
        ;
    } else {
        assert((seconds as usize) > 0x7fff_ffff_ffff_ffff && (seconds as usize)
            == 0x1_0000_0000_0000_0000 + seconds) by (bit_vector)
            requires
                seconds < 0i64,
                usize::BITS == 64,
        ;
    }
    let spread = spread_over(seconds);
    assert(bytes < spread ==> bytes / spread == 0) by (nonlinear_arith)
        requires
            spread > 0,
    ;
}

/// What a bandwidth tells, whatever its unit, is the rate itself: over the seconds in which the bytes
/// came in, that many bytes a second make up the bytes, but for a rest of less than one a second.
pub proof fn lemma_bandwidth_tells_the_rate(bytes: usize, seconds: i64)
    requires
        1 <= seconds <= usize::MAX,
    ensures
        ({
            let rate = carried(in_unit(bytes / spread_over(seconds)));
            &&& rate == bytes as int / seconds as int
            &&& rate * seconds <= bytes
            &&& bytes < rate * seconds + seconds
        }),
{
    let unsigned = seconds as usize;
    let rate = bytes / unsigned;
    assert(rate * unsigned <= bytes && bytes < rate * unsigned + unsigned) by (nonlinear_arith)
        requires
            unsigned >= 1,
            rate == bytes / unsigned,
    ;
}

/// The same of a download between two points in time.
pub proof fn lemma_bandwidth_between_tells_the_rate(bytes: usize, start: Stamp, now: Stamp)
    requires
        0 <= now.seconds_after(start) <= usize::MAX,
        now.seconds_after(start) <= i64::MAX,
    ensures
        now.seconds_after(start) >= 1 ==> carried(bandwidth_between(bytes, start, now))
            == bytes as int / now.seconds_after(start),
        now.seconds_after(start) == 0 ==> carried(bandwidth_between(bytes, start, now)) == bytes,
{
    if now.seconds_after(start) >= 1 {
        lemma_bandwidth_tells_the_rate(bytes, now.seconds_after(start) as i64);
    } else {
        lemma_rate_in_the_first_second(bytes);
    }
}

/// The unit follows from the number alone: kilobits where eight times the number is less than `2^20`
/// bits, gigabits where, as a single-precision number, it is more than `2^30` bits.
pub proof fn lemma_unit_follows_the_number(rate: usize)
    ensures
        carried(in_unit(rate)) == rate,
        in_unit(rate) is KBPS <==> 8 * rate < 0x10_0000,
        in_unit(rate) is GBPS <==> 8 * to_single(rate as nat) > 0x4000_0000,
        in_unit(rate) is GBPS <==> rate > 134_217_736,
{
    lemma_single_thresholds(rate as nat);
}

/// A number is rounded to one that is at most half a spacing away, and not at all below `2^24`.
pub proof fn lemma_single_is_close(n: nat)
    ensures
        2 * (to_single(n) - n) <= single_spacing(n),
        2 * (n - to_single(n)) <= single_spacing(n),
        n < 0x100_0000 ==> to_single(n) == n,
{
    lemma_single_bounds(n);
}

} // verus!
