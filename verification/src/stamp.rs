//! Points in time, with the offset of the local clock at which they were taken.

use vstd::prelude::*;

verus! {

/// The first second that a date of the calendar can fall on, counted from the Unix epoch.
pub const FIRST_SECOND: i64 = -8_334_601_228_800;

/// The last second that a date of the calendar can fall on, counted from the Unix epoch.
pub const LAST_SECOND: i64 = 8_210_266_876_799;

/// The first local second that an RFC 2822 date can name: the start of the year 0.
pub const FIRST_PRINTABLE_SECOND: i64 = -62_167_219_200;

/// The last local second that an RFC 2822 date can name: the end of the year 9999.
pub const LAST_PRINTABLE_SECOND: i64 = 253_402_300_799;

/// A point in time: whole seconds since the Unix epoch, the nanoseconds after them, and how many
/// seconds the local clock was ahead of UTC. A leap second counts as more nanoseconds after the last
/// second of a minute.
#[derive(Clone, Copy, Debug, PartialEq, Eq, Structural)]
pub struct Stamp {
    seconds: i64,
    nanos: u32,
    offset: i32,
}

/// Whether the three numbers name a point in time.
pub open spec fn is_point_in_time(seconds: int, nanos: int, offset: int) -> bool {
    &&& FIRST_SECOND <= seconds <= LAST_SECOND
    &&& 0 <= nanos
    &&& nanos < 1_000_000_000 || (nanos < 2_000_000_000 && is_last_of_minute(seconds))
    &&& -86_400 < offset < 86_400
}

/// Whether a second is the last one of a minute.
pub open spec fn is_last_of_minute(seconds: int) -> bool {
    seconds % 60 == 59
}

/// The second of its day that a second is.
pub open spec fn time_of_day(seconds: int) -> int {
    seconds % 86_400
}

/// The seconds to count between two points in time because one of them is in a leap second: one
/// more where the earlier one is and the later one comes after it in the day, one less where the
/// later one is and comes before the earlier one in the day.
pub open spec fn leap_seconds_between(later: (int, int), earlier: (int, int)) -> int {
    if time_of_day(later.0) > time_of_day(earlier.0) && earlier.1 >= 1_000_000_000 {
        1
    } else if time_of_day(later.0) < time_of_day(earlier.0) && later.1 >= 1_000_000_000 {
        -1
    } else {
        0
    }
}

/// The seconds from `earlier` to `later`, both in seconds and nanoseconds, without the fraction.
pub open spec fn whole_seconds(later: (int, int), earlier: (int, int)) -> int {
    let nanos = (later.0 - earlier.0 + leap_seconds_between(later, earlier)) * 1_000_000_000 + (
    later.1 - earlier.1);
    if nanos >= 0 {
        nanos / 1_000_000_000
    } else {
        -((-nanos) / 1_000_000_000)
    }
}

/// The text of the RFC 2822 date of a second and a nanosecond since the Unix epoch, at an offset
/// from UTC.
pub uninterp spec fn rfc2822_text(seconds: i64, nanos: u32, offset: i32) -> Seq<char>;

/// The current time, from `chrono::Local::now`: seconds since the Unix epoch, nanoseconds and the
/// offset of the local time zone. The clock is read anew by each call, so all that is claimed is
/// that the three numbers name a point in time that is not before the epoch and not in a leap
/// second: with a clock that is set to an earlier time, the call does not return.
#[verifier::external_body]
fn local_now() -> (now: (i64, u32, i32))
    ensures
        is_point_in_time(now.0 as int, now.1 as int, now.2 as int),
        now.0 >= 0,
        now.1 < 1_000_000_000,
{
    let now = chrono::Local::now();
    (now.timestamp(), now.timestamp_subsec_nanos(), now.offset().local_minus_utc())
}

/// The whole seconds between two points in time, from `chrono::DateTime::signed_duration_since`
/// and `chrono::TimeDelta::num_seconds`: the difference, of either sign, cut towards zero. A leap
/// second that one of them is in counts by the times of day alone.
#[verifier::external_body]
fn seconds_between(later: (i64, u32), earlier: (i64, u32)) -> (seconds: i64)
    requires
        is_point_in_time(later.0 as int, later.1 as int, 0),
        is_point_in_time(earlier.0 as int, earlier.1 as int, 0),
    ensures
        seconds == whole_seconds(
            (later.0 as int, later.1 as int),
            (earlier.0 as int, earlier.1 as int),
        ),
{
    let later = chrono::DateTime::from_timestamp(later.0, later.1).unwrap();
    let earlier = chrono::DateTime::from_timestamp(earlier.0, earlier.1).unwrap();
    later.signed_duration_since(earlier).num_seconds()
}

/// The RFC 2822 date of a point in time, from `chrono::DateTime::to_rfc2822`. The text depends on
/// the three numbers alone. The year has to lie between 0 and 9999 in local time.
#[verifier::external_body]
fn rfc2822(seconds: i64, nanos: u32, offset: i32) -> (text: String)
    requires
        is_point_in_time(seconds as int, nanos as int, offset as int),
        FIRST_PRINTABLE_SECOND <= seconds + offset <= LAST_PRINTABLE_SECOND,
    ensures
        text@ == rfc2822_text(seconds, nanos, offset),
{
    let utc = chrono::DateTime::from_timestamp(seconds, nanos).unwrap();
    utc.with_timezone(&chrono::FixedOffset::east_opt(offset).unwrap()).to_rfc2822()
}

impl Stamp {
    #[verifier::type_invariant]
    spec fn well_formed(self) -> bool {
        is_point_in_time(self.seconds as int, self.nanos as int, self.offset as int)
    }

    /// Whole seconds since the Unix epoch.
    pub closed spec fn seconds(self) -> i64 {
        self.seconds
    }

    /// Nanoseconds after the whole seconds.
    pub closed spec fn nanos(self) -> u32 {
        self.nanos
    }

    /// Seconds by which the local clock was ahead of UTC.
    pub closed spec fn offset(self) -> i32 {
        self.offset
    }

    /// Whether an RFC 2822 date can name the stamp in its local time.
    pub open spec fn printable(self) -> bool {
        FIRST_PRINTABLE_SECOND <= self.seconds() + self.offset() <= LAST_PRINTABLE_SECOND
    }

    /// Whether the stamp can be one of the current time: a point in time that is not before the
    /// Unix epoch and not in a leap second.
    pub open spec fn can_be_now(self) -> bool {
        &&& is_point_in_time(self.seconds() as int, self.nanos() as int, self.offset() as int)
        &&& self.seconds() >= 0
        &&& self.nanos() < 1_000_000_000
    }

    /// The whole seconds from another stamp to this one.
    pub open spec fn seconds_after(self, earlier: Stamp) -> int {
        whole_seconds(
            (self.seconds() as int, self.nanos() as int),
            (earlier.seconds() as int, earlier.nanos() as int),
        )
    }

    /// The stamp of the given numbers, if they name a point in time.
    pub fn new(seconds: i64, nanos: u32, offset: i32) -> (stamp: Option<Stamp>)
        ensures
            stamp is Some <==> is_point_in_time(seconds as int, nanos as int, offset as int),
            stamp matches Some(stamp) ==> stamp.seconds() == seconds && stamp.nanos() == nanos
                && stamp.offset() == offset,
    {
        if seconds < FIRST_SECOND || LAST_SECOND < seconds {
            return None;
        }
        // Counted from the first second, which starts a day, so that the number is not negative.
        let last_of_minute: bool = (seconds - FIRST_SECOND) % 60 == 59;
        if (nanos < 1_000_000_000 || (nanos < 2_000_000_000 && last_of_minute)) && -86_400 < offset
            && offset < 86_400 {
            Some(Stamp { seconds, nanos, offset })
        } else {
            None
        }
    }

    /// The numbers that make up the stamp: seconds, nanoseconds and offset.
    pub fn parts(&self) -> (parts: (i64, u32, i32))
        ensures
            parts == (self.seconds(), self.nanos(), self.offset()),
            is_point_in_time(parts.0 as int, parts.1 as int, parts.2 as int),
    {
        proof {
            use_type_invariant(self);
        }
        (self.seconds, self.nanos, self.offset)
    }

    /// The stamp of the current time, which is never before the Unix epoch nor in a leap second.
    pub fn now() -> (stamp: Stamp)
        ensures
            stamp.can_be_now(),
    {
        let now = local_now();
        Stamp { seconds: now.0, nanos: now.1, offset: now.2 }
    }

    /// How many whole seconds lie between `earlier` and this stamp. The number is negative where
    /// `earlier` is the later of the two, and the offsets do not count.
    pub fn elapsed_since(&self, earlier: &Stamp) -> (seconds: i64)
        ensures
            seconds == self.seconds_after(*earlier),
    {
        proof {
            use_type_invariant(self);
            use_type_invariant(earlier);
        }
        seconds_between((self.seconds, self.nanos), (earlier.seconds, earlier.nanos))
    }

    /// Whether [`Stamp::to_rfc2822`] can print the stamp.
    pub fn is_printable(&self) -> (printable: bool)
        ensures
            printable == self.printable(),
    {
        proof {
            use_type_invariant(self);
        }
        let local: i64 = self.seconds + self.offset as i64;
        FIRST_PRINTABLE_SECOND <= local && local <= LAST_PRINTABLE_SECOND
    }

    /// The stamp in its local time, as an RFC 2822 date.
    pub fn to_rfc2822(&self) -> (text: String)
        requires
            self.printable(),
        ensures
            text@ == rfc2822_text(self.seconds(), self.nanos(), self.offset()),
    {
        proof {
            use_type_invariant(self);
        }
        rfc2822(self.seconds, self.nanos, self.offset)
    }
}

/// Exchanging two stamps turns the sign of the time between them.
pub proof fn lemma_elapsed_is_antisymmetric(a: Stamp, b: Stamp)
    ensures
        a.seconds_after(b) == -b.seconds_after(a),
{
}

/// Outside of leap seconds, a later stamp is never fewer seconds after a third one than an earlier
/// stamp is.
pub proof fn lemma_elapsed_is_monotone(later: Stamp, earlier: Stamp, start: Stamp)
    requires
        later.nanos() < 1_000_000_000,
        earlier.nanos() < 1_000_000_000,
        start.nanos() < 1_000_000_000,
        earlier.seconds() * 1_000_000_000 + earlier.nanos() <= later.seconds() * 1_000_000_000
            + later.nanos(),
    ensures
        earlier.seconds_after(start) <= later.seconds_after(start),
{
}

/// Outside of leap seconds, the seconds between two stamps are the whole ones of the time between
/// them: so many have passed, and not one more.
pub proof fn lemma_elapsed_is_the_time_between(later: Stamp, earlier: Stamp)
    requires
        later.nanos() < 1_000_000_000,
        earlier.nanos() < 1_000_000_000,
        earlier.seconds() * 1_000_000_000 + earlier.nanos() <= later.seconds() * 1_000_000_000
            + later.nanos(),
    ensures
        ({
            let passed = (later.seconds() * 1_000_000_000 + later.nanos()) - (earlier.seconds()
                * 1_000_000_000 + earlier.nanos());
            let seconds = later.seconds_after(earlier);
            seconds * 1_000_000_000 <= passed < (seconds + 1) * 1_000_000_000
        }),
{
}

/// From a leap second on, time counts on within the same day as from the second that it prolongs,
/// at the same fraction.
pub proof fn lemma_leap_second_is_counted(later: (int, int), leap: (int, int))
    requires
        1_000_000_000 <= leap.1 < 2_000_000_000,
        leap.0 % 86_400 < later.0 % 86_400,
    ensures
        whole_seconds(later, leap) == whole_seconds(later, (leap.0, leap.1 - 1_000_000_000)),
{
}

/// Two points in time within the same second, a leap second with it, are as far apart as their
/// nanoseconds say.
pub proof fn lemma_leap_second_lasts(second: int, later: int, earlier: int)
    requires
        0 <= earlier <= later < 2_000_000_000,
    ensures
        ({
            let seconds = whole_seconds((second, later), (second, earlier));
            seconds * 1_000_000_000 <= later - earlier < (seconds + 1) * 1_000_000_000
        }),
{
}

/// Every second of the calendar with every nanosecond and every offset of less than a day names a
/// point in time; so does a leap second at the end of a minute, and nothing else does.
pub proof fn lemma_points_in_time(seconds: int, nanos: int, offset: int)
    ensures
        is_point_in_time(seconds, nanos, offset) <==> -8_334_601_228_800 <= seconds
            <= 8_210_266_876_799 && 0 <= nanos && (nanos <= 999_999_999 || (nanos <= 1_999_999_999
            && seconds % 60 == 59)) && -86_399 <= offset <= 86_399,
{
}

/// A stamp can be printed just where its local time lies between the start of the year 0 and the end
/// of the year 9999, with both.
pub proof fn lemma_printable_from_year_0_to_9999(stamp: Stamp)
    ensures
        stamp.printable() <==> -62_167_219_200 <= stamp.seconds() + stamp.offset()
            <= 253_402_300_799,
{
}

/// A time that the clock can tell is one of the calendar from the Unix epoch on, outside of leap
/// seconds, at an offset of less than a day.
pub proof fn lemma_times_that_the_clock_can_tell(stamp: Stamp)
    ensures
        stamp.can_be_now() <==> 0 <= stamp.seconds() <= 8_210_266_876_799 && stamp.nanos()
            <= 999_999_999 && -86_399 <= stamp.offset() <= 86_399,
{
}

} // verus!
