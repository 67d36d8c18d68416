//! A point in time with the UTC offset it was written in.
use vstd::prelude::*;

verus! {

/// Seconds in one civil day.
pub const SECONDS_PER_DAY: i64 = 86_400;

/// Sub-second values at or above this mark a leap second.
pub const LEAP_NANOS: u32 = 1_000_000_000;

/// Earliest representable instant, in seconds since the Unix epoch:
/// midnight UTC on the first day of the year -262143.
pub const MIN_SECS: i64 = -8_334_601_228_800;

/// Latest representable instant, in seconds since the Unix epoch:
/// the last second UTC of the year 262142.
pub const MAX_SECS: i64 = 8_210_266_876_799;

/// An instant together with the offset from UTC it is displayed in.
///
/// `secs` counts non-leap seconds since 1970-01-01T00:00:00Z, `nanos` the
/// nanoseconds past that second (at or above `LEAP_NANOS` inside a leap
/// second), and `offset` the seconds east of UTC of the local clock.
#[derive(Clone, Copy, Debug, PartialEq, Eq, Structural)]
pub struct Timestamp {
    pub secs: i64,
    pub nanos: u32,
    pub offset: i32,
}

impl Timestamp {
    /// The instants a calendar with years -262143 to 262142 can hold.
    pub open spec fn in_range(self) -> bool {
        &&& MIN_SECS <= self.secs <= MAX_SECS
        &&& self.nanos < 2 * LEAP_NANOS
        &&& (self.nanos >= LEAP_NANOS ==> self.secs % 60 == 59)
        &&& -SECONDS_PER_DAY < self.offset < SECONDS_PER_DAY
    }

    /// Strict order of instants; the offset plays no part.
    pub open spec fn before(self, other: Timestamp) -> bool {
        self.secs < other.secs || (self.secs == other.secs && self.nanos < other.nanos)
    }

    /// Number of the civil day, counted from 1970-01-01, that the local
    /// clock shows at this instant.
    pub open spec fn local_day(self) -> int {
        (self.secs + self.offset) / (SECONDS_PER_DAY as int)
    }

    /// The same wall-clock reading one day later. A leap second loses its
    /// extra second.
    pub open spec fn plus_day(self) -> Timestamp {
        Timestamp {
            secs: (self.secs + SECONDS_PER_DAY) as i64,
            nanos: if self.nanos >= LEAP_NANOS { (self.nanos - LEAP_NANOS) as u32 } else { self.nanos },
            offset: self.offset,
        }
    }

    /// The same wall-clock reading one day earlier. A leap second counts
    /// as the second that follows it.
    pub open spec fn minus_day(self) -> Timestamp {
        if self.nanos >= LEAP_NANOS {
            Timestamp {
                secs: (self.secs + 1 - SECONDS_PER_DAY) as i64,
                nanos: (self.nanos - LEAP_NANOS) as u32,
                offset: self.offset,
            }
        } else {
            Timestamp { secs: (self.secs - SECONDS_PER_DAY) as i64, nanos: self.nanos, offset: self.offset }
        }
    }

    /// Whether a day can be added without leaving the representable range.
    pub open spec fn can_add_day(self) -> bool {
        self.secs + SECONDS_PER_DAY <= MAX_SECS
    }

    /// Whether a day can be taken away without leaving the representable range.
    pub open spec fn can_sub_day(self) -> bool {
        self.secs - SECONDS_PER_DAY >= MIN_SECS
    }

    /// Whether 23:59:00 of the local day lies in the representable range.
    pub open spec fn has_end_of_day(self) -> bool {
        MIN_SECS <= self.local_day() * SECONDS_PER_DAY + 86_340 - self.offset <= MAX_SECS
    }

    /// 23:59:00 on the local clock, on the civil day this instant falls on.
    pub open spec fn end_of_day(self) -> Timestamp {
        Timestamp {
            secs: (self.local_day() * SECONDS_PER_DAY + 86_340 - self.offset) as i64,
            nanos: 0,
            offset: self.offset,
        }
    }

    /// The timestamp with these three parts.
    pub fn new(secs: i64, nanos: u32, offset: i32) -> (t: Timestamp)
        ensures
            t == (Timestamp { secs, nanos, offset }),
    {
        Timestamp { secs, nanos, offset }
    }

    /// Whether the calendar can hold this timestamp.
    pub fn is_in_range(&self) -> (ok: bool)
        ensures
            ok == self.in_range(),
    {
        MIN_SECS <= self.secs && self.secs <= MAX_SECS && self.nanos < 2_000_000_000 && (self.nanos
            < LEAP_NANOS || euclid_rem(self.secs as i128, 60) == 59) && -SECONDS_PER_DAY
            < self.offset as i64 && (self.offset as i64) < SECONDS_PER_DAY
    }

    /// Whether this instant is strictly earlier than `other`.
    pub fn is_before(&self, other: &Timestamp) -> (b: bool)
        ensures
            b == self.before(*other),
    {
        self.secs < other.secs || (self.secs == other.secs && self.nanos < other.nanos)
    }

    /// Number of the civil day, counted from 1970-01-01, that the local
    /// clock shows at this instant.
    pub fn day_number(&self) -> (day: i64)
        ensures
            day == self.local_day(),
    {
        let local: i128 = self.secs as i128 + self.offset as i128;
        let day: i128 = euclid_div(local, 86_400);
        day as i64
    }

    /// One day later, or `None` where that leaves the representable range.
    pub fn add_day(&self) -> (r: Option<Timestamp>)
        ensures
            r == if self.can_add_day() { Some(self.plus_day()) } else { None::<Timestamp> },
    {
        if self.secs <= MAX_SECS - SECONDS_PER_DAY {
            let nanos: u32 = if self.nanos >= LEAP_NANOS { self.nanos - LEAP_NANOS } else { self.nanos };
            Some(Timestamp { secs: self.secs + SECONDS_PER_DAY, nanos, offset: self.offset })
        } else {
            None
        }
    }

    /// One day earlier, or `None` where that leaves the representable range.
    pub fn sub_day(&self) -> (r: Option<Timestamp>)
        ensures
            r == if self.can_sub_day() { Some(self.minus_day()) } else { None::<Timestamp> },
    {
        if self.secs >= MIN_SECS + SECONDS_PER_DAY {
            if self.nanos >= LEAP_NANOS {
                Some(
                    Timestamp {
                        secs: self.secs - SECONDS_PER_DAY + 1,
                        nanos: self.nanos - LEAP_NANOS,
                        offset: self.offset,
                    },
                )
            } else {
                Some(Timestamp { secs: self.secs - SECONDS_PER_DAY, nanos: self.nanos, offset: self.offset })
            }
        } else {
            None
        }
    }

    /// 23:59:00 local time on the day of `self`, or `None` where the
    /// reading does not fit the clock's range.
    pub fn day_end(&self) -> (r: Option<Timestamp>)
        ensures
            r == if self.has_end_of_day() {
                Some(self.end_of_day())
            } else {
                None::<Timestamp>
            },
    {
        let day: i128 = self.day_number() as i128;
        let secs: i128 = day * 86_400 + 86_340 - self.offset as i128;
        if MIN_SECS as i128 <= secs && secs <= MAX_SECS as i128 {
            Some(Timestamp { secs: secs as i64, nanos: 0, offset: self.offset })
        } else {
            None
        }
    }
}

/// A day added within the range leaves a timestamp in range.
pub proof fn lemma_plus_day_in_range(t: Timestamp)
    requires
        t.in_range(),
        t.can_add_day(),
    ensures
        t.plus_day().in_range(),
        t.before(t.plus_day()),
        t.plus_day().local_day() == t.local_day() + 1,
{
}

/// A day taken away within the range leaves a timestamp in range. A
/// timestamp outside a leap second moves back by exactly one civil day.
pub proof fn lemma_minus_day_in_range(t: Timestamp)
    requires
        t.in_range(),
        t.can_sub_day(),
    ensures
        t.minus_day().in_range(),
        t.minus_day().before(t),
        t.nanos < LEAP_NANOS ==> t.minus_day().local_day() == t.local_day() - 1,
        t.nanos < LEAP_NANOS ==> t.minus_day().plus_day() == t,
{
}

/// The end of a timestamp's day lies on that day, a minute before the
/// next begins, and is in range where it exists and the offset is less
/// than a day.
pub proof fn lemma_end_of_day(t: Timestamp)
    requires
        t.has_end_of_day(),
        -SECONDS_PER_DAY < t.offset < SECONDS_PER_DAY,
    ensures
        t.end_of_day().in_range(),
        t.end_of_day().local_day() == t.local_day(),
        t.end_of_day().secs + t.offset == t.local_day() * SECONDS_PER_DAY + 86_340,
{
}

/// What `chrono::DateTime::parse_from_rfc3339` reads from a text: the
/// seconds since the epoch, the nanoseconds and the offset of the date-time
/// it denotes, or `None` where the text is not an RFC 3339 date-time.
pub uninterp spec fn rfc3339_reading(text: Seq<char>) -> Option<(i64, u32, i32)>;

/// `chrono`'s account of why a text could not be read; carried through
/// unread.
#[verifier::external_type_specification]
#[verifier::external_body]
pub struct ExParseError(chrono::ParseError);

/// Calls `chrono::DateTime::parse_from_rfc3339` and hands the date-time
/// out as a `Timestamp`. Not proved: that the result is the reading named
/// by `rfc3339_reading`, and that what it accepts (a four-digit year, an
/// offset under a day) lies in the representable range.
#[verifier::external_body]
pub(crate) fn parse_rfc3339(text: &str) -> (r: Result<Timestamp, chrono::ParseError>)
    ensures
        match r {
            Ok(t) => rfc3339_reading(text@) == Some((t.secs, t.nanos, t.offset)) && t.in_range(),
            Err(_) => rfc3339_reading(text@).is_none(),
        },
{
    let parsed = chrono::DateTime::parse_from_rfc3339(text)?;
    Ok(
        Timestamp {
            secs: parsed.timestamp(),
            nanos: parsed.timestamp_subsec_nanos(),
            offset: parsed.offset().local_minus_utc(),
        },
    )
}

/// Floor division by a positive divisor.
fn euclid_div(n: i128, d: i128) -> (q: i128)
    requires
        0 < d <= 86_400,
        -0x1_0000_0000_0000_0000 < n < 0x1_0000_0000_0000_0000,
    ensures
        q == n / d,
{
    if n >= 0 {
        n / d
    } else {
        let m: i128 = -n - 1;
        let q: i128 = m / d;
        assert(n / d == -q - 1) by (nonlinear_arith)
            requires
                n == -m - 1,
                m >= 0,
                d > 0,
                q == m / d,
        ;
        -q - 1
    }
}

/// Remainder of floor division by a positive divisor.
fn euclid_rem(n: i128, d: i128) -> (r: i128)
    requires
        0 < d <= 86_400,
        -0x1_0000_0000_0000_0000 < n < 0x1_0000_0000_0000_0000,
    ensures
        r == n % d,
{
    let q: i128 = euclid_div(n, d);
    assert(n == d * (n / d) + n % d && 0 <= n % d < d) by (nonlinear_arith)
        requires
            d > 0,
    ;
    assert(q * d == d * (n / d)) by (nonlinear_arith)
        requires
            q == n / d,
    ;
    n - q * d
}

} // verus!
