//! Points in time, as the number of seconds and nanoseconds since the epoch.

use vstd::prelude::*;

verus! {

/// A calendar date and time of day without a time zone, held as the whole
/// seconds since 1970-01-01 00:00:00 and the nanoseconds into that second.
#[derive(Clone, Copy, Debug, PartialEq, Eq, Structural)]
pub struct Timestamp {
    pub secs: i64,
    pub nanos: u32,
}

/// `x` limited to the range of `u32`.
pub open spec fn clamp_u32(x: int) -> int {
    if x < 0 {
        0
    } else if x > u32::MAX {
        u32::MAX as int
    } else {
        x
    }
}

impl Timestamp {
    /// `self` is strictly earlier than `other`.
    pub open spec fn before(self, other: Timestamp) -> bool {
        self.secs < other.secs || (self.secs == other.secs && self.nanos < other.nanos)
    }

    /// Whole seconds from `start` to `self`, never negative and never more
    /// than `u32::MAX`.
    pub open spec fn elapsed_since(self, start: Timestamp) -> int {
        clamp_u32(self.secs - start.secs)
    }

    /// `self` is earlier than the point `seconds` seconds after `earlier`.
    pub open spec fn within(self, earlier: Timestamp, seconds: int) -> bool {
        self.secs < earlier.secs + seconds || (self.secs == earlier.secs + seconds && self.nanos
            < earlier.nanos)
    }

    /// The point `nanos` nanoseconds into the second `secs`.
    pub fn new(secs: i64, nanos: u32) -> (t: Timestamp)
        ensures
            t.secs == secs,
            t.nanos == nanos,
    {
        Timestamp { secs, nanos }
    }

    /// Whether `self` is strictly earlier than `other`.
    pub fn is_before(&self, other: &Timestamp) -> (r: bool)
        ensures
            r == self.before(*other),
    {
        self.secs < other.secs || (self.secs == other.secs && self.nanos < other.nanos)
    }

    /// Whether `self` is earlier than the point `seconds` seconds after
    /// `earlier`.
    pub fn is_within(&self, earlier: &Timestamp, seconds: u32) -> (r: bool)
        ensures
            r == self.within(*earlier, seconds as int),
    {
        let limit: i128 = earlier.secs as i128 + seconds as i128;
        (self.secs as i128) < limit || (self.secs as i128 == limit && self.nanos < earlier.nanos)
    }

    /// Whole seconds from `start` to `self`, never negative and never more
    /// than `u32::MAX`.
    pub fn seconds_since(&self, start: &Timestamp) -> (r: u32)
        ensures
            r == self.elapsed_since(*start),
    {
        let d: i128 = self.secs as i128 - start.secs as i128;
        if d < 0 {
            0
        } else if d > u32::MAX as i128 {
            u32::MAX
        } else {
            d as u32
        }
    }
}

/// What `chrono::NaiveDateTime::parse_from_str` makes of `text` under the
/// format `format`: `None` where it reports an error, and otherwise the
/// parsed date and time as seconds since the epoch and nanoseconds into the
/// second.
pub uninterp spec fn naive_datetime_from_str(text: Seq<char>, format: Seq<char>) -> Option<
    (i64, u32),
>;

/// Calls `chrono::NaiveDateTime::parse_from_str` and reads the result through
/// `and_utc().timestamp()` and `and_utc().timestamp_subsec_nanos()`; an
/// error becomes `None`. Parsing depends on the two strings alone, so the
/// contract equates the outcome with `naive_datetime_from_str`; nothing else
/// is claimed.
#[verifier::external_body]
fn naive_datetime_parse(text: &str, format: &str) -> (r: Option<Timestamp>)
    ensures
        match r {
            Some(t) => naive_datetime_from_str(text@, format@) == Some((t.secs, t.nanos)),
            None => naive_datetime_from_str(text@, format@) is None,
        },
{
    chrono::NaiveDateTime::parse_from_str(text, format).ok().map(
        |t| Timestamp { secs: t.and_utc().timestamp(), nanos: t.and_utc().timestamp_subsec_nanos() },
    )
}

/// The timestamp that `text` holds under `format`, or `None` where `text`
/// does not match the format.
pub fn parse_timestamp(text: &str, format: &str) -> (r: Option<Timestamp>)
    ensures
        r == match naive_datetime_from_str(text@, format@) {
            Some(t) => Some(Timestamp { secs: t.0, nanos: t.1 }),
            None => None,
        },
{
    naive_datetime_parse(text, format)
}

} // verus!
