//! The instant at which an aside was asked.

use vstd::prelude::*;

verus! {

/// The first second of the calendar, as a Unix timestamp.
pub const FIRST_SECOND: i64 = -8_334_601_228_800;

/// The last second of the calendar, as a Unix timestamp.
pub const LAST_SECOND: i64 = 8_210_266_876_799;

/// Whether the calendar has the instant `nanos` nanoseconds after the second
/// `secs`. A leap second shows as more than a second's worth of nanoseconds
/// after the last second of a minute.
pub open spec fn on_calendar(secs: int, nanos: int) -> bool {
    &&& FIRST_SECOND <= secs <= LAST_SECOND
    &&& 0 <= nanos < 2_000_000_000
    &&& nanos >= 1_000_000_000 ==> secs % 60 == 59
}

/// An instant in UTC: a Unix timestamp and the nanoseconds after it.
#[derive(Clone, Copy, Debug, PartialEq, Eq, Structural)]
pub struct UtcInstant {
    secs: i64,
    nanos: u32,
}

/// What `chrono` writes for the instant in the format of RFC 3339.
pub uninterp spec fn rfc3339_text(secs: i64, nanos: u32) -> Seq<char>;

/// `chrono::DateTime::<Utc>::to_rfc3339`, of the instant that
/// `chrono::DateTime::from_timestamp` makes of the two numbers. The latter
/// refuses no instant on the calendar. What is written is named, not spelled
/// out.
#[verifier::external_body]
fn rfc3339(secs: i64, nanos: u32) -> (written: String)
    requires
        on_calendar(secs as int, nanos as int),
    ensures
        written@ == rfc3339_text(secs, nanos),
{
    chrono::DateTime::from_timestamp(secs, nanos).expect("on the calendar").to_rfc3339()
}

impl UtcInstant {
    #[verifier::type_invariant]
    spec fn valid(self) -> bool {
        on_calendar(self.secs as int, self.nanos as int)
    }

    /// The Unix timestamp of the second that the instant falls in.
    pub closed spec fn second(self) -> i64 {
        self.secs
    }

    /// The nanoseconds after that second.
    pub closed spec fn subsec(self) -> u32 {
        self.nanos
    }

    /// Whether this instant is not later than `other`.
    pub open spec fn at_or_before(self, other: UtcInstant) -> bool {
        ||| self.second() < other.second()
        ||| self.second() == other.second() && self.subsec() <= other.subsec()
    }

    /// The instant `nanos` nanoseconds after the second `secs`, if the calendar
    /// has it.
    pub fn new(secs: i64, nanos: u32) -> (made: Option<UtcInstant>)
        ensures
            made is Some <==> on_calendar(secs as int, nanos as int),
            made matches Some(instant) ==> instant.second() == secs && instant.subsec() == nanos,
    {
        if secs < FIRST_SECOND || secs > LAST_SECOND || nanos >= 2_000_000_000 {
            return None;
        }
        // The calendar starts with a whole minute.
        let since_start: i64 = secs - FIRST_SECOND;
        if nanos >= 1_000_000_000 && since_start % 60 != 59 {
            return None;
        }
        Some(UtcInstant { secs, nanos })
    }

    /// The Unix timestamp of the second that the instant falls in.
    pub fn timestamp(&self) -> (secs: i64)
        ensures
            secs == self.second(),
    {
        self.secs
    }

    /// The nanoseconds after that second.
    pub fn timestamp_subsec_nanos(&self) -> (nanos: u32)
        ensures
            nanos == self.subsec(),
    {
        self.nanos
    }

    /// Whether this instant is later than `other`.
    pub fn is_after(&self, other: &UtcInstant) -> (answer: bool)
        ensures
            answer == !self.at_or_before(*other),
    {
        self.secs > other.secs || self.secs == other.secs && self.nanos > other.nanos
    }

    /// The instant in the format of RFC 3339.
    pub fn to_rfc3339(&self) -> (written: String)
        ensures
            written@ == rfc3339_text(self.second(), self.subsec()),
    {
        proof {
            use_type_invariant(self);
        }
        rfc3339(self.secs, self.nanos)
    }
}

/// Instants are in a total order: of two, one is not later than the other, and
/// two of which neither is later are the same.
pub proof fn instants_are_totally_ordered(a: UtcInstant, b: UtcInstant, c: UtcInstant)
    ensures
        a.at_or_before(a),
        a.at_or_before(b) || b.at_or_before(a),
        a.at_or_before(b) && b.at_or_before(a) ==> a == b,
        a.at_or_before(b) && b.at_or_before(c) ==> a.at_or_before(c),
{
}

/// An instant of an earlier second is the earlier one, and of two in one second
/// that with fewer nanoseconds after it.
pub proof fn seconds_come_before_nanoseconds(a: UtcInstant, b: UtcInstant)
    ensures
        a.second() < b.second() ==> a.at_or_before(b) && !b.at_or_before(a),
        a.second() == b.second() ==> (a.at_or_before(b) <==> a.subsec() <= b.subsec()),
{
}

/// The calendar has each nanosecond of each second from its first to its last,
/// and a leap second after the last second of a minute only.
pub proof fn the_calendar_has_no_gaps(secs: int, nanos: int)
    ensures
        secs < FIRST_SECOND || secs > LAST_SECOND || nanos < 0 ==> !on_calendar(secs, nanos),
        FIRST_SECOND <= secs <= LAST_SECOND && 0 <= nanos < 1_000_000_000 ==> on_calendar(
            secs,
            nanos,
        ),
        FIRST_SECOND <= secs <= LAST_SECOND && 1_000_000_000 <= nanos < 2_000_000_000 ==> (
        on_calendar(secs, nanos) <==> (secs + 1) % 60 == 0),
        nanos >= 2_000_000_000 ==> !on_calendar(secs, nanos),
{
}

} // verus!
