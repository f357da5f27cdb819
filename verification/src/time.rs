//! Timestamps for content entries: a plain signed-seconds-plus-nanoseconds
//! value, the fallback policy for unreadable modification times, and the
//! RFC 2822 rendering used by the feed.

use vstd::prelude::*;

verus! {

/// A point in time: signed whole seconds relative to the Unix epoch and a
/// sub-second nanosecond part.
#[derive(Clone, Copy, PartialEq, Eq, Structural, Debug)]
pub struct Timestamp {
    pub secs: i64,
    pub nanos: u32,
}

impl Timestamp {
    /// A timestamp is normalized when the nanosecond part is below one
    /// second.
    pub open spec fn wf(&self) -> bool {
        self.nanos < 1_000_000_000
    }

    /// The Unix epoch itself.
    pub fn epoch() -> (r: Timestamp)
        ensures
            r == (Timestamp { secs: 0, nanos: 0 }),
    {
        Timestamp { secs: 0, nanos: 0 }
    }

    /// Chronological order, seconds first, then nanoseconds.
    pub open spec fn spec_lt(self, other: Timestamp) -> bool {
        self.secs < other.secs || (self.secs == other.secs && self.nanos < other.nanos)
    }

    pub open spec fn spec_le(self, other: Timestamp) -> bool {
        self.secs < other.secs || (self.secs == other.secs && self.nanos <= other.nanos)
    }

    /// Strictly earlier than `other`.
    pub fn lt(&self, other: &Timestamp) -> (r: bool)
        ensures
            r == self.spec_lt(*other),
    {
        self.secs < other.secs || (self.secs == other.secs && self.nanos < other.nanos)
    }

    /// No later than `other`.
    pub fn le(&self, other: &Timestamp) -> (r: bool)
        ensures
            r == self.spec_le(*other),
    {
        self.secs < other.secs || (self.secs == other.secs && self.nanos <= other.nanos)
    }
}

/// The modification-time fallback policy, decided in one place: a missing
/// or unreadable timestamp counts as the epoch.
pub fn path_time_modified(modified: Option<Timestamp>) -> (r: Timestamp)
    ensures
        r == spec_time_or_epoch(modified),
{
    match modified {
        Some(t) => t,
        None => Timestamp::epoch(),
    }
}

pub open spec fn spec_time_or_epoch(modified: Option<Timestamp>) -> Timestamp {
    match modified {
        Some(t) => t,
        None => Timestamp { secs: 0, nanos: 0 },
    }
}

/// A normalized timestamp from an unsigned distance to the epoch, on
/// either side of it: before the epoch the seconds negate, borrowing one
/// second when a nanosecond remainder must stay non-negative. Distances
/// whose seconds overflow a signed word give `None`.
pub open spec fn spec_from_epoch_delta(before_epoch: bool, secs: u64, nanos: u32) -> Option<
    Timestamp,
> {
    if nanos >= 1_000_000_000 || secs > 0x7fff_ffff_ffff_ffff {
        None
    } else if !before_epoch {
        Some(Timestamp { secs: secs as i64, nanos })
    } else if nanos == 0 {
        Some(Timestamp { secs: (-(secs as int)) as i64, nanos: 0 })
    } else {
        Some(
            Timestamp { secs: (-(secs as int) - 1) as i64, nanos: (1_000_000_000 - nanos) as u32 },
        )
    }
}

/// Build a [`Timestamp`] from a duration relative to the epoch, as a
/// system clock reports it: `before_epoch` says on which side the instant
/// lies.
pub fn timestamp_from_epoch_delta(before_epoch: bool, secs: u64, nanos: u32) -> (r: Option<
    Timestamp,
>)
    ensures
        r == spec_from_epoch_delta(before_epoch, secs, nanos),
        r matches Some(t) ==> t.wf(),
{
    if nanos >= 1_000_000_000 || secs > 0x7fff_ffff_ffff_ffff {
        None
    } else if !before_epoch {
        Some(Timestamp { secs: secs as i64, nanos })
    } else if nanos == 0 {
        Some(Timestamp { secs: -(secs as i64), nanos: 0 })
    } else {
        Some(Timestamp { secs: -(secs as i64) - 1, nanos: 1_000_000_000 - nanos })
    }
}

/// What chrono's RFC 2822 rendering of a moment looks like, for example
/// `Thu, 1 Jan 1970 00:00:00 +0000`; it depends on the seconds and
/// nanoseconds alone.
pub uninterp spec fn rfc2822_of(secs: int, nanos: int) -> Seq<char>;

/// The timestamps the RFC 2822 renderer accepts: years 0 through 9999.
pub open spec fn rfc2822_in_range(t: Timestamp) -> bool {
    -62167219200 <= t.secs <= 253402300799
}

/// Relies on chrono's `DateTime::<Utc>::from_timestamp` and
/// `DateTime::to_rfc2822`: within years 0..=9999 and with a normalized
/// nanosecond part the constructor succeeds, and the formatted string is a
/// function of the timestamp alone.
#[verifier::external_body]
pub(crate) fn format_rfc2822(t: &Timestamp) -> (r: String)
    requires
        t.wf(),
        rfc2822_in_range(*t),
    ensures
        r@ == rfc2822_of(t.secs as int, t.nanos as int),
{
    match chrono::DateTime::<chrono::Utc>::from_timestamp(t.secs, t.nanos) {
        Some(dt) => dt.to_rfc2822(),
        None => String::new(),
    }
}

/// The RFC 2822 rendering of a timestamp, where the renderer's range
/// allows one.
pub fn try_format_rfc2822(t: &Timestamp) -> (r: Option<String>)
    requires
        t.wf(),
    ensures
        match r {
            Some(s) => rfc2822_in_range(*t) && s@ == rfc2822_of(t.secs as int, t.nanos as int),
            None => !rfc2822_in_range(*t),
        },
{
    if -62167219200 <= t.secs && t.secs <= 253402300799 {
        Some(format_rfc2822(t))
    } else {
        None
    }
}

} // verus!
