use vstd::prelude::*;

verus! {

/// Nanoseconds in one second.
pub const NANOS_PER_SEC: u64 = 1_000_000_000;

/// The earliest representable instant, in seconds since the Unix epoch
/// (the first second of the year -262143).
pub const MIN_TIMESTAMP: i64 = -8_334_601_315_200;

/// The last representable second, in seconds since the Unix epoch
/// (the last second of the year 262142).
pub const MAX_TIMESTAMP: i64 = 8_210_266_876_799;

/// The longest offset that can be added to a date, in seconds; anything
/// longer is treated as no offset at all.
pub const MAX_OFFSET_SECS: u64 = 9_223_372_036_854_775;

/// The sub-second part of the longest offset, in nanoseconds.
pub const MAX_OFFSET_NANOS: u32 = 807_000_000;

/// A span of time: whole seconds and a sub-second remainder in nanoseconds.
#[derive(Debug, Clone, Copy, PartialEq, Eq, Structural, Hash)]
pub struct Duration {
    pub secs: u64,
    pub nanos: u32,
}

/// The length of a duration in nanoseconds.
pub open spec fn duration_nanos(d: Duration) -> int {
    d.secs * 1_000_000_000 + d.nanos
}

/// The offset that a duration contributes when added to a date: the
/// duration itself, or nothing when it is beyond the longest offset.
pub open spec fn effective_offset(d: Duration) -> int {
    if d.secs > MAX_OFFSET_SECS || (d.secs == MAX_OFFSET_SECS && d.nanos > MAX_OFFSET_NANOS)
        || d.nanos >= 1_000_000_000 {
        0
    } else {
        duration_nanos(d)
    }
}

impl Duration {
    /// A duration of whole seconds.
    pub fn from_secs(secs: u64) -> (r: Duration)
        ensures
            r.secs == secs,
            r.nanos == 0,
    {
        Duration { secs, nanos: 0 }
    }

    /// A duration of whole days.
    pub fn from_days(days: u64) -> (r: Duration)
        requires
            days * 86400 <= u64::MAX,
        ensures
            r.secs == days * 86400,
            r.nanos == 0,
    {
        Duration { secs: days * 86400, nanos: 0 }
    }
}

/// An instant in UTC: seconds since the Unix epoch and a sub-second part.
#[derive(Debug, Clone, Copy, PartialEq, Eq, Structural, Hash)]
pub struct Date {
    pub secs: i64,
    pub nanos: u32,
}

/// The instant of a date, in nanoseconds since the Unix epoch.
pub open spec fn date_nanos(d: Date) -> int {
    d.secs * 1_000_000_000 + d.nanos
}

/// Whether an instant, in nanoseconds, lies in the representable range.
pub open spec fn instant_in_range(n: int) -> bool {
    MIN_TIMESTAMP * 1_000_000_000 <= n <= MAX_TIMESTAMP * 1_000_000_000 + 999_999_999
}

/// The date that `offset` after `d` falls on, if it is representable.
pub open spec fn spec_add_duration(d: Date, dur: Duration) -> Option<Date> {
    let n = date_nanos(d) + effective_offset(dur);
    if instant_in_range(n) {
        Some(Date { secs: (n / 1_000_000_000) as i64, nanos: (n % 1_000_000_000) as u32 })
    } else {
        None
    }
}

/// A date in the representable range, with a sub-second part below a second.
pub open spec fn date_ok(d: Date) -> bool {
    MIN_TIMESTAMP <= d.secs <= MAX_TIMESTAMP && d.nanos < 1_000_000_000
}

/// A date reached by adding a duration is representable and no earlier.
pub proof fn lemma_add_duration(d: Date, dur: Duration)
    requires
        spec_add_duration(d, dur) is Some,
    ensures
        date_ok(spec_add_duration(d, dur)->Some_0),
        date_nanos(spec_add_duration(d, dur)->Some_0) == date_nanos(d) + effective_offset(dur),
        effective_offset(dur) >= 0,
{
    let n = date_nanos(d) + effective_offset(dur);
    let e = spec_add_duration(d, dur)->Some_0;
    let q = n / 1_000_000_000;
    let r = n % 1_000_000_000;
    vstd::arithmetic::div_mod::lemma_fundamental_div_mod(n, 1_000_000_000);
    assert(0 <= r < 1_000_000_000);
    assert(MIN_TIMESTAMP <= q <= MAX_TIMESTAMP) by (nonlinear_arith)
        requires
            n == 1_000_000_000 * q + r,
            0 <= r < 1_000_000_000,
            MIN_TIMESTAMP * 1_000_000_000 <= n <= MAX_TIMESTAMP * 1_000_000_000 + 999_999_999;
    assert(e.secs == q && e.nanos == r);
}

/// Between representable dates, a later instant has no smaller whole second.
pub proof fn lemma_secs_monotone(a: Date, b: Date)
    requires
        date_ok(a),
        date_ok(b),
        date_nanos(a) <= date_nanos(b),
    ensures
        a.secs <= b.secs,
{
    if a.secs > b.secs {
        assert(date_nanos(b) < date_nanos(a)) by (nonlinear_arith)
            requires
                a.secs >= b.secs + 1,
                0 <= a.nanos,
                b.nanos < 1_000_000_000,
                date_nanos(a) == a.secs * 1_000_000_000 + a.nanos,
                date_nanos(b) == b.secs * 1_000_000_000 + b.nanos;
    }
}

impl Date {
    /// The date at the given number of seconds and nanoseconds after the epoch.
    pub fn new(secs: i64, nanos: u32) -> (r: Date)
        ensures
            r.secs == secs,
            r.nanos == nanos,
    {
        Date { secs, nanos }
    }

    /// The Unix epoch, 1970-01-01T00:00:00Z.
    pub fn start_of_epoch() -> (r: Date)
        ensures
            r.secs == 0,
            r.nanos == 0,
    {
        Date { secs: 0, nanos: 0 }
    }

    /// The whole seconds since the epoch (rounded down).
    pub fn timestamp(&self) -> (r: i64)
        ensures
            r == self.secs,
    {
        self.secs
    }

    /// The instant of this date in nanoseconds since the epoch.
    pub fn instant(&self) -> (r: i128)
        ensures
            r == date_nanos(*self),
    {
        self.secs as i128 * 1_000_000_000 + self.nanos as i128
    }

    /// Whether this date comes strictly after `other`.
    pub fn is_after(&self, other: &Date) -> (r: bool)
        ensures
            r == (date_nanos(*self) > date_nanos(*other)),
    {
        self.instant() > other.instant()
    }

    /// The date `dur` after this one, or `None` when it is not representable.
    ///
    /// An offset longer than the longest representable offset counts as
    /// no offset at all.
    pub fn checked_add(&self, dur: Duration) -> (r: Option<Date>)
        ensures
            r == spec_add_duration(*self, dur),
    {
        let offset: i128 = if dur.secs > MAX_OFFSET_SECS
            || (dur.secs == MAX_OFFSET_SECS && dur.nanos > MAX_OFFSET_NANOS)
            || dur.nanos as u64 >= NANOS_PER_SEC {
            0
        } else {
            dur.secs as i128 * 1_000_000_000 + dur.nanos as i128
        };
        let n: i128 = self.instant() + offset;
        if MIN_TIMESTAMP as i128 * 1_000_000_000 <= n
            && n <= MAX_TIMESTAMP as i128 * 1_000_000_000 + 999_999_999 {
            let base: i128 = MIN_TIMESTAMP as i128 * 1_000_000_000;
            let m: i128 = n - base;
            let q: i128 = m / 1_000_000_000;
            let rem: i128 = m % 1_000_000_000;
            let secs: i128 = q + MIN_TIMESTAMP as i128;
            proof {
                assert(0 <= rem < 1_000_000_000);
                assert(m == q * 1_000_000_000 + rem) by (nonlinear_arith)
                    requires q == m / 1_000_000_000, rem == m % 1_000_000_000, m >= 0;
                assert(n == secs * 1_000_000_000 + rem) by (nonlinear_arith)
                    requires m == q * 1_000_000_000 + rem, secs == q + MIN_TIMESTAMP, m == n - MIN_TIMESTAMP * 1_000_000_000;
                vstd::arithmetic::div_mod::lemma_fundamental_div_mod_converse(n as int, 1_000_000_000, secs as int, rem as int);
                assert(q <= (MAX_TIMESTAMP - MIN_TIMESTAMP) + 1) by (nonlinear_arith)
                    requires q == m / 1_000_000_000, 0 <= m <= (MAX_TIMESTAMP - MIN_TIMESTAMP) * 1_000_000_000 + 999_999_999;
            }
            Some(Date { secs: secs as i64, nanos: rem as u32 })
        } else {
            None
        }
    }
}

} // verus!
