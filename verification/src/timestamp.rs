//! Instants in time, held as nanoseconds since the Unix epoch.

use vstd::prelude::*;

verus! {

/// Smallest number of nanoseconds since the Unix epoch that a `jiff`
/// timestamp can hold (`-009999-01-02T01:59:59Z`).
pub const MIN_NANOSECOND: i128 = -377_705_023_201_000_000_000i128;

/// Largest number of nanoseconds since the Unix epoch that a `jiff`
/// timestamp can hold (`9999-12-30T22:00:00.999999999Z`).
pub const MAX_NANOSECOND: i128 = 253_402_207_200_999_999_999i128;

/// Whether `n` nanoseconds since the Unix epoch is an instant that `jiff`
/// can represent.
pub open spec fn nanos_in_range(n: int) -> bool {
    MIN_NANOSECOND <= n <= MAX_NANOSECOND
}

/// The RFC 3339 text (UTC, `Z` suffix, shortest exact fraction) that
/// `jiff` prints for the instant `n` nanoseconds after the Unix epoch.
pub uninterp spec fn timestamp_text(n: i128) -> Seq<char>;

/// An instant in time, always within the range that `jiff` supports.
#[derive(Debug, Clone, Copy, PartialEq, Eq, Structural, Hash)]
pub struct Timestamp {
    nanos: i128,
}

impl View for Timestamp {
    type V = int;

    closed spec fn view(&self) -> int {
        self.nanos as int
    }
}

impl Timestamp {
    #[verifier::type_invariant]
    spec fn in_range(self) -> bool {
        nanos_in_range(self.nanos as int)
    }

    /// The Unix epoch, `1970-01-01T00:00:00Z`.
    pub fn unix_epoch() -> (t: Timestamp)
        ensures
            t@ == 0,
    {
        Timestamp { nanos: 0 }
    }

    /// The instant `n` nanoseconds after the Unix epoch, or `None` where
    /// that instant is outside the supported range.
    pub fn from_nanosecond(n: i128) -> (t: Option<Timestamp>)
        ensures
            t is Some <==> nanos_in_range(n as int),
            t matches Some(ts) ==> ts@ == n,
    {
        if jiff_accepts_nanosecond(n) {
            Some(Timestamp { nanos: n })
        } else {
            None
        }
    }

    /// Number of nanoseconds since the Unix epoch.
    pub fn as_nanosecond(&self) -> (n: i128)
        ensures
            n == self@,
            nanos_in_range(n as int),
    {
        proof {
            use_type_invariant(self);
        }
        self.nanos
    }

    /// The RFC 3339 text of this instant, as `jiff` displays it.
    pub fn to_rfc3339(&self) -> (s: String)
        ensures
            s@ == timestamp_text(self@ as i128),
    {
        proof {
            use_type_invariant(self);
        }
        jiff_display_nanosecond(self.nanos)
    }
}

/// Calls `jiff::Timestamp::from_nanosecond` and reports whether it
/// succeeded. The contract claims that `jiff` accepts exactly the
/// nanosecond counts between `Timestamp::MIN` and `Timestamp::MAX`.
#[verifier::external_body]
fn jiff_accepts_nanosecond(n: i128) -> (ok: bool)
    ensures
        ok == nanos_in_range(n as int),
{
    jiff::Timestamp::from_nanosecond(n).is_ok()
}

/// Builds a `jiff::Timestamp` from `n` nanoseconds and formats it with its
/// `Display` impl. The contract claims only that the text is a function
/// of `n`, named `timestamp_text`.
#[verifier::external_body]
fn jiff_display_nanosecond(n: i128) -> (s: String)
    requires
        nanos_in_range(n as int),
    ensures
        s@ == timestamp_text(n),
{
    match jiff::Timestamp::from_nanosecond(n) {
        Ok(t) => t.to_string(),
        Err(_) => String::new(),
    }
}

} // verus!
