//! UTC timestamps, as `chrono::DateTime<Utc>` holds them.
//!
//! A `Timestamp` is the pair (seconds since the Unix epoch, nanoseconds
//! within the second) that `DateTime::timestamp` and
//! `DateTime::timestamp_subsec_nanos` give. Pairs compare lexicographically,
//! which is the order of `DateTime<Utc>`.

use vstd::prelude::*;

verus! {

/// Whether `chrono::DateTime::from_timestamp(secs, nanos)` succeeds.
pub uninterp spec fn chrono_valid(secs: i64, nanos: u32) -> bool;

/// The text that `DateTime::<Utc>::to_rfc3339` writes for a timestamp.
pub uninterp spec fn rfc3339_text(secs: i64, nanos: u32) -> Seq<char>;

/// What `DateTime::parse_from_rfc3339` yields for a text, as a timestamp.
pub uninterp spec fn rfc3339_parsed(text: Seq<char>) -> Option<(i64, u32)>;

/// Timestamps from 0000-01-01T00:00:00Z to 9999-12-31T23:59:60Z: the ones
/// whose RFC 3339 text has a four-digit year. A leap second is held as the
/// last second of a minute with one extra second of nanoseconds, as chrono
/// holds it (and writes it as second 60).
pub open spec fn four_digit_year(secs: i64, nanos: u32) -> bool {
    &&& -62167219200 <= secs && secs <= 253402300799
    &&& (nanos < 1_000_000_000 || (nanos < 2_000_000_000 && secs % 60 == 59))
}

/// Calls `DateTime::from_timestamp` and reports whether it succeeded.
/// Every timestamp with a four-digit year is representable.
#[verifier::external_body]
fn representable(secs: i64, nanos: u32) -> (r: bool)
    ensures
        r == chrono_valid(secs, nanos),
        four_digit_year(secs, nanos) ==> r,
{
    chrono::DateTime::from_timestamp(secs, nanos).is_some()
}

/// Calls `Utc::now`. Of the result only this is known: it is representable,
/// not before the Unix epoch, and not inside a leap second.
#[verifier::external_body]
fn utc_now() -> (r: (i64, u32))
    ensures
        chrono_valid(r.0, r.1),
        r.0 >= 0,
        r.1 < 1_000_000_000,
{
    let now = chrono::Utc::now();
    (now.timestamp(), now.timestamp_subsec_nanos())
}

/// Calls `DateTime::to_rfc3339` on the timestamp.
#[verifier::external_body]
fn format_rfc3339(secs: i64, nanos: u32) -> (r: String)
    requires
        chrono_valid(secs, nanos),
    ensures
        r@ == rfc3339_text(secs, nanos),
{
    chrono::DateTime::from_timestamp(secs, nanos).unwrap().to_rfc3339()
}

/// Calls `DateTime::parse_from_rfc3339` and takes the UTC timestamp of the
/// result. Beside the name, the contract states what chrono's writer and
/// parser give together: a text written by `to_rfc3339` for a timestamp
/// with a four-digit year parses back to that timestamp, and whatever
/// parses is representable.
#[verifier::external_body]
fn parse_rfc3339(text: &str) -> (r: Option<(i64, u32)>)
    ensures
        r == rfc3339_parsed(text@),
        r matches Some(p) ==> chrono_valid(p.0, p.1),
        forall|secs: i64, nanos: u32|
            four_digit_year(secs, nanos) && #[trigger] rfc3339_text(secs, nanos) == text@ ==> r
                == Some((secs, nanos)),
{
    chrono::DateTime::parse_from_rfc3339(text).ok().map(
        |d| (d.timestamp(), d.timestamp_subsec_nanos()),
    )
}

/// A UTC instant with nanosecond precision.
#[derive(Clone, Copy, Debug)]
pub struct Timestamp {
    secs: i64,
    nanos: u32,
}

impl View for Timestamp {
    type V = (i64, u32);

    closed spec fn view(&self) -> (i64, u32) {
        (self.secs, self.nanos)
    }
}

/// `a` is strictly later than `b`.
pub open spec fn later(a: (i64, u32), b: (i64, u32)) -> bool {
    a.0 > b.0 || (a.0 == b.0 && a.1 > b.1)
}

impl Timestamp {
    #[verifier::type_invariant]
    spec fn representable_inv(self) -> bool {
        chrono_valid(self.secs, self.nanos)
    }

    /// The current time (`Utc::now`).
    pub fn now() -> (t: Timestamp)
        ensures
            chrono_valid(t@.0, t@.1),
            t@.0 >= 0,
            t@.1 < 1_000_000_000,
    {
        let (secs, nanos) = utc_now();
        Timestamp { secs, nanos }
    }

    /// The instant `secs` seconds and `nanos` nanoseconds after the Unix
    /// epoch; `None` when chrono cannot represent it.
    pub fn from_unix(secs: i64, nanos: u32) -> (r: Option<Timestamp>)
        ensures
            r is Some <==> chrono_valid(secs, nanos),
            r matches Some(t) ==> t@ == (secs, nanos),
            four_digit_year(secs, nanos) ==> r is Some,
    {
        if representable(secs, nanos) {
            Some(Timestamp { secs, nanos })
        } else {
            None
        }
    }

    /// Seconds since the Unix epoch.
    pub fn secs(&self) -> (r: i64)
        ensures
            r == self@.0,
    {
        self.secs
    }

    /// Nanoseconds within the second.
    pub fn nanos(&self) -> (r: u32)
        ensures
            r == self@.1,
    {
        self.nanos
    }

    /// Whether `self` is strictly later than `other`.
    pub fn is_later_than(&self, other: &Timestamp) -> (r: bool)
        ensures
            r == later(self@, other@),
    {
        self.secs > other.secs || (self.secs == other.secs && self.nanos > other.nanos)
    }

    /// The RFC 3339 text of the instant (`DateTime::to_rfc3339`).
    pub fn to_rfc3339(&self) -> (r: String)
        ensures
            r@ == rfc3339_text(self@.0, self@.1),
    {
        proof {
            use_type_invariant(self);
        }
        format_rfc3339(self.secs, self.nanos)
    }

    /// Parses an RFC 3339 text (`DateTime::parse_from_rfc3339`).
    pub fn parse_rfc3339(text: &str) -> (r: Option<Timestamp>)
        ensures
            r matches Some(t) ==> rfc3339_parsed(text@) == Some(t@),
            r is Some <==> rfc3339_parsed(text@) is Some,
            forall|secs: i64, nanos: u32|
                four_digit_year(secs, nanos) && #[trigger] rfc3339_text(secs, nanos) == text@
                    ==> (r matches Some(t) && t@ == (secs, nanos)),
    {
        match parse_rfc3339(text) {
            Some((secs, nanos)) => Some(Timestamp { secs, nanos }),
            None => None,
        }
    }
}

} // verus!
