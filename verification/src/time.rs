//! Points in time.
use vstd::prelude::*;

verus! {

/// A point in time: whole seconds since the Unix epoch, and the nanoseconds since then.
#[derive(Clone, Copy, Debug)]
pub struct Timestamp {
    pub secs: i64,
    pub nanos: u32,
}

/// What `chrono::DateTime::to_rfc3339` writes for the point in time that lies `secs` seconds and
/// `nanos` nanoseconds after the Unix epoch, in UTC; `None` where `chrono::DateTime` has no such
/// point in time.
pub uninterp spec fn rfc3339_text(secs: int, nanos: int) -> Option<Seq<char>>;

/// Calls `chrono::DateTime::to_rfc3339` on the point in time that
/// `chrono::DateTime::from_timestamp` makes of the two numbers. Claimed: which text comes out, or
/// that none does, depends on the two numbers alone.
#[verifier::external_body]
fn rfc3339(secs: i64, nanos: u32) -> (r: Option<String>)
    ensures
        r is Some <==> rfc3339_text(secs as int, nanos as int) is Some,
        r matches Some(s) ==> rfc3339_text(secs as int, nanos as int) == Some(s@),
{
    match chrono::DateTime::from_timestamp(secs, nanos) {
        Some(t) => Some(t.to_rfc3339()),
        None => None,
    }
}

/// Calls `chrono::Utc::now` and takes the seconds and nanoseconds of what it returns. Claimed:
/// they denote a point in time that can be written out, as the two numbers that
/// `chrono::DateTime` gives always lead back to it. Nothing is claimed of which point it is. The
/// function panics where the clock of the machine stands before the Unix epoch.
#[verifier::external_body]
pub(crate) fn utc_now() -> (r: Timestamp)
    ensures
        rfc3339_text(r.secs as int, r.nanos as int) is Some,
{
    let now = chrono::Utc::now();
    Timestamp { secs: now.timestamp(), nanos: now.timestamp_subsec_nanos() }
}

/// The text of an optional date: nothing for no date.
pub open spec fn date_text(date: Option<Timestamp>) -> Seq<char> {
    match date {
        Some(t) => match rfc3339_text(t.secs as int, t.nanos as int) {
            Some(s) => s,
            None => Seq::<char>::empty(),
        },
        None => Seq::<char>::empty(),
    }
}

/// Whether a date is a point in time that can be written out.
pub open spec fn is_date(date: Option<Timestamp>) -> bool {
    date matches Some(t) && rfc3339_text(t.secs as int, t.nanos as int) is Some
}

/// The text of an optional date.
pub fn format_date(date: &Option<Timestamp>) -> (r: String)
    ensures
        r@ == date_text(*date),
{
    match date {
        Some(t) => match rfc3339(t.secs, t.nanos) {
            Some(s) => s,
            None => String::new(),
        },
        None => String::new(),
    }
}

} // verus!
