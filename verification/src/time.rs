use vstd::prelude::*;

verus! {

/// The instant an RFC 3339 string denotes, as whole seconds since the
/// Unix epoch together with the subsecond nanoseconds, or nothing when
/// the string does not parse as RFC 3339. The result is a function of
/// the characters alone.
pub uninterp spec fn rfc3339_instant(s: Seq<char>) -> Option<(i64, u32)>;

/// Strict ordering of parsed instants: earlier seconds, or equal seconds
/// and fewer nanoseconds.
pub open spec fn instant_lt(a: (i64, u32), b: (i64, u32)) -> bool {
    a.0 < b.0 || (a.0 == b.0 && a.1 < b.1)
}

/// Relies on chrono's `DateTime::parse_from_rfc3339` (and, on the parsed
/// value, `timestamp` and `timestamp_subsec_nanos`) to read an RFC 3339
/// string as an instant; the outcome depends only on the input string.
#[verifier::external_body]
pub(crate) fn parse_rfc3339(s: &str) -> (r: Option<(i64, u32)>)
    ensures
        r == rfc3339_instant(s@),
{
    match chrono::DateTime::parse_from_rfc3339(s) {
        Ok(dt) => Some((dt.timestamp(), dt.timestamp_subsec_nanos())),
        Err(_) => None,
    }
}

/// Relies on chrono's `DateTime::from_timestamp` and `to_rfc3339` to
/// render the current time as an RFC 3339 string. The clock is read
/// defensively: a time before the epoch or beyond chrono's calendar range
/// falls back to the epoch, and the rendered string is checked with
/// chrono's own strict parser (a year past 9999 renders with five digits,
/// which that parser refuses), falling back to the epoch's fixed
/// rendering — so the result parses as RFC 3339 whatever the clock said.
#[verifier::external_body]
pub(crate) fn utc_now_iso() -> (r: String)
    ensures
        rfc3339_instant(r@) is Some,
{
    let dt: chrono::DateTime<chrono::Utc> = std::time::SystemTime::now()
        .duration_since(std::time::UNIX_EPOCH)
        .ok()
        .and_then(|d| i64::try_from(d.as_secs()).ok().zip(Some(d.subsec_nanos())))
        .and_then(|(secs, nanos)| chrono::DateTime::from_timestamp(secs, nanos))
        .unwrap_or_default();
    let rendered = dt.to_rfc3339();
    if chrono::DateTime::parse_from_rfc3339(&rendered).is_ok() {
        rendered
    } else {
        String::from("1970-01-01T00:00:00+00:00")
    }
}

/// Whether a stored timestamp parses as RFC 3339.
pub fn timestamp_is_valid(s: &str) -> (r: bool)
    ensures
        r == (rfc3339_instant(s@) is Some),
{
    parse_rfc3339(s).is_some()
}

/// Exec comparison of two parsed instants, `a` strictly before `b`.
pub(crate) fn instant_before(a: (i64, u32), b: (i64, u32)) -> (r: bool)
    ensures
        r == instant_lt(a, b),
{
    a.0 < b.0 || (a.0 == b.0 && a.1 < b.1)
}

} // verus!
