use vstd::prelude::*;

verus! {

/// Lowest timestamp (seconds since the Unix epoch) that the library
/// formats. Lies well inside the range that chrono can represent.
pub const TS_MIN: i64 = -8_000_000_000_000;

/// Highest timestamp (seconds since the Unix epoch) that the library
/// formats. Lies well inside the range that chrono can represent.
pub const TS_MAX: i64 = 8_000_000_000_000;

/// A timestamp that the formatter accepts.
pub open spec fn ts_in_range(ts: i64) -> bool {
    TS_MIN <= ts <= TS_MAX
}

/// The RFC 3339 rendering (UTC, second precision, trailing "Z") of a
/// timestamp given as seconds since the Unix epoch.
pub uninterp spec fn rfc3339_of(ts: i64) -> Seq<char>;

/// Relies on chrono's `DateTime::<Utc>::from_timestamp` and
/// `to_rfc3339_opts(SecondsFormat::Secs, true)`: the rendering depends on
/// the seconds value alone, `from_timestamp` returns `Some` for every value
/// within chrono's representable range (which contains `TS_MIN..=TS_MAX`),
/// and RFC 3339 text never holds a newline.
#[verifier::external_body]
pub(crate) fn rfc3339_utc_secs(ts: i64) -> (r: String)
    requires
        ts_in_range(ts),
    ensures
        r@ == rfc3339_of(ts),
        forall|i: int| 0 <= i < r@.len() ==> r@[i] != '\n',
{
    let dt = chrono::DateTime::<chrono::Utc>::from_timestamp(ts, 0).unwrap();
    dt.to_rfc3339_opts(chrono::SecondsFormat::Secs, true)
}

} // verus!
