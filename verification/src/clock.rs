//! The current time, as RFC 3339 text.
use vstd::prelude::*;

verus! {

/// Calls std's `SystemTime::now().duration_since(UNIX_EPOCH)` and splits
/// the duration into whole seconds and nanoseconds (`as_secs`,
/// `subsec_nanos`); `None` when the system clock reads before 1970. Which
/// time it is is not stated; the nanoseconds are below one second, as
/// `subsec_nanos` documents.
#[verifier::external_body]
fn unix_time() -> (r: Option<(u64, u32)>)
    ensures
        r matches Some(t) ==> t.1 < 1_000_000_000,
{
    match std::time::SystemTime::now().duration_since(std::time::UNIX_EPOCH) {
        Ok(d) => Some((d.as_secs(), d.subsec_nanos())),
        Err(_) => None,
    }
}

/// What chrono's `DateTime::<Utc>::from_timestamp(secs, nanos)` followed
/// by `to_rfc3339` gives: the text, or `None` when the instant is out of
/// chrono's range.
pub uninterp spec fn rfc3339_at(secs: i64, nanos: u32) -> Option<Seq<char>>;

/// Calls chrono's `DateTime::<Utc>::from_timestamp(secs, nanos)` and, on
/// an instant in range, `to_rfc3339`. The text names the date first, so it
/// is never empty.
#[verifier::external_body]
fn rfc3339_of(secs: i64, nanos: u32) -> (r: Option<String>)
    ensures
        match r {
            Some(s) => rfc3339_at(secs, nanos) == Some(s@) && s@.len() > 0,
            None => rfc3339_at(secs, nanos) is None,
        },
{
    match chrono::DateTime::from_timestamp(secs, nanos) {
        Some(d) => Some(d.to_rfc3339()),
        None => None,
    }
}

/// `s` is chrono's RFC 3339 text for some instant (whole seconds and
/// nanoseconds below one second).
pub open spec fn clock_text(s: Seq<char>) -> bool {
    exists|secs: i64, n: u32| n < 1_000_000_000 && #[trigger] rfc3339_at(secs, n) == Some(s)
}

/// A record's time: chrono's RFC 3339 text for some instant, or empty
/// text (when the clock could not be read).
pub open spec fn stamp(s: Seq<char>) -> bool {
    s.len() == 0 || clock_text(s)
}

/// The RFC 3339 text for a clock reading (seconds and nanoseconds since
/// 1970): `None` when there is no reading, when the seconds exceed what an
/// `i64` holds, or when chrono cannot write the instant.
pub fn rfc3339_from(t: Option<(u64, u32)>) -> (r: Option<String>)
    ensures
        r matches Some(s) ==> s@.len() > 0,
        match t {
            None => r is None,
            Some(p) => if p.0 <= i64::MAX {
                &&& r matches Some(s) ==> rfc3339_at(p.0 as i64, p.1) == Some(s@)
                &&& (r is None <==> rfc3339_at(p.0 as i64, p.1) is None)
            } else {
                r is None
            },
        },
{
    match t {
        Some(p) => {
            if p.0 <= 0x7fff_ffff_ffff_ffffu64 {
                let secs: i64 = p.0 as i64;
                rfc3339_of(secs, p.1)
            } else {
                None
            }
        },
        None => None,
    }
}

/// The current UTC time as RFC 3339 text; `None` when the system clock
/// reads before 1970 or beyond what chrono can write.
pub fn now_rfc3339() -> (r: Option<String>)
    ensures
        r matches Some(s) ==> s@.len() > 0 && clock_text(s@),
{
    let t = unix_time();
    let r = rfc3339_from(t);
    proof {
        if r is Some {
            let s = r->0;
            let p = t->0;
            let secs = p.0 as i64;
            assert(rfc3339_at(secs, p.1) == Some(s@));
            assert(p.1 < 1_000_000_000);
            assert(clock_text(s@));
        }
    }
    r
}

/// The current time for a record: RFC 3339 text, or empty text when the
/// clock cannot be read (see `now_rfc3339`).
pub fn timestamp() -> (r: String)
    ensures
        stamp(r@),
{
    match now_rfc3339() {
        Some(s) => s,
        None => String::new(),
    }
}

} // verus!
