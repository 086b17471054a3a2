//! Points in time, as whole seconds since the start of 1970 in UTC.

use chrono::TimeZone;
use vstd::prelude::*;

verus! {

/// The first second that can be written out in any zone.
pub const EARLIEST: i64 = -8_334_601_142_400;

/// The last second that can be written out in any zone.
pub const LATEST: i64 = 8_210_266_790_399;

/// Whether a time can be written out in any zone.
pub open spec fn writable(seconds: i64) -> bool {
    EARLIEST <= seconds <= LATEST
}

/// Whether a time can be written out in any zone.
pub fn is_writable(seconds: i64) -> (yes: bool)
    ensures
        yes == writable(seconds),
{
    EARLIEST <= seconds && seconds <= LATEST
}

/// A time as chrono writes it in RFC 3339, with whole seconds, in the zone that is
/// `offset` seconds ahead of UTC.
pub uninterp spec fn rfc3339(seconds: i64, offset: i32) -> Seq<char>;

/// `chrono::DateTime::to_rfc3339_opts` on a time in a fixed zone, with whole
/// seconds and `Z` for UTC. Only times a day or more inside chrono's range are
/// accepted: on others it can panic.
#[verifier::external_body]
fn rfc3339_text(seconds: i64, offset: i32) -> (text: String)
    requires
        writable(seconds),
        -86_400 < offset < 86_400,
    ensures
        text@ == rfc3339(seconds, offset),
{
    let zone = chrono::FixedOffset::east_opt(offset);
    let time = chrono::DateTime::from_timestamp(seconds, 0);
    time.zip(zone)
        .map(|(time, zone)| time.with_timezone(&zone))
        .map(|time| time.to_rfc3339_opts(chrono::SecondsFormat::Secs, true))
        .unwrap_or_default()
}

/// `chrono::Local` tells how many seconds local time is ahead of UTC at a time: less
/// than a day either way. Which zone is local is up to the machine, so nothing more
/// is claimed, and on a machine whose zone data is broken chrono panics.
#[verifier::external_body]
fn local_offset(seconds: i64) -> (offset: i32)
    requires
        writable(seconds),
    ensures
        -86_400 < offset < 86_400,
{
    chrono::DateTime::from_timestamp(seconds, 0)
        .map(|time| chrono::Local.offset_from_utc_datetime(&time.naive_utc()))
        .map(|offset| offset.local_minus_utc())
        .unwrap_or_default()
}

/// Whether local time can be `offset` seconds ahead of UTC at a time, as far as the
/// machine says.
pub closed spec fn local_at(seconds: i64, offset: i32) -> bool {
    call_ensures(local_offset, (seconds,), offset)
}

/// Whether `text` is the time in RFC 3339, in local time.
pub open spec fn written(seconds: i64, text: Seq<char>) -> bool {
    exists|offset: i32| #[trigger]
        local_at(seconds, offset) && text == rfc3339(seconds, offset)
}

/// Whether two texts are one and the same time in RFC 3339, each in local time.
pub open spec fn same_instant(a: Seq<char>, b: Seq<char>) -> bool {
    exists|seconds: i64| #[trigger] written(seconds, a) && written(seconds, b)
}

/// A time in RFC 3339, in the zone that is `offset` seconds ahead of UTC.
pub fn format_in_zone(seconds: i64, offset: i32) -> (text: String)
    requires
        writable(seconds),
        -86_400 < offset < 86_400,
    ensures
        text@ == rfc3339(seconds, offset),
{
    rfc3339_text(seconds, offset)
}

/// A time in RFC 3339, in local time.
pub fn format_local(seconds: i64) -> (text: String)
    requires
        writable(seconds),
    ensures
        written(seconds, text@),
{
    let offset = local_offset(seconds);
    proof {
        assert(local_at(seconds, offset));
    }
    format_in_zone(seconds, offset)
}

/// Local time is the very second asked for, written in some zone less than a day from UTC.
pub proof fn local_time_is_the_time(seconds: i64, text: String)
    requires
        call_ensures(format_local, (seconds,), text),
    ensures
        exists|offset: i32|
            -86_400 < offset < 86_400 && text@ == #[trigger] rfc3339(seconds, offset),
{
    let offset = choose|offset: i32| #[trigger]
        local_at(seconds, offset) && text@ == rfc3339(seconds, offset);
    assert(text@ == rfc3339(seconds, offset));
}

} // verus!
