//! How long ago a moment was, in words.

use vstd::prelude::*;
use vstd::string::StringExecFns;
use crate::decimal::{decimal_text, push_decimal};

verus! {

pub const SECONDS_PER_MINUTE: u64 = 60;

pub const SECONDS_PER_HOUR: u64 = 3600;

pub const SECONDS_PER_DAY: u64 = 86400;

/// The whole seconds from `timestamp` to `now`. A moment that lies in the
/// future counts as the present.
pub open spec fn elapsed_seconds(timestamp: int, now: int) -> nat {
    if now > timestamp {
        (now - timestamp) as nat
    } else {
        0
    }
}

/// `n` of a unit, in words: the unit takes an `s` unless `n` is one.
pub open spec fn counted(n: nat, unit: Seq<char>) -> Seq<char> {
    decimal_text(n) + unit + if n == 1 {
        " ago"@
    } else {
        "s ago"@
    }
}

/// The age `elapsed`, given in seconds, in words. Only whole units count.
pub open spec fn relative_time_text(elapsed: nat) -> Seq<char> {
    let minutes = elapsed / (SECONDS_PER_MINUTE as nat);
    let hours = elapsed / (SECONDS_PER_HOUR as nat);
    let days = elapsed / (SECONDS_PER_DAY as nat);
    if days == 0 {
        if hours == 0 {
            if minutes <= 1 {
                "just now"@
            } else {
                decimal_text(minutes) + " minutes ago"@
            }
        } else {
            decimal_text(hours) + " hours ago"@
        }
    } else if days == 1 {
        "yesterday"@
    } else if days < 7 {
        decimal_text(days) + " days ago"@
    } else if days < 30 {
        counted(days / 7, " week"@)
    } else if days < 365 {
        counted(days / 30, " month"@)
    } else {
        counted(days / 365, " year"@)
    }
}

fn numbered(n: u64, rest: &str) -> (r: String)
    ensures
        r@ == decimal_text(n as nat) + rest@,
{
    let mut r = String::new();
    push_decimal(&mut r, n);
    r.append(rest);
    r
}

fn counted_text(n: u64, unit: &str) -> (r: String)
    ensures
        r@ == counted(n as nat, unit@),
{
    let mut r = numbered(n, unit);
    if n == 1 {
        r.append(" ago");
    } else {
        r.append("s ago");
    }
    r
}

/// The whole seconds from `timestamp` to `now`, zero where `timestamp` is
/// the later of the two.
pub fn seconds_between(timestamp: i64, now: i64) -> (r: u64)
    ensures
        r == elapsed_seconds(timestamp as int, now as int),
{
    if now > timestamp {
        (now as i128 - timestamp as i128) as u64
    } else {
        0
    }
}

/// Says in words how long before `now` the moment `timestamp` was; both are
/// seconds since the epoch.
pub fn format_relative(timestamp: i64, now: i64) -> (r: String)
    ensures
        r@ == relative_time_text(elapsed_seconds(timestamp as int, now as int)),
{
    let elapsed: u64 = seconds_between(timestamp, now);
    let days: u64 = elapsed / SECONDS_PER_DAY;
    if days == 0 {
        let hours: u64 = elapsed / SECONDS_PER_HOUR;
        if hours == 0 {
            let minutes: u64 = elapsed / SECONDS_PER_MINUTE;
            if minutes <= 1 {
                return "just now".to_owned();
            }
            return numbered(minutes, " minutes ago");
        }
        return numbered(hours, " hours ago");
    }
    if days == 1 {
        return "yesterday".to_owned();
    }
    if days < 7 {
        return numbered(days, " days ago");
    }
    if days < 30 {
        return counted_text(days / 7, " week");
    }
    if days < 365 {
        return counted_text(days / 30, " month");
    }
    counted_text(days / 365, " year")
}

/// The present moment in whole seconds since the epoch, as `chrono::Utc::now`
/// reads it from the system clock and `DateTime::timestamp` counts it.
/// The value differs from call to call, so nothing is claimed of it.
#[verifier::external_body]
fn current_timestamp() -> i64 {
    chrono::Utc::now().timestamp()
}

/// Says in words how long ago the moment `timestamp` was, by the system
/// clock.
pub fn format_relative_time(timestamp: i64) -> (r: String)
    ensures
        exists|now: i64| r@ == relative_time_text(elapsed_seconds(timestamp as int, now as int)),
{
    let now: i64 = current_timestamp();
    format_relative(timestamp, now)
}

} // verus!
