//! How long ago an author says a post was made.
use crate::text::{decimal, push_char, push_decimal};
use vstd::prelude::*;
use vstd::string::StringExecFns;

verus! {

/// The age of a post made at `timestamp_ms`, seen at `now_ms`: "now" under
/// a minute, then whole minutes, hours or days; an author time in the
/// future is reported as such rather than underflowed.
pub open spec fn age_text(timestamp_ms: u64, now_ms: u64) -> Seq<char> {
    if timestamp_ms > now_ms {
        "future author time"@
    } else {
        let seconds = ((now_ms - timestamp_ms) / 1000) as nat;
        if seconds < 60 {
            "now"@
        } else if seconds < 3600 {
            decimal(seconds / 60).push('m')
        } else if seconds < 86400 {
            decimal(seconds / 3600).push('h')
        } else {
            decimal(seconds / 86400).push('d')
        }
    }
}

pub fn age(timestamp_ms: u64, now_ms: u64) -> (s: String)
    ensures
        s@ == age_text(timestamp_ms, now_ms),
{
    if timestamp_ms > now_ms {
        return String::from_str("future author time");
    }
    let seconds = (now_ms - timestamp_ms) / 1000;
    if seconds < 60 {
        return String::from_str("now");
    }
    let mut s = String::new();
    let (count, unit) = if seconds < 3600 {
        (seconds / 60, 'm')
    } else if seconds < 86400 {
        (seconds / 3600, 'h')
    } else {
        (seconds / 86400, 'd')
    };
    push_decimal(&mut s, count as u128);
    push_char(&mut s, unit);
    assert(s@ =~= decimal(count as nat).push(unit));
    s
}

} // verus!
