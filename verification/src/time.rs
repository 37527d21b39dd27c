//! Points in time.

use vstd::prelude::*;

use crate::text::{number_text, push_number, with_number};

verus! {

/// The seconds between the epoch of Windows file times and that of Unix.
pub const WINDOWS_TO_UNIX_SECONDS: i64 = 11_644_473_600;

/// A point in time: seconds since 1970 and the nanoseconds on top of them.
#[derive(Debug, Clone, Copy, PartialEq, Eq, Structural)]
pub struct Timestamp {
    pub secs: i64,
    pub nanos: u32,
}

impl Timestamp {
    /// Nanoseconds since 1970.
    pub open spec fn total(self) -> int {
        self.secs * 1_000_000_000 + self.nanos
    }

    /// Whether this time is earlier than `other`; on a tie of the seconds the
    /// nanoseconds decide.
    pub open spec fn is_before(self, other: Timestamp) -> bool {
        self.secs < other.secs || (self.secs == other.secs && self.nanos < other.nanos)
    }

    pub fn before(self, other: Timestamp) -> (r: bool)
        ensures
            r == self.is_before(other),
    {
        self.secs < other.secs || (self.secs == other.secs && self.nanos < other.nanos)
    }

    pub open spec fn spec_earlier(self, other: Timestamp) -> Timestamp {
        if other.is_before(self) {
            other
        } else {
            self
        }
    }

    /// The earlier of two times.
    pub fn earlier(self, other: Timestamp) -> (r: Timestamp)
        ensures
            r == self.spec_earlier(other),
    {
        if other.before(self) {
            other
        } else {
            self
        }
    }

    pub open spec fn spec_later(self, other: Timestamp) -> Timestamp {
        if self.is_before(other) {
            other
        } else {
            self
        }
    }

    /// The later of two times.
    pub fn later(self, other: Timestamp) -> (r: Timestamp)
        ensures
            r == self.spec_later(other),
    {
        if self.before(other) {
            other
        } else {
            self
        }
    }
}

/// The order of times is that of their nanoseconds since 1970, where those on
/// top of the seconds are fewer than a second.
pub proof fn law_time_order(a: Timestamp, b: Timestamp)
    requires
        a.nanos < 1_000_000_000,
        b.nanos < 1_000_000_000,
    ensures
        a.is_before(b) <==> a.total() < b.total(),
{
}

/// The time that a Windows file time, in steps of 100 nanoseconds since 1601,
/// stands for. Before 1601 whole seconds alone count, towards 1601.
pub open spec fn of_filetime(filetime: int) -> Timestamp {
    if filetime >= 0 {
        Timestamp {
            secs: (filetime / 10_000_000 - WINDOWS_TO_UNIX_SECONDS) as i64,
            nanos: (filetime % 10_000_000 * 100) as u32,
        }
    } else {
        Timestamp { secs: (-(-filetime / 10_000_000) - WINDOWS_TO_UNIX_SECONDS) as i64, nanos: 0 }
    }
}

pub fn filetime_to_datetime(filetime: i64) -> (r: Timestamp)
    ensures
        r == of_filetime(filetime as int),
        r.nanos < 1_000_000_000,
{
    if filetime >= 0 {
        let ticks: u64 = filetime as u64;
        Timestamp {
            secs: (ticks / 10_000_000) as i64 - WINDOWS_TO_UNIX_SECONDS,
            nanos: (ticks % 10_000_000 * 100) as u32,
        }
    } else {
        let ticks: u64 = (-(filetime + 1)) as u64 + 1;
        assert(ticks == -filetime);
        Timestamp { secs: -((ticks / 10_000_000) as i64) - WINDOWS_TO_UNIX_SECONDS, nanos: 0 }
    }
}

/// A file time from 1601 on is kept to the step.
pub proof fn law_filetime_exact(filetime: int)
    requires
        0 <= filetime <= i64::MAX,
    ensures
        of_filetime(filetime).total() == filetime * 100 - WINDOWS_TO_UNIX_SECONDS * 1_000_000_000,
{
}

/// The time from `earlier` to `later` in nanoseconds.
fn nanos_between(earlier: Timestamp, later: Timestamp) -> (r: i128)
    ensures
        r == later.total() - earlier.total(),
{
    let a: i128 = later.secs as i128 * 1_000_000_000 + later.nanos as i128;
    let b: i128 = earlier.secs as i128 * 1_000_000_000 + earlier.nanos as i128;
    a - b
}

/// What the age of the oldest entry says of a journal.
pub open spec fn age_status(oldest: Option<Timestamp>, now: Timestamp) -> Seq<char> {
    match oldest {
        None => "Journal active (age unknown)"@,
        Some(time) => {
            let age = now.total() - time.total();
            if age < 24 * 3_600 * 1_000_000_000 {
                "Journal active <24h (Likely cleared)"@
            } else if age < 14 * 24 * 3_600 * 1_000_000_000 {
                "Journal active <14d (Possible overwrite)"@
            } else {
                "Journal active >14d (Normal)"@
            }
        },
    }
}

pub fn classify_age_status(oldest: Option<Timestamp>, now: Timestamp) -> (r: String)
    ensures
        r@ == age_status(oldest, now),
{
    match oldest {
        None => "Journal active (age unknown)".to_string(),
        Some(time) => {
            let age: i128 = nanos_between(time, now);
            if age < 24 * 3_600 * 1_000_000_000 {
                "Journal active <24h (Likely cleared)".to_string()
            } else if age < 14 * 24 * 3_600 * 1_000_000_000 {
                "Journal active <14d (Possible overwrite)".to_string()
            } else {
                "Journal active >14d (Normal)".to_string()
            }
        },
    }
}

/// How long ago `value` was, in words.
pub open spec fn humanized_age(value: Timestamp, now: Timestamp) -> Seq<char> {
    let seconds = (now.total() - value.total()) / 1_000_000_000;
    if seconds <= 30 {
        "только что"@
    } else {
        let minutes = seconds / 60;
        let days = minutes / 1440;
        let hours = minutes % 1440 / 60;
        let rest = (minutes % 60) as nat;
        if days > 0 {
            with_number(
                with_number(with_number(""@, days as nat, " д "@), hours as nat, " ч "@),
                rest,
                " мин назад"@,
            )
        } else if hours > 0 {
            with_number(with_number(""@, hours as nat, " ч "@), rest, " мин назад"@)
        } else {
            with_number(""@, rest, " мин назад"@)
        }
    }
}

pub fn humanize_age_since(value: Timestamp, now: Timestamp) -> (r: String)
    ensures
        r@ == humanized_age(value, now),
{
    let nanos: i128 = nanos_between(value, now);
    if nanos < 31_000_000_000 {
        return "только что".to_string();
    }
    let seconds: u128 = (nanos as u128) / 1_000_000_000;
    let minutes: u64 = (seconds / 60) as u64;
    let days: u64 = minutes / 1440;
    let hours: u64 = minutes % 1440 / 60;
    let rest: u64 = minutes % 60;
    if days > 0 {
        let mut out = number_text("", days, " д ");
        push_number(&mut out, hours, " ч ");
        push_number(&mut out, rest, " мин назад");
        return out;
    }
    if hours > 0 {
        let mut out = number_text("", hours, " ч ");
        push_number(&mut out, rest, " мин назад");
        return out;
    }
    number_text("", rest, " мин назад")
}

} // verus!
