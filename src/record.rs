use vstd::prelude::*;

verus! {

/// Seconds in one day.
pub const SECONDS_PER_DAY: i64 = 86400;

/// The UTC calendar day of an instant given in seconds since the Unix epoch,
/// counted in days since 1970-01-01 (days before it are negative).
pub open spec fn day_of_seconds(utc_seconds: int) -> int {
    utc_seconds / 86400
}

/// A point in time as written in a log line: the instant, in seconds since the
/// Unix epoch, and the UTC offset, in seconds, that the line gave it in.
#[derive(Clone, Copy, Debug, PartialEq, Eq, Structural)]
pub struct Timestamp {
    pub utc_seconds: i64,
    pub offset_seconds: i32,
}

impl Timestamp {
    pub open spec fn day(&self) -> int {
        day_of_seconds(self.utc_seconds as int)
    }

    /// The UTC calendar day of this instant, in days since 1970-01-01.
    pub fn utc_day(&self) -> (d: i64)
        ensures
            d as int == self.day(),
    {
        let s = self.utc_seconds;
        assert(i64::MIN <= s as int / 86400 <= i64::MAX) by (nonlinear_arith)
            requires
                i64::MIN <= s <= i64::MAX,
        ;
        match s.checked_div_euclid(SECONDS_PER_DAY) {
            Some(d) => d,
            None => 0,
        }
    }
}

/// One entry of an access log.
#[derive(Clone, Debug)]
pub struct Record {
    pub ip: String,
    pub timestamp: Timestamp,
    pub path: String,
    pub status: i32,
    pub referrer: String,
    pub user_agent: String,
}

impl Record {
    /// The UTC calendar day on which the request was made.
    pub open spec fn day(&self) -> int {
        self.timestamp.day()
    }

    /// A copy of this record, field for field.
    pub fn duplicate(&self) -> (r: Record)
        ensures
            r == *self,
    {
        Record {
            ip: self.ip.clone(),
            timestamp: self.timestamp,
            path: self.path.clone(),
            status: self.status,
            referrer: self.referrer.clone(),
            user_agent: self.user_agent.clone(),
        }
    }
}

/// What a run keeps and how it groups requests.
#[derive(Clone, Copy, Debug, PartialEq, Eq, Structural)]
pub struct Config {
    pub ignore_query_params: bool,
    pub include_errors: bool,
    pub include_media: bool,
    pub include_crawlers: bool,
}

} // verus!
