//! The user whom a request comes from, and what the calendar of the user's
//! time zone says.

use vstd::prelude::*;
use crate::errors::ServiceError;
use crate::time::{EasyDateTime, LocalDateTime};

verus! {

/// Who a request comes from: the user's id, and the name of the user's time zone.
#[derive(Debug, Clone, PartialEq, Eq)]
pub struct AuthedUser {
    pub id: i64,
    pub tz: String,
}

/// The one instant, in seconds since the epoch, at which the calendar of
/// the time zone `zone` shows the given minute; `None` where the zone is
/// not known, the calendar has no such day or minute, or it shows the
/// minute never or twice.
pub uninterp spec fn instant_of(zone: Seq<char>, year: i32, month: u32, day: u32, hour: u32, minute: u32) -> Option<
    i64,
>;

/// The year, month, day, hour and minute that the calendar of the time
/// zone `zone` shows at `instant`; `None` where the zone is not known or the
/// instant lies beyond what the calendar covers.
pub uninterp spec fn local_of(zone: Seq<char>, instant: i64) -> Option<(i32, u32, u32, u32, u32)>;

/// How the calendar of the time zone `zone` writes `instant`, as year,
/// month and day between slashes, the letter `T`, and hour and minute around
/// a colon; `None` where the zone is not known or the instant lies beyond
/// what the calendar covers.
pub uninterp spec fn local_text(zone: Seq<char>, instant: i64) -> Option<Seq<char>>;

/// What is said of a date or time that cannot be placed.
pub open spec fn unplaced() -> Seq<char> {
    "failed to interpret datetime."@
}

/// The instant at which the calendar of `zone` shows the given minute.
/// The zone is looked up by `chrono_tz::Tz::from_str`, the minute is made by
/// `chrono::NaiveDate::from_ymd_opt` and `and_hms_opt`, and placed by
/// `chrono::TimeZone::from_local_datetime`; each of them can say no. It is
/// taken on trust that the same minute in the same zone gives the same instant.
#[verifier::external_body]
pub(crate) fn zone_instant(zone: &str, year: i32, month: u32, day: u32, hour: u32, minute: u32) -> (instant: Option<i64>)
    ensures
        instant == instant_of(zone@, year, month, day, hour, minute),
{
    let tz = zone.parse::<chrono_tz::Tz>().ok()?;
    let local = chrono::NaiveDate::from_ymd_opt(year, month, day)?.and_hms_opt(hour, minute, 0)?;
    match chrono::TimeZone::from_local_datetime(&tz, &local).single() {
        Some(moment) => Some(moment.timestamp()),
        None => None,
    }
}

/// What the calendar of `zone` shows at `instant`. The zone is looked up
/// by `chrono_tz::Tz::from_str`, the instant is made by
/// `chrono::DateTime::from_timestamp`, the zone's offset at that instant is
/// given by `chrono::TimeZone::offset_from_utc_datetime` and added by
/// `chrono::NaiveDateTime::checked_add_offset`; each of them but the offset
/// can say no. It is taken on trust that the same instant in the same zone
/// shows the same.
#[verifier::external_body]
pub(crate) fn zone_local(zone: &str, instant: i64) -> (local: Option<(i32, u32, u32, u32, u32)>)
    ensures
        local == local_of(zone@, instant),
{
    let tz = zone.parse::<chrono_tz::Tz>().ok()?;
    let utc = chrono::DateTime::from_timestamp(instant, 0)?.naive_utc();
    let offset = chrono::Offset::fix(&chrono::TimeZone::offset_from_utc_datetime(&tz, &utc));
    let shown = utc.checked_add_offset(offset)?;
    Some(
        (
            chrono::Datelike::year(&shown),
            chrono::Datelike::month(&shown),
            chrono::Datelike::day(&shown),
            chrono::Timelike::hour(&shown),
            chrono::Timelike::minute(&shown),
        ),
    )
}

/// How the calendar of `zone` writes `instant`: the local time is found as
/// in `zone_local`, by `chrono_tz::Tz::from_str`,
/// `chrono::DateTime::from_timestamp`,
/// `chrono::TimeZone::offset_from_utc_datetime` and
/// `chrono::NaiveDateTime::checked_add_offset`, and written by
/// `chrono::NaiveDateTime::format` with year, month, day, hour and minute.
/// It is taken on trust that the same instant in the same zone is written
/// the same.
#[verifier::external_body]
fn zone_text(zone: &str, instant: i64) -> (text: Option<String>)
    ensures
        text.deep_view() == local_text(zone@, instant),
{
    let tz = zone.parse::<chrono_tz::Tz>().ok()?;
    let utc = chrono::DateTime::from_timestamp(instant, 0)?.naive_utc();
    let offset = chrono::Offset::fix(&chrono::TimeZone::offset_from_utc_datetime(&tz, &utc));
    let shown = utc.checked_add_offset(offset)?;
    Some(shown.format("%Y/%m/%dT%H:%M").to_string())
}

/// The instant that was found for a date or time, or a bad request where none was.
pub fn placed(found: Option<i64>) -> (instant: Result<i64, ServiceError>)
    ensures
        match found {
            Some(t) => instant == Ok::<i64, ServiceError>(t),
            None => instant is Err && instant->Err_0 is BadRequest && instant->Err_0.message() == unplaced(),
        },
{
    match found {
        Some(t) => Ok(t),
        None => Err(ServiceError::BadRequest("failed to interpret datetime.".to_string())),
    }
}

/// What the calendar shows, as a moment.
pub open spec fn shown(parts: (i32, u32, u32, u32, u32)) -> LocalDateTime {
    LocalDateTime { year: parts.0, month: parts.1, day: parts.2, hour: parts.3, minute: parts.4 }
}

impl AuthedUser {
    /// The instant that `easy` stands for at the instant `now`, in the
    /// user's time zone: `None` where a part of it is negative or the
    /// calendar cannot place it.
    pub open spec fn instant(self, easy: EasyDateTime, now: i64) -> Option<i64> {
        if !easy.plain() {
            None
        } else {
            match local_of(self.tz@, now) {
                Some(parts) => {
                    let local = easy.completed(shown(parts));
                    instant_of(self.tz@, local.year, local.month, local.day, local.hour, local.minute)
                },
                None => None,
            }
        }
    }

    /// What the calendar of the user's time zone shows at `now`.
    pub fn present(&self, now: i64) -> (local: Option<LocalDateTime>)
        ensures
            local == match local_of(self.tz@, now) {
                Some(parts) => Some(shown(parts)),
                None => None,
            },
    {
        match zone_local(self.tz.as_str(), now) {
            Some((year, month, day, hour, minute)) => Some(LocalDateTime { year, month, day, hour, minute }),
            None => None,
        }
    }

    /// The instant that `easy` stands for at the instant `now`: its parts
    /// are completed from what the user's calendar shows now, and the result
    /// is placed in the user's time zone. Where a part is negative, or the
    /// calendar cannot place it, because it shows that minute never or
    /// twice, the request is bad.
    pub fn globalize(&self, easy: &EasyDateTime, now: i64) -> (instant: Result<i64, ServiceError>)
        ensures
            match self.instant(*easy, now) {
                Some(t) => instant == Ok::<i64, ServiceError>(t),
                None => instant is Err && instant->Err_0 is BadRequest && instant->Err_0.message() == unplaced(),
            },
    {
        if !easy.is_plain() {
            return placed(None);
        }
        match self.present(now) {
            Some(local_now) => {
                let local = easy.complete(&local_now);
                placed(zone_instant(self.tz.as_str(), local.year, local.month, local.day, local.hour, local.minute))
            },
            None => placed(None),
        }
    }

    /// How the user's calendar writes `instant`; no text where it cannot.
    pub fn localize(&self, instant: i64) -> (text: String)
        ensures
            text@ == match local_text(self.tz@, instant) {
                Some(written) => written,
                None => Seq::empty(),
            },
    {
        match zone_text(self.tz.as_str(), instant) {
            Some(text) => text,
            None => String::new(),
        }
    }
}

} // verus!
