use sprig::clock::{placed, AuthedUser};
use sprig::errors::ServiceError;
use sprig::time::{EasyDate, EasyDateTime, EasyTime, LocalDateTime};

fn tokyo() -> AuthedUser {
    AuthedUser { id: 1, tz: String::from("Asia/Tokyo") }
}

fn new_york() -> AuthedUser {
    AuthedUser { id: 2, tz: String::from("America/New_York") }
}

fn easy(y: Option<i32>, m: Option<i32>, d: Option<i32>, h: Option<i32>, mi: Option<i32>) -> EasyDateTime {
    EasyDateTime { date: Some(EasyDate { y: y, m: m, d: d }), time: Some(EasyTime { h: h, m: mi }) }
}

// 2021-01-07 06:13:20 UTC, which is 15:13 in Tokyo
const NOW: i64 = 1_610_000_000;

#[test]
fn present_in_tokyo() {
    assert_eq!(tokyo().present(NOW), Some(LocalDateTime { year: 2021, month: 1, day: 7, hour: 15, minute: 13 }));
    assert_eq!(AuthedUser { id: 1, tz: String::from("Nowhere/Land") }.present(NOW), None);
}

#[test]
fn nothing_written_is_today_at_midnight() {
    let nothing = EasyDateTime { date: None, time: None };
    assert_eq!(tokyo().globalize(&nothing, NOW), Ok(1_609_945_200));
    assert_eq!(tokyo().localize(1_609_945_200), "2021/01/07T00:00");
    let no_date = EasyDateTime { date: None, time: Some(EasyTime { h: None, m: None }) };
    assert_eq!(tokyo().globalize(&no_date, NOW), Ok(1_609_945_200));
}

#[test]
fn a_date_without_parts_is_the_first_day_of_the_year() {
    let all_absent = easy(None, None, None, None, None);
    assert_eq!(tokyo().globalize(&all_absent, NOW), Ok(1_609_426_800));
    assert_eq!(tokyo().localize(1_609_426_800), "2021/01/01T00:00");
}

#[test]
fn a_minute_alone_is_this_hour() {
    let minute = EasyDateTime { date: None, time: Some(EasyTime { h: None, m: Some(5) }) };
    let instant = tokyo().globalize(&minute, NOW).unwrap();
    assert_eq!(tokyo().localize(instant), "2021/01/07T15:05");
}

#[test]
fn parts_left_out_are_taken_from_now() {
    let now = LocalDateTime { year: 2021, month: 3, day: 9, hour: 15, minute: 13 };
    let day_only = EasyDateTime { date: Some(EasyDate { y: None, m: None, d: Some(30) }), time: None };
    assert_eq!(day_only.complete(&now), LocalDateTime { year: 2021, month: 3, day: 30, hour: 0, minute: 0 });
    let month_only = EasyDateTime { date: Some(EasyDate { y: None, m: Some(12), d: None }), time: None };
    assert_eq!(month_only.complete(&now), LocalDateTime { year: 2021, month: 12, day: 1, hour: 0, minute: 0 });
    let year_only = EasyDateTime { date: Some(EasyDate { y: Some(2025), m: None, d: None }), time: None };
    assert_eq!(year_only.complete(&now), LocalDateTime { year: 2025, month: 1, day: 1, hour: 0, minute: 0 });
    let hour_only = EasyDateTime { date: None, time: Some(EasyTime { h: Some(6), m: None }) };
    assert_eq!(hour_only.complete(&now), LocalDateTime { year: 2021, month: 3, day: 9, hour: 6, minute: 0 });
    let date_and_hour = easy(None, None, None, Some(6), None);
    assert_eq!(date_and_hour.complete(&now), LocalDateTime { year: 2021, month: 3, day: 9, hour: 6, minute: 0 });
    let bare_date = EasyDateTime { date: Some(EasyDate::default()), time: None };
    assert_eq!(bare_date.complete(&now), LocalDateTime { year: 2021, month: 1, day: 1, hour: 0, minute: 0 });
    let nothing = EasyDateTime::default();
    assert_eq!(nothing.complete(&now), LocalDateTime { year: 2021, month: 3, day: 9, hour: 0, minute: 0 });
    let minute = EasyDateTime { date: None, time: Some(EasyTime { h: None, m: Some(5) }) };
    assert_eq!(minute.complete(&now), LocalDateTime { year: 2021, month: 3, day: 9, hour: 15, minute: 5 });
}

#[test]
fn a_minute_that_the_clock_shows_twice() {
    let twice = easy(Some(2021), Some(11), Some(7), Some(1), Some(30));
    assert_eq!(
        new_york().globalize(&twice, NOW),
        Err(ServiceError::BadRequest(String::from("failed to interpret datetime.")))
    );
    let never = easy(Some(2021), Some(3), Some(14), Some(2), Some(30));
    assert!(new_york().globalize(&never, NOW).is_err());
    let once = easy(Some(2021), Some(11), Some(7), Some(3), Some(30));
    assert_eq!(new_york().globalize(&once, NOW), Ok(1_636_273_800));
}

#[test]
fn a_day_that_is_not_in_the_calendar() {
    let wrong = easy(Some(2021), Some(2), Some(30), Some(1), Some(0));
    assert!(tokyo().globalize(&wrong, NOW).is_err());
    let hour = easy(Some(2021), Some(2), Some(3), Some(24), Some(0));
    assert!(tokyo().globalize(&hour, NOW).is_err());
    assert!(AuthedUser { id: 1, tz: String::from("Nowhere/Land") }.globalize(&wrong, NOW).is_err());
}

#[test]
fn an_instant_as_it_is_written() {
    assert_eq!(tokyo().localize(NOW), "2021/01/07T15:13");
    assert_eq!(new_york().localize(NOW), "2021/01/07T01:13");
    assert_eq!(AuthedUser { id: 1, tz: String::from("Nowhere/Land") }.localize(NOW), "");
    assert_eq!(placed(Some(5)), Ok(5));
    assert_eq!(placed(None), Err(ServiceError::BadRequest(String::from("failed to interpret datetime."))));
}

#[test]
fn the_ends_of_the_calendar_show_no_moment() {
    // the last second that the calendar holds, and the first
    let last: i64 = 8_210_266_876_799;
    let first: i64 = -8_334_601_228_800;
    assert_eq!(tokyo().present(last), None);
    assert_eq!(tokyo().localize(last), "");
    assert_eq!(new_york().present(first), None);
    assert_eq!(new_york().localize(first), "");
    assert_eq!(tokyo().present(i64::MAX), None);
    assert_eq!(new_york().present(i64::MIN), None);
    assert!(tokyo().present(last - 86_400).is_some());
    assert!(new_york().present(first + 86_400).is_some());
    assert!(new_york().present(last).is_some());
    assert!(tokyo().present(first).is_some());
}

#[test]
fn a_negative_part_is_no_moment() {
    let bad = Err(ServiceError::BadRequest(String::from("failed to interpret datetime.")));
    assert_eq!(tokyo().globalize(&easy(Some(2021), Some(-1), Some(7), None, None), NOW), bad);
    assert_eq!(tokyo().globalize(&easy(None, None, None, Some(3), Some(-5)), NOW), bad);
    assert!(!easy(None, None, Some(-1), None, None).is_plain());
    assert!(easy(Some(-1), None, Some(1), None, None).is_plain());
    assert!(tokyo().globalize(&easy(Some(2021), Some(1), Some(7), Some(9), Some(5)), NOW).is_ok());
}
