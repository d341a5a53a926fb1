use sprig::errors::ServiceError;
use sprig::graph::{Arrow, Arrows};
use sprig::sorter::{floor_div, Allocation, Sorter};
use sprig::tasks::{ResTask, Schedule};
use sprig::windows::{overlap, Window};

// 2021-01-07 06:13:20 UTC
const NOW: i64 = 1_610_000_000;
// 2021-01-07 00:00:00 UTC
const MIDNIGHT: i64 = 1_609_977_600;

fn sorter() -> Sorter {
    Sorter {
        allocations: vec![
            Allocation { owner: 1, open_h: 9, open_m: 0, hours: 3 },
            Allocation { owner: 1, open_h: 13, open_m: 30, hours: 4 },
        ],
        now: NOW,
        tz: String::from("UTC"),
    }
}

fn task(id: i64, starred: bool, deadline: Option<i64>, weight: Option<i64>) -> ResTask {
    ResTask {
        id: id,
        title: format!("task {}", id),
        assign: String::from("satun"),
        is_archived: false,
        is_starred: starred,
        startable: None,
        deadline: deadline,
        priority: None,
        weight: weight,
        link: None,
        is_leaf: false,
        is_root: false,
        schedule: None,
    }
}

#[test]
fn rounding_down() {
    assert_eq!(floor_div(7, 2), (3, 1));
    assert_eq!(floor_div(-7, 2), (-4, 1));
    assert_eq!(floor_div(-8, 2), (-4, 0));
    assert_eq!(floor_div(0, 5), (0, 0));
    assert_eq!(floor_div(-1, 86_400), (-1, 86_399));
    assert_eq!(floor_div(i64::MIN, 1), (i64::MIN, 0));
}

#[test]
fn seconds_in_stretches() {
    let stretches = vec![Window { open: 10, close: 20 }, Window { open: 15, close: 30 }, Window { open: 50, close: 60 }];
    assert_eq!(overlap(&stretches, 0, 100), 30);
    assert_eq!(overlap(&stretches, 12, 55), 23);
    assert_eq!(overlap(&stretches, 30, 50), 0);
    assert_eq!(overlap(&stretches, 59, 59), 0);
    assert_eq!(overlap(&stretches, 70, 60), 0);
}

#[test]
fn a_day_of_work() {
    assert_eq!(sorter().daily(), 7 * 3600);
    assert_eq!(Sorter { allocations: vec![], now: NOW, tz: String::from("UTC") }.daily(), 0);
}

#[test]
fn windows_of_three_days() {
    let all = sorter().allocations_set(NOW, 0).unwrap();
    assert_eq!(all.len(), 6);
    assert_eq!(all[0], Window { open: MIDNIGHT - 86_400 + 9 * 3600, close: MIDNIGHT - 86_400 + 12 * 3600 });
    assert_eq!(all[3], Window { open: MIDNIGHT + 13 * 3600 + 1800, close: MIDNIGHT + 17 * 3600 + 1800 });
    assert_eq!(all[5].close, MIDNIGHT + 86_400 + 17 * 3600 + 1800);
    let tokyo = Sorter { tz: String::from("Asia/Tokyo"), ..sorter() };
    assert_eq!(tokyo.allocations_set(NOW, 0).unwrap()[2].open, MIDNIGHT);
    let nowhere = Sorter { tz: String::from("Nowhere/Land"), ..sorter() };
    assert_eq!(nowhere.allocations_set(NOW, 0), None);
}

#[test]
fn splice_counts_the_seconds_of_work() {
    let s = sorter();
    assert_eq!(s.splice(NOW), Some(0));
    // until 10:00 the same day: nothing before 09:00, then one hour
    assert_eq!(s.splice(MIDNIGHT + 10 * 3600), Some(3600));
    // until 14:00: three hours in the morning and half an hour after noon
    assert_eq!(s.splice(MIDNIGHT + 14 * 3600), Some(3 * 3600 + 1800));
    // a day later to the second: one day of work
    assert_eq!(s.splice(NOW + 86_400), Some(7 * 3600));
    // an hour ago, at 05:13:20: a day back, and what lies from then to there
    assert_eq!(s.splice(NOW - 3600), Some(-7 * 3600 + 7 * 3600));
    // yesterday at 15:00
    assert_eq!(s.splice(MIDNIGHT - 9 * 3600), Some(-7 * 3600 + 3 * 3600 + 5400));
    assert_eq!(s.splice(i64::MAX), None);
}

#[test]
fn unsplice_walks_through_the_windows() {
    let s = sorter();
    assert_eq!(s.unsplice(0), Some(MIDNIGHT + 9 * 3600));
    assert_eq!(s.unsplice(3600), Some(MIDNIGHT + 10 * 3600));
    assert_eq!(s.unsplice(3 * 3600), Some(MIDNIGHT + 12 * 3600));
    assert_eq!(s.unsplice(3 * 3600 + 1), Some(MIDNIGHT + 13 * 3600 + 1801));
    assert_eq!(s.unsplice(7 * 3600), Some(MIDNIGHT + 86_400 + 9 * 3600));
    assert_eq!(s.unsplice(-1), Some(MIDNIGHT - 86_400 + 17 * 3600 + 1799));
    assert_eq!(Sorter { allocations: vec![], now: NOW, tz: String::from("UTC") }.unsplice(5), None);
}

#[test]
fn unsplice_after_splice_within_a_window() {
    let s = sorter();
    for dt in [MIDNIGHT + 9 * 3600 + 1, MIDNIGHT + 10 * 3600, MIDNIGHT + 15 * 3600, MIDNIGHT + 86_400 + 11 * 3600] {
        assert_eq!(s.unsplice(s.splice(dt).unwrap()), Some(dt));
    }
}

#[test]
fn unsplice_after_splice_where_windows_overlap() {
    let s = Sorter {
        allocations: vec![
            Allocation { owner: 1, open_h: 9, open_m: 0, hours: 3 },
            Allocation { owner: 1, open_h: 10, open_m: 0, hours: 3 },
        ],
        now: MIDNIGHT,
        tz: String::from("UTC"),
    };
    let dt = MIDNIGHT + 86_400 + 10 * 3600;
    assert_eq!(s.splice(dt), Some(6 * 3600 + 3600));
    assert_eq!(s.unsplice(7 * 3600), Some(MIDNIGHT + 86_400 + 10 * 3600));
    let dt = MIDNIGHT + 2 * 86_400 + 10 * 3600;
    assert_eq!(s.splice(dt), Some(13 * 3600));
    assert_eq!(s.unsplice(13 * 3600), Some(MIDNIGHT + 2 * 86_400 + 10 * 3600));
    let dt = MIDNIGHT + 5 * 86_400 + 10 * 3600;
    assert_eq!(s.splice(dt), Some(31 * 3600));
    assert_eq!(s.unsplice(31 * 3600), Some(dt));
}

#[test]
fn unsplice_after_splice_from_the_end_of_a_window() {
    let s = Sorter { now: MIDNIGHT + 12 * 3600, ..sorter() };
    let dt = MIDNIGHT + 13 * 3600 + 1800;
    assert_eq!(s.splice(dt), Some(0));
    assert_eq!(s.unsplice(0), Some(MIDNIGHT + 12 * 3600));
    let later = MIDNIGHT + 14 * 3600;
    assert_eq!(s.unsplice(s.splice(later).unwrap()), Some(later));
}

#[test]
fn tasks_are_dressed_and_put_in_order() {
    let s = sorter();
    let mut tasks = vec![
        task(1, false, Some(MIDNIGHT + 17 * 3600), Some(3600)),
        task(2, true, None, Some(1800)),
        task(3, false, Some(MIDNIGHT + 11 * 3600), Some(3600)),
    ];
    let done = s.exec(&mut tasks, Arrows { arrows: vec![Arrow { source: 1, target: 2 }] });
    assert_eq!(done, Ok(()));
    assert_eq!(tasks.iter().map(|t| t.id).collect::<Vec<i64>>(), vec![2, 3, 1]);
    // the deadline of 3 lies two hours of work ahead, and it takes one
    assert_eq!(tasks[1].priority, Some(0 - (2 * 3600 - 3600)));
    assert_eq!(
        tasks[1].schedule,
        Some(Schedule { l: MIDNIGHT + 9 * 3600, r: MIDNIGHT + 10 * 3600 })
    );
    // then 1, whose deadline lies six and a half hours of work ahead: 3 h + 3.5 h
    assert_eq!(tasks[2].priority, Some(3600 - (23_400 - 3600)));
    assert_eq!(
        tasks[2].schedule,
        Some(Schedule { l: MIDNIGHT + 10 * 3600, r: MIDNIGHT + 11 * 3600 })
    );
    // 2 has no deadline on its path, and comes first for its star
    assert_eq!(tasks[0].priority, None);
    assert_eq!(
        tasks[0].schedule,
        Some(Schedule { l: MIDNIGHT + 11 * 3600, r: MIDNIGHT + 11 * 3600 + 1800 })
    );
    assert_eq!(tasks[0].title, "task 2");
}

#[test]
fn tasks_that_cannot_be_scheduled_stay() {
    let s = sorter();
    let mut twice = vec![task(1, false, None, None), task(1, true, None, None)];
    let before = twice.clone();
    assert_eq!(s.exec(&mut twice, Arrows { arrows: vec![] }), Err(ServiceError::InternalServerError));
    assert_eq!(twice, before);
    let mut heavy = vec![task(1, false, None, Some(-1))];
    assert_eq!(s.exec(&mut heavy, Arrows { arrows: vec![] }), Err(ServiceError::InternalServerError));
    let mut strange = vec![task(1, false, None, None)];
    let loose = Arrows { arrows: vec![Arrow { source: 1, target: 9 }] };
    assert_eq!(s.exec(&mut strange, loose), Err(ServiceError::InternalServerError));
    assert!(s.to_sub(&vec![task(1, false, Some(i64::MAX), None)], Arrows { arrows: vec![] }).is_none());
}

#[test]
fn without_windows_there_is_no_schedule() {
    let s = Sorter { allocations: vec![], now: NOW, tz: String::from("UTC") };
    let mut tasks = vec![task(1, false, Some(NOW + 5), Some(60)), task(2, false, None, None)];
    assert_eq!(s.exec(&mut tasks, Arrows { arrows: vec![] }), Ok(()));
    assert_eq!(tasks[0].schedule, None);
    assert_eq!(tasks[0].priority, Some(60));
    assert_eq!(tasks[1].priority, None);
}

#[test]
fn what_the_scheduler_is_told() {
    let s = sorter();
    let tasks = vec![task(4, false, Some(MIDNIGHT + 10 * 3600), Some(90)), task(5, false, None, None)];
    let sub = s.to_sub(&tasks, Arrows { arrows: vec![Arrow { source: 4, target: 5 }] }).unwrap();
    assert_eq!(sub.cursor, 0);
    assert_eq!(sub.entries, vec![4, 5]);
    assert_eq!(sub.map[&4].deadline, Some(3600));
    assert_eq!(sub.map[&4].weight, Some(90));
    assert_eq!(sub.map[&5].deadline, None);
    assert_eq!(sub.arrows.arrows.len(), 1);
}
