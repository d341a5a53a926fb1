use sprig::acceptor::{Acceptor, Colleague, Stored, TmpTask, TmpTaskOk, Upserter};
use sprig::clock::AuthedUser;
use sprig::errors::ServiceError;
use sprig::graph::{Arrow, Arrows};
use sprig::parser::parse;
use sprig::request::{Req, ReqTasks};

fn user() -> AuthedUser {
    AuthedUser { id: 1, tz: String::from("Asia/Tokyo") }
}

fn task(id: Option<i64>, title: &str) -> TmpTask {
    TmpTask {
        id: id,
        title: String::from(title),
        assign: None,
        is_starred: false,
        startable: None,
        deadline: None,
        weight: None,
        link: None,
    }
}

fn arrows(pairs: &[(i64, i64)]) -> Arrows {
    Arrows { arrows: pairs.iter().map(|p| Arrow { source: p.0, target: p.1 }).collect() }
}

fn lines(text: &str) -> ReqTasks {
    match parse(text).unwrap() {
        Req::Tasks(tasks) => tasks,
        Req::Command(_) => panic!("a command"),
    }
}

fn bad(message: &str) -> ServiceError {
    ServiceError::BadRequest(String::from(message))
}

#[test]
fn cycle_is_refused() {
    let batch = Acceptor {
        tasks: vec![task(None, "a"), task(None, "b"), task(None, "c"), task(None, "d")],
        arrows: arrows(&[(1, 2), (2, 3), (3, 1)]),
    };
    assert!(batch.arrows.has_cycle());
    assert_eq!(batch.no_loop(), Err(bad("loop found.")));
    assert_eq!(batch.accept(&user(), &vec![], &vec![]), Err(bad("loop found.")));
}

#[test]
fn a_cycle_comes_before_any_other_fault() {
    let mut first = task(Some(5), "a");
    first.startable = Some(10);
    first.deadline = Some(5);
    let batch = Acceptor { tasks: vec![first, task(Some(5), "b")], arrows: arrows(&[(0, 1), (1, 0)]) };
    assert_eq!(batch.accept(&user(), &vec![], &vec![]), Err(bad("loop found.")));
}

#[test]
fn dissemble_by_indent() {
    let batch = lines("jump https://jump\n    step\n    http://step");
    assert_eq!(batch.dissemble(), arrows(&[(1, 0)]));
    let deep = lines("a\n    b\n        c\n    d\n            e\nf");
    assert_eq!(deep.dissemble(), arrows(&[(4, 3), (3, 0), (2, 1), (1, 0)]));
}

#[test]
fn dissemble_by_joint() {
    let batch = lines("a [x\nb [x\n    c x]\nd x]");
    assert_eq!(batch.dissemble(), arrows(&[(3, 1), (3, 0), (2, 1), (2, 1), (2, 0)]));
    let none = lines("a x]\nb [x");
    assert_eq!(none.dissemble(), arrows(&[]));
}

#[test]
fn read_places_dates() {
    let now = 1_610_000_000;
    let batch = lines("a 2021/1/8T9:30- -2021/1/9\nb").read(&user(), now).unwrap();
    assert_eq!(batch.tasks.len(), 2);
    assert_eq!(batch.tasks[0].title, "a");
    assert_eq!(batch.tasks[0].startable, Some(1_610_065_800));
    assert_eq!(batch.tasks[0].deadline, None.or(Some(1_610_118_000)));
    assert_eq!(batch.tasks[1].startable, None);
    assert!(batch.arrows.arrows.is_empty());
    let wrong = lines("a 2021/2/30-").read(&user(), now);
    assert_eq!(wrong, Err(bad("failed to interpret datetime.")));
}

#[test]
fn deadline_before_start() {
    let mut late = task(None, "a long title here");
    late.startable = Some(100);
    late.deadline = Some(99);
    let mut fine = task(None, "fine");
    fine.startable = Some(100);
    fine.deadline = Some(100);
    let batch = Acceptor { tasks: vec![fine, late], arrows: arrows(&[]) };
    assert_eq!(batch.valid_sd(), Err(bad("a long t... deadline then startable.")));
    let mut short = task(None, "abc");
    short.startable = Some(1);
    short.deadline = Some(0);
    let batch = Acceptor { tasks: vec![short], arrows: arrows(&[]) };
    assert_eq!(batch.valid_sd(), Err(bad("abc... deadline then startable.")));
}

#[test]
fn an_id_twice() {
    let batch = Acceptor {
        tasks: vec![task(Some(9), "a"), task(Some(3), "b"), task(Some(9), "c"), task(Some(3), "d"), task(None, "e")],
        arrows: arrows(&[]),
    };
    assert_eq!(batch.ids(), vec![9, 3, 9, 3]);
    assert_eq!(batch.tid_unique(), Err(bad("#3 appears multiple times.")));
    assert_eq!(batch.valid_tid_use(), Err(bad("#3 appears multiple times.")));
    let single = Acceptor { tasks: vec![task(Some(-4), "a"), task(Some(4), "b")], arrows: arrows(&[]) };
    assert_eq!(single.tid_unique(), Ok(()));
}

#[test]
fn two_ids_on_a_path() {
    let batch = Acceptor {
        tasks: vec![task(Some(7), "root"), task(None, "mid"), task(Some(8), "leaf")],
        arrows: arrows(&[(2, 1), (1, 0)]),
    };
    assert_eq!(batch.tid_single_by(&vec![2, 1, 0]), Err(bad("#8 -> #7 existing nodes wiring.")));
    assert_eq!(batch.tid_single_by(&vec![1, 0]), Ok(()));
    assert_eq!(batch.tid_single_by(&vec![2, 99, -1]), Ok(()));
    assert_eq!(batch.valid_tid_use(), Err(bad("#8 -> #7 existing nodes wiring.")));
    assert_eq!(batch.accept(&user(), &vec![7, 8], &vec![]), Err(bad("#8 -> #7 existing nodes wiring.")));
}

#[test]
fn an_id_that_is_not_the_users() {
    let batch = Acceptor { tasks: vec![task(Some(7), "a"), task(Some(12), "b")], arrows: arrows(&[]) };
    assert_eq!(batch.valid_tid(&vec![7, 12]), Ok(()));
    assert_eq!(batch.valid_tid(&vec![12]), Err(bad("#7: item not found, or no edit permission.")));
    assert_eq!(batch.valid_tid(&vec![7]), Err(bad("#12: item not found, or no edit permission.")));
}

#[test]
fn assignees() {
    let mut named = task(None, "a");
    named.assign = Some(String::from("satun"));
    let batch = Acceptor { tasks: vec![task(None, "b"), named], arrows: arrows(&[]) };
    let known = vec![
        Colleague { name: String::from("other"), id: 5 },
        Colleague { name: String::from("satun"), id: 6 },
        Colleague { name: String::from("satun"), id: 7 },
    ];
    assert_eq!(batch.valid_assign(&user(), &known), Ok(vec![1, 6]));
    assert_eq!(batch.valid_assign(&user(), &vec![]), Err(bad("@satun: user not found.")));
}

#[test]
fn accept_and_upsert() {
    let mut named = task(Some(40), "kept");
    named.assign = Some(String::from("satun"));
    named.is_starred = true;
    named.startable = Some(1);
    named.deadline = Some(2);
    let batch = Acceptor { tasks: vec![task(None, "new"), named], arrows: arrows(&[(1, 0)]) };
    let known = vec![Colleague { name: String::from("satun"), id: 6 }];
    let accepted = batch.accept(&user(), &vec![40], &known).unwrap();
    assert_eq!(
        accepted,
        Upserter {
            tasks: vec![
                TmpTaskOk {
                    id: None,
                    title: String::from("new"),
                    assign: 1,
                    is_starred: false,
                    startable: None,
                    deadline: None,
                    weight: None,
                    link: None,
                },
                TmpTaskOk {
                    id: Some(40),
                    title: String::from("kept"),
                    assign: 6,
                    is_starred: true,
                    startable: Some(1),
                    deadline: Some(2),
                    weight: None,
                    link: None,
                },
            ],
            arrows: arrows(&[(1, 0)]),
        }
    );
    let stored = accepted.upsert(&vec![77, 40]);
    assert_eq!(stored, Ok(Stored { arrows: vec![Arrow { source: 40, target: 77 }], created: 1, updated: 1 }));
}

#[test]
fn upsert_with_too_few_ids() {
    let batch = Upserter {
        tasks: vec![TmpTaskOk {
            id: None,
            title: String::from("new"),
            assign: 1,
            is_starred: false,
            startable: None,
            deadline: None,
            weight: None,
            link: None,
        }],
        arrows: arrows(&[]),
    };
    assert_eq!(batch.upsert(&vec![]), Err(ServiceError::InternalServerError));
}

#[test]
fn upsert_under_another_id_is_a_fault() {
    let kept = TmpTaskOk {
        id: Some(5),
        title: String::from("kept"),
        assign: 1,
        is_starred: false,
        startable: None,
        deadline: None,
        weight: None,
        link: None,
    };
    let batch = Upserter { tasks: vec![kept.clone()], arrows: arrows(&[(0, 0)]) };
    assert_eq!(batch.upsert(&vec![7]), Err(ServiceError::InternalServerError));
    let batch = Upserter { tasks: vec![kept], arrows: arrows(&[(0, 0)]) };
    assert_eq!(batch.upsert(&vec![5]), Ok(Stored { arrows: vec![Arrow { source: 5, target: 5 }], created: 0, updated: 1 }));
}
