use sprig::clock::AuthedUser;
use sprig::errors::ServiceError;
use sprig::filter::MIN_PASSWORD_LEN;
use sprig::graph::{Arrow, Arrows, LR};
use sprig::pattern::{compiled, compiles, refused, RegexFault};
use sprig::request::{Condition, Expression, PasswordSet, ReqAllocation, Timescale};
use sprig::sorter::Allocation;
use sprig::tasks::{Config, ResTask, SelTask, Q};
use sprig::text::{decimal_of, is_whitespace, Class};

fn task(id: i64, title: &str, assign: &str, link: Option<&str>) -> ResTask {
    ResTask {
        id: id,
        title: String::from(title),
        assign: String::from(assign),
        is_archived: false,
        is_starred: false,
        startable: None,
        deadline: None,
        priority: None,
        weight: None,
        link: link.map(String::from),
        is_leaf: false,
        is_root: false,
        schedule: None,
    }
}

fn ids(tasks: &Vec<ResTask>) -> Vec<i64> {
    tasks.iter().map(|t| t.id).collect()
}

fn bad(message: &str) -> ServiceError {
    ServiceError::BadRequest(String::from(message))
}

fn some_tasks() -> Vec<ResTask> {
    vec![
        task(1, "write the report", "satun", Some("https://docs.example.com/report")),
        task(2, "read the report", "momo", None),
        task(3, "lunch", "satun", Some("http://menu.example.org")),
    ]
}

#[test]
fn regular_expressions_filter() {
    let mut search = Condition::default();
    search.title = Some(Expression::Regex(String::from("report$")));
    let mut tasks = some_tasks();
    assert_eq!(search.filter_regex(&mut tasks), Ok(()));
    assert_eq!(ids(&tasks), vec![1, 2]);
    search.assign = Some(Expression::Regex(String::from("^sa")));
    assert_eq!(search.filter_regex(&mut tasks), Ok(()));
    assert_eq!(ids(&tasks), vec![1]);
    let mut by_link = Condition::default();
    by_link.link = Some(Expression::Regex(String::from("^$")));
    let mut tasks = some_tasks();
    assert_eq!(by_link.filter_regex(&mut tasks), Ok(()));
    assert_eq!(ids(&tasks), vec![2]);
    let mut words = Condition::default();
    words.title = Some(Expression::Words(vec![String::from("(")]));
    let mut tasks = some_tasks();
    assert_eq!(words.filter_regex(&mut tasks), Ok(()));
    assert_eq!(ids(&tasks), vec![1, 2, 3]);
}

#[test]
fn a_regular_expression_that_does_not_compile() {
    let mut search = Condition::default();
    search.title = Some(Expression::Regex(String::from("lunch")));
    search.link = Some(Expression::Regex(String::from("(")));
    let mut tasks = some_tasks();
    match search.filter_regex(&mut tasks) {
        Err(ServiceError::BadRequest(message)) => assert!(message.starts_with("regex error: ")),
        _ => panic!("no bad request"),
    }
    assert_eq!(tasks, some_tasks());
    assert!(compiles("a+"));
    assert!(!compiles("a)"));
    assert!(compiled("x{2,1}").is_err());
    assert!(compiled("x").unwrap().matches("axb"));
    assert!(!compiled("^x").unwrap().matches("ax"));
    assert_eq!(refused(RegexFault::TooBig), bad("regex compiled too big."));
    assert_eq!(refused(RegexFault::Syntax(String::from("here"))), bad("regex error: here"));
    assert_eq!(refused(RegexFault::Other), ServiceError::InternalServerError);
    match compiled(&"(a{1000}){1000}".repeat(50)) {
        Err(fault) => assert_eq!(fault, RegexFault::TooBig),
        Ok(_) => panic!("it compiles"),
    }
}

#[test]
fn the_context_of_a_search() {
    let arrows = Arrows {
        arrows: vec![Arrow { source: 1, target: 2 }, Arrow { source: 2, target: 3 }, Arrow { source: 4, target: 3 }],
    };
    let all = || vec![task(1, "a", "x", None), task(2, "b", "x", None), task(3, "c", "x", None), task(4, "d", "x", None)];
    let mut above = Condition::default();
    above.context = (Some(2), None);
    let mut tasks = all();
    above.filter_context(&mut tasks, &arrows);
    assert_eq!(ids(&tasks), vec![2, 3]);
    let mut below = Condition::default();
    below.context = (None, Some(3));
    let mut tasks = all();
    below.filter_context(&mut tasks, &arrows);
    assert_eq!(ids(&tasks), vec![1, 2, 3, 4]);
    let mut between = Condition::default();
    between.context = (Some(1), Some(2));
    let mut tasks = all();
    between.filter_context(&mut tasks, &arrows);
    assert_eq!(ids(&tasks), vec![1, 2]);
    let mut tasks = all();
    Condition::default().filter_context(&mut tasks, &arrows);
    assert_eq!(ids(&tasks), vec![1, 2, 3, 4]);
}

#[test]
fn a_new_password() {
    let set = |new: &str, again: &str| PasswordSet {
        old: String::from("old"),
        new: String::from(new),
        confirmation: String::from(again),
    };
    assert_eq!(MIN_PASSWORD_LEN, 8);
    assert_eq!(set("12345678", "12345678").verify(true), Ok(()));
    assert_eq!(set("12345678", "12345678").verify(false), Err(bad("current password seems to be wrong.")));
    assert_eq!(set("1234567", "1234567").verify(true), Err(bad("password should be at least 8 length.")));
    assert_eq!(set("12345678", "1234567x").verify(true), Err(bad("new password mismatched with confirmation.")));
    assert_eq!(set("short", "other").verify(false), Err(bad("current password seems to be wrong.")));
}

#[test]
fn a_daily_window() {
    let user = AuthedUser { id: 3, tz: String::from("UTC") };
    let window = |h: i32, m: i32, hours: i32| ReqAllocation { open_h: h, open_m: m, hours: hours };
    assert_eq!(window(9, 30, 8).verify(&user), Ok(Allocation { owner: 3, open_h: 9, open_m: 30, hours: 8 }));
    assert_eq!(window(0, 0, 24).verify(&user), Ok(Allocation { owner: 3, open_h: 0, open_m: 0, hours: 24 }));
    assert_eq!(window(23, 59, 1).verify(&user), Ok(Allocation { owner: 3, open_h: 23, open_m: 59, hours: 1 }));
    assert_eq!(window(24, 0, 1).verify(&user), Err(bad("time notation invalid.")));
    assert_eq!(window(9, 60, 1).verify(&user), Err(bad("time notation invalid.")));
    assert_eq!(window(-1, 0, 1).verify(&user), Err(bad("time notation invalid.")));
    assert_eq!(window(9, 0, 0).verify(&user), Err(bad("please specify 1 to 24 hours.")));
    assert_eq!(window(9, 0, 25).verify(&user), Err(bad("please specify 1 to 24 hours.")));
    assert_eq!(window(25, 0, 25).verify(&user), Err(bad("time notation invalid.")));
}

#[test]
fn what_the_home_view_shows() {
    let q = |word: Option<&str>| Q { option: word.map(String::from) };
    assert_eq!(q(Some("archives")).config(), Config::Archives);
    assert_eq!(q(Some("roots")).config(), Config::Roots);
    assert_eq!(q(Some("leaves")).config(), Config::Leaves);
    assert_eq!(q(Some("leaf")).config(), Config::Home);
    assert_eq!(q(None).config(), Config::Home);
    let arrows = Arrows { arrows: vec![Arrow { source: 1, target: 2 }] };
    let all = || vec![task(1, "a", "x", None), task(2, "b", "x", None), task(3, "c", "x", None)];
    let mut tasks = all();
    Config::Leaves.filter(&mut tasks, &arrows);
    assert_eq!(ids(&tasks), vec![1, 3]);
    let mut tasks = all();
    Config::Roots.filter(&mut tasks, &arrows);
    assert_eq!(ids(&tasks), vec![2, 3]);
    let mut tasks = all();
    Config::Home.filter(&mut tasks, &arrows);
    assert_eq!(ids(&tasks), vec![1, 2, 3]);
    let mut tasks = all();
    arrows.set_lr(&mut tasks);
    assert_eq!(tasks.iter().map(|t| (t.is_leaf, t.is_root)).collect::<Vec<_>>(), vec![(true, false), (false, true), (true, true)]);
    assert!(arrows.arrows[0].trace_to(LR::Leaf) == 1);
}

#[test]
fn a_selected_task_as_it_is_shown() {
    let selected = SelTask {
        id: 5,
        title: String::from("t"),
        assign: String::from("a"),
        is_archived: true,
        is_starred: true,
        startable: Some(1),
        deadline: Some(2),
        weight: Some(3),
        link: Some(String::from("l")),
    };
    let shown = selected.to_res();
    assert_eq!(shown.id, 5);
    assert_eq!(shown.priority, None);
    assert_eq!(shown.schedule, None);
    assert_eq!((shown.is_leaf, shown.is_root), (false, false));
    assert_eq!(shown.weight, Some(3));
    assert_eq!(shown.link, Some(String::from("l")));
    assert!(shown.is_archived && shown.is_starred);
}

#[test]
fn classes_of_characters() {
    for n in 0..=0x10FFFFu32 {
        if let Some(c) = char::from_u32(n) {
            assert_eq!(is_whitespace(c), c.is_whitespace(), "white space {:x}", n);
            assert_eq!(Class::Graphic.has(c), !c.is_whitespace() && !c.is_control(), "graphic {:x}", n);
            assert_eq!(Class::AsciiGraphic.has(c), c.is_ascii_graphic(), "ascii graphic {:x}", n);
            assert_eq!(Class::Digit.has(c), c.is_digit(10), "digit {:x}", n);
            assert_eq!(Class::Blank.has(c), c.is_whitespace() && c != '\n');
            assert_eq!(Class::Solid.has(c), !c.is_whitespace());
            assert_eq!(Class::Plain.has(c), Class::Graphic.has(c) && c != '[' && c != ']');
        }
    }
}

#[test]
fn numbers_as_they_are_written() {
    let text = |n: i64| decimal_of(n).into_iter().collect::<String>();
    assert_eq!(text(0), "0");
    assert_eq!(text(7), "7");
    assert_eq!(text(-7), "-7");
    assert_eq!(text(1234567890), "1234567890");
    assert_eq!(text(i64::MAX), i64::MAX.to_string());
    assert_eq!(text(i64::MIN), i64::MIN.to_string());
    assert_eq!(Timescale::Hours.as_str(), "6h");
    assert_eq!(Timescale::Minutes.as_str(), "15m");
    assert_eq!(Timescale::Second.as_str(), "s");
    assert_eq!(Timescale::Year.as_str(), "Y");
}
