use sprig::batch::{a_attribute, a_empty_line, a_empty_lines, a_indent, a_indents, a_req_task, a_req_tasks};
use sprig::command::{a_password_set, a_req_allocation, a_req_command, a_req_modify, a_req_user, a_timescale};
use sprig::errors::{ParseError, ParseErrorKind, ServiceError};
use sprig::lexer::{
    a_ascii_graphics, a_boolean, a_date, a_datetime, a_expression, a_graphics, a_graphics_not_joint,
    a_inline_spaces, a_inline_spaces1, a_link, a_non_nega_f, a_non_nega_i, a_quoted, a_spaces1, a_time,
};
use sprig::parser::{a_req, parse};
use sprig::request::{
    Attribute, Boolean, Condition, Decimal, Expression, PasswordSet, Req, ReqAllocation, ReqCommand, ReqModify,
    ReqTask, ReqTasks, ReqUser, Timescale,
};
use sprig::search::a_condition;
use sprig::time::{EasyDate, EasyDateTime, EasyTime};

fn cs(s: &str) -> Vec<char> {
    s.chars().collect()
}

fn rest(s: &str, at: usize) -> String {
    s.chars().skip(at).collect()
}

fn ok<T>(s: &str, found: Result<(T, usize), ParseError>) -> Result<(T, String), ParseError> {
    found.map(|(value, at)| (value, rest(s, at)))
}

fn some<T>(s: &str, found: Option<(T, usize)>) -> Result<(T, String), ()> {
    found.map(|(value, at)| (value, rest(s, at))).ok_or(())
}

fn end(s: &str, found: Option<usize>) -> Result<((), String), ()> {
    found.map(|at| ((), rest(s, at))).ok_or(())
}

fn dec(text: &str) -> Decimal {
    Decimal { text: String::from(text) }
}

fn float(found: Result<(Decimal, String), ()>) -> Result<(f32, String), ()> {
    found.map(|(d, r)| (d.text.parse::<f32>().unwrap(), r))
}

fn plain(indent: i32, title: &str, link: Option<&str>) -> ReqTask {
    ReqTask {
        indent: indent,
        attribute: Attribute {
            is_starred: false,
            id: None,
            weight: None,
            joint_head: None,
            joint_tail: None,
            assign: None,
            startable: None,
            deadline: None,
            title: String::from(title),
        },
        link: link.map(String::from),
    }
}

fn titled(title: &str) -> Attribute {
    let mut attr = Attribute::default();
    attr.title = String::from(title);
    attr
}

fn p_req(s: &str) -> Result<(Req, String), ParseError> {
    ok(s, a_req(&cs(s), 0))
}

fn p_req_tasks(s: &str) -> Result<(ReqTasks, String), ParseError> {
    ok(s, a_req_tasks(&cs(s), 0))
}

fn p_req_task(s: &str) -> Result<(ReqTask, String), ParseError> {
    ok(s, a_req_task(&cs(s), 0))
}

fn p_req_command(s: &str) -> Result<(ReqCommand, String), ParseError> {
    ok(s, a_req_command(&cs(s), 0))
}

fn p_req_user(s: &str) -> Result<(ReqUser, String), ParseError> {
    ok(s, a_req_user(&cs(s), 0))
}

fn p_req_modify(s: &str) -> Result<(ReqModify, String), ParseError> {
    ok(s, a_req_modify(&cs(s), 0))
}

fn p_ascii_graphics(s: &str) -> Result<(String, String), ()> {
    some(s, a_ascii_graphics(&cs(s), 0))
}

fn p_graphics(s: &str) -> Result<(String, String), ()> {
    some(s, a_graphics(&cs(s), 0))
}

fn p_graphics_not_joint(s: &str) -> Result<(String, String), ()> {
    some(s, a_graphics_not_joint(&cs(s), 0))
}

fn p_password_set(s: &str) -> Result<(PasswordSet, String), ParseError> {
    ok(s, a_password_set(&cs(s), 0))
}

fn p_timescale(s: &str) -> Result<(Timescale, String), ParseError> {
    ok(s, a_timescale(&cs(s), 0))
}

fn p_condition(s: &str) -> Result<(Condition, String), ParseError> {
    ok(s, a_condition(&cs(s), 0))
}

fn p_quoted(s: &str) -> Result<(String, String), ParseError> {
    ok(s, a_quoted(&cs(s), 0))
}

fn p_expression(s: &str) -> Result<(Expression, String), ParseError> {
    ok(s, a_expression(&cs(s), 0))
}

fn p_boolean(s: &str) -> Result<(Boolean, String), ()> {
    some(s, a_boolean(&cs(s), 0))
}

fn p_non_nega_i(s: &str) -> Result<(i32, String), ParseError> {
    ok(s, a_non_nega_i(&cs(s), 0))
}

fn p_non_nega_f(s: &str) -> Result<(f32, String), ()> {
    float(some(s, a_non_nega_f(&cs(s), 0)))
}

fn p_datetime(s: &str) -> Result<(EasyDateTime, String), ()> {
    some(s, a_datetime(&cs(s), 0))
}

fn p_date(s: &str) -> Result<(EasyDate, String), ()> {
    some(s, a_date(&cs(s), 0))
}

fn p_time(s: &str) -> Result<(EasyTime, String), ()> {
    some(s, a_time(&cs(s), 0))
}

fn p_indent(s: &str) -> Result<(i32, String), ParseError> {
    ok(s, a_indent(&cs(s), 0))
}

fn p_indents(s: &str) -> Result<(i32, String), ParseError> {
    ok(s, a_indents(&cs(s), 0))
}

fn p_attribute(s: &str) -> Result<(Attribute, String), ParseError> {
    ok(s, a_attribute(&cs(s), 0))
}

fn p_link(s: &str) -> Result<(String, String), ()> {
    some(s, a_link(&cs(s), 0))
}

fn p_inline_spaces1(s: &str) -> Result<((), String), ()> {
    end(s, a_inline_spaces1(&cs(s), 0))
}

fn p_empty_line(s: &str) -> Result<((), String), ()> {
    end(s, a_empty_line(&cs(s), 0))
}

fn p_empty_lines(s: &str) -> Result<((), String), ()> {
    Ok(((), rest(s, a_empty_lines(&cs(s), 0))))
}

fn sample_condition() -> Condition {
    Condition {
        boolean: Boolean { is_archived: Some(true), is_starred: Some(false), is_leaf: Some(true), is_root: None },
        context: (Some(333), Some(777)),
        weight: (Some(dec(".5")), Some(dec("24"))),
        startable: (None, Some(EasyDateTime { date: None, time: Some(EasyTime { h: Some(15), m: None }) })),
        deadline: (
            Some(EasyDateTime { date: Some(EasyDate { y: None, m: Some(12), d: None }), time: None }),
            None,
        ),
        created_at: (None, None),
        updated_at: (
            Some(EasyDateTime { date: Some(EasyDate { y: Some(2021), m: None, d: None }), time: None }),
            Some(EasyDateTime {
                date: Some(EasyDate { y: None, m: None, d: Some(30) }),
                time: Some(EasyTime { h: Some(6), m: None }),
            }),
        ),
        title: None,
        assign: None,
        link: None,
    }
}

#[test]
fn t_a_req() {
    let t_00 = p_req("");
    let t_01 = p_req(" ");
    let t_02 = p_req("\n\r\n");
    let t_03 = p_req("/");
    let t_10 = p_req("/ ");
    let t_11 = p_req("/12/- * task");
    assert_eq!(t_00, Ok((Req::Tasks(ReqTasks { tasks: Vec::new() }), String::from(""))));
    assert_eq!(p_req(" ").map(|x| x.0), t_00.map(|x| x.0));
    assert!(t_01.is_ok());
    assert_eq!(t_02, Ok((Req::Tasks(ReqTasks { tasks: Vec::new() }), String::from(""))));
    assert_eq!(t_03, Ok((Req::Command(ReqCommand::Help), String::from(""))));
    assert!(t_10.is_err());
    assert!(t_11.is_err());
}

#[test]
fn t_a_empty_line() {
    let t_00 = p_empty_line("");
    let t_01 = p_empty_line("\n   ");
    let t_02 = p_empty_line("   \n   ");
    let t_10 = p_empty_line("x");
    let t_11 = p_empty_line("   x\n   ");
    assert_eq!(t_00, Ok(((), String::from(""))));
    assert_eq!(t_01, Ok(((), String::from("   "))));
    assert_eq!(t_02, t_01);
    assert!(t_10.is_err());
    assert!(t_11.is_err());
}

#[test]
fn t_a_empty_lines() {
    let t_00 = p_empty_lines("");
    let t_01 = p_empty_lines("\n   ");
    let t_02 = p_empty_lines("   \n   x");
    assert_eq!(t_00, Ok(((), String::from(""))));
    assert_eq!(t_01, t_00);
    assert_eq!(t_02, Ok(((), String::from("   x"))));
}

#[test]
fn t_a_inline_spaces1() {
    let t_00 = p_inline_spaces1(" ");
    let t_01 = p_inline_spaces1("   \n   ");
    let t_10 = p_inline_spaces1("");
    let t_11 = p_inline_spaces1("\n");
    assert_eq!(t_00, Ok(((), String::from(""))));
    assert_eq!(t_01, Ok(((), String::from("\n   "))));
    assert!(t_10.is_err());
    assert!(t_11.is_err());
}

#[test]
fn t_inline_spaces1_() {
    let t_00 = p_inline_spaces1(" ");
    let t_01 = p_inline_spaces1("   \n   ");
    let t_10 = p_inline_spaces1("");
    let t_11 = p_inline_spaces1("\n");
    assert_eq!(t_00, Ok(((), String::from(""))));
    assert_eq!(t_01, Ok(((), String::from("\n   "))));
    assert!(t_10.is_err());
    assert!(t_11.is_err());
}

#[test]
fn t_a_req_tasks() {
    let t_00 = p_req_tasks("");
    let t_01 = p_req_tasks("jump\n    step\n        hop");
    let t_02 = p_req_tasks("jump https://jump\n    step http://step");
    let t_03 = p_req_tasks("jump\nhttps://jump\n    step\n    http://step");
    let t_04 = p_req_tasks(" ");
    let t_05 = p_req_tasks("\n");
    let t_06 = p_req_tasks("\r\n");
    assert_eq!(t_00, Ok((ReqTasks { tasks: Vec::new() }, String::from(""))));
    assert_eq!(
        t_01,
        Ok((
            ReqTasks { tasks: vec![plain(2, "hop", None), plain(1, "step", None), plain(0, "jump", None)] },
            String::from("")
        ))
    );
    assert_eq!(
        t_02,
        Ok((
            ReqTasks {
                tasks: vec![plain(1, "step", Some("http://step")), plain(0, "jump", Some("https://jump"))]
            },
            String::from("")
        ))
    );
    assert_eq!(t_03, t_02);
    assert_eq!(t_04, t_00);
    assert_eq!(t_05, t_00);
    assert_eq!(t_06, t_00);
}

#[test]
fn t_a_req_command() {
    let t_00 = p_req_command("");
    let t_01 = p_req_command("u");
    let t_02 = p_req_command("s");
    let t_03 = p_req_command("tutorial");
    let t_04 = p_req_command("coffee");
    let t_10 = p_req_command(" ");
    let t_11 = p_req_command("x");
    assert_eq!(t_00, Ok((ReqCommand::Help, String::from(""))));
    assert_eq!(t_01, Ok((ReqCommand::User(ReqUser::Info), String::from(""))));
    assert_eq!(t_02, Ok((ReqCommand::Search(Condition::default()), String::from(""))));
    assert_eq!(t_03, Ok((ReqCommand::Tutorial, String::from(""))));
    assert_eq!(t_04, Ok((ReqCommand::Coffee, String::from(""))));
    assert!(t_10.is_err());
    assert!(t_11.is_err());
}

#[test]
fn t_req_command_() {
    let t_01 = p_req_command("u");
    let t_02 = p_req_command("s");
    let t_03 = p_req_command("tutorial");
    let t_04 = p_req_command("coffee");
    let t_10 = p_req_command(" ");
    let t_11 = p_req_command("x");
    assert_eq!(t_01, Ok((ReqCommand::User(ReqUser::Info), String::from(""))));
    assert_eq!(t_02, Ok((ReqCommand::Search(Condition::default()), String::from(""))));
    assert_eq!(t_03, Ok((ReqCommand::Tutorial, String::from(""))));
    assert_eq!(t_04, Ok((ReqCommand::Coffee, String::from(""))));
    assert!(t_10.is_err());
    assert!(t_11.is_err());
}

#[test]
fn t_a_req_user() {
    let t_00 = p_req_user("");
    let t_01 = p_req_user(" ");
    let t_11 = p_req_user("x");
    assert_eq!(t_00, Ok((ReqUser::Info, String::from(""))));
    assert_eq!(t_01, t_00);
    assert!(t_11.is_err());
}

#[test]
fn t_req_user_() {
    let t_10 = p_req_user("x");
    assert!(t_10.is_err());
}

#[test]
fn t_a_req_modify() {
    let t_00 = p_req_modify("n   satun__   etc...   ");
    let t_10 = p_req_modify("");
    let t_11 = p_req_modify(" ");
    let t_12 = p_req_modify("x");
    assert_eq!(t_00, Ok((ReqModify::Name(String::from("satun__")), String::from("   etc...   "))));
    assert!(t_10.is_err());
    assert!(t_11.is_err());
    assert!(t_12.is_err());
}

#[test]
fn t_req_modify_() {
    let t_00 = p_req_modify("n   satun__   etc...   ");
    let t_10 = p_req_modify("");
    let t_11 = p_req_modify(" ");
    let t_12 = p_req_modify("x");
    assert_eq!(t_00, Ok((ReqModify::Name(String::from("satun__")), String::from("   etc...   "))));
    assert!(t_10.is_err());
    assert!(t_11.is_err());
    assert!(t_12.is_err());
}

#[test]
fn t_a_ascii_graphics() {
    let t_00 = p_ascii_graphics(
        r##"!"#$%&'()*+,-./0123456789:;<=>?@ABCDEFGHIJKLMNOPQRSTUVWXYZ[\]^_`abcdefghijklmnopqrstuvwxyz{|}~   etc..."##
    );
    let t_10 = p_ascii_graphics("");
    let t_11 = p_ascii_graphics(" ");
    let t_12 = p_ascii_graphics("\n");
    let t_13 = p_ascii_graphics("„ÅÆ„Çì„ÅÇ„Åô„Åç„Éº");
    assert_eq!(t_00, Ok((String::from(
        r##"!"#$%&'()*+,-./0123456789:;<=>?@ABCDEFGHIJKLMNOPQRSTUVWXYZ[\]^_`abcdefghijklmnopqrstuvwxyz{|}~"##
    ), String::from("   etc..."))));
    assert!(t_10.is_err());
    assert!(t_11.is_err());
    assert!(t_12.is_err());
    assert!(t_13.is_err());
}

#[test]
fn t_ascii_graphics1_() {
    let t_00 = p_ascii_graphics(
        r##"!"#$%&'()*+,-./0123456789:;<=>?@ABCDEFGHIJKLMNOPQRSTUVWXYZ[\]^_`abcdefghijklmnopqrstuvwxyz{|}~   etc..."##
    );
    let t_10 = p_ascii_graphics("");
    let t_11 = p_ascii_graphics(" ");
    let t_12 = p_ascii_graphics("\n");
    let t_13 = p_ascii_graphics("„ÅÆ„Çì„ÅÇ„Åô„Åç„Éº");
    assert_eq!(t_00, Ok((String::from(
        r##"!"#$%&'()*+,-./0123456789:;<=>?@ABCDEFGHIJKLMNOPQRSTUVWXYZ[\]^_`abcdefghijklmnopqrstuvwxyz{|}~"##
    ), String::from("   etc..."))));
    assert!(t_10.is_err());
    assert!(t_11.is_err());
    assert!(t_12.is_err());
    assert!(t_13.is_err());
}

#[test]
fn t_a_password_set() {
    let t_00 = p_password_set(
        r##"old!"#$%&'()*+,-./   new0123456789   confirmation:;<=>?@   etc..."##
    );
    let t_10 = p_password_set("");
    let t_11 = p_password_set("   old new confirmation");
    let t_12 = p_password_set("old new_without_confirmation");
    let t_13 = p_password_set("„Å±„Åô„Çè„Éº„Å©„Å´„ÄÄÂíåÊñáÂ≠ó„ÄÄ„Å®„Å™Ôºü");
    assert_eq!(t_00, Ok((PasswordSet {
        old: String::from(r##"old!"#$%&'()*+,-./"##),
        new: String::from(r##"new0123456789"##),
        confirmation: String::from(r##"confirmation:;<=>?@"##),
    }, String::from("   etc..."))));
    assert!(t_10.is_err());
    assert!(t_11.is_err());
    assert!(t_12.is_err());
    assert!(t_13.is_err());
}

#[test]
fn t_password_set_() {
    let t_00 = p_password_set(
        r##"old!"#$%&'()*+,-./   new0123456789   confirmation:;<=>?@   etc..."##
    );
    let t_10 = p_password_set("");
    let t_11 = p_password_set("   old new confirmation");
    let t_12 = p_password_set("old new_without_confirmation");
    let t_13 = p_password_set("„Å±„Åô„Çè„Éº„Å©„Å´„ÄÄÂíåÊñáÂ≠ó„ÄÄ„Å®„Å™Ôºü");
    assert_eq!(t_00, Ok((PasswordSet {
        old: String::from(r##"old!"#$%&'()*+,-./"##),
        new: String::from(r##"new0123456789"##),
        confirmation: String::from(r##"confirmation:;<=>?@"##),
    }, String::from("   etc..."))));
    assert!(t_10.is_err());
    assert!(t_11.is_err());
    assert!(t_12.is_err());
    assert!(t_13.is_err());
}

#[test]
fn t_a_timescale() {
    let t_00 = p_timescale("15mm   etc...");
    let t_10 = p_timescale("");
    let t_11 = p_timescale("   15m");
    let t_12 = p_timescale("y");
    let t_13 = p_timescale("ÊÅíÊ≤≥Ê≤ô");
    assert_eq!(t_00, Ok((Timescale::Minutes, String::from("m   etc..."))));
    assert!(t_10.is_err());
    assert!(t_11.is_err());
    assert!(t_12.is_err());
    assert!(t_13.is_err());
}

#[test]
fn t_timescale_() {
    let t_00 = p_timescale("15mm   etc...");
    let t_10 = p_timescale("");
    let t_11 = p_timescale("   15m");
    let t_12 = p_timescale("y");
    let t_13 = p_timescale("ÊÅíÊ≤≥Ê≤ô");
    assert_eq!(t_00, Ok((Timescale::Minutes, String::from("m   etc..."))));
    assert!(t_10.is_err());
    assert!(t_11.is_err());
    assert!(t_12.is_err());
    assert!(t_13.is_err());
}

#[test]
fn t_a_condition() {
    let t_00 = p_condition("");
    let t_01 = p_condition(" ");
    let t_02 = p_condition("# w");
    let t_03 = p_condition(
        r##"333<#<777 -a!s -l .5<w<24 s<15: /12/<d c 2021//<u<//30T6:"##
    );
    let t_04 = p_condition(
        r##"333<#<777 -a!s -l .5<w<24 s<15: /12/<d c 2021//<u<//30T6: "tit le" @r#"double"quoted"man"# &r".*domain\.com.*\?page=[1-5]#(frag|ment)"   "##
    );
    let t_10 = p_condition("title");
    assert_eq!(t_00, Ok((
        Condition {
            boolean: Boolean {
                is_archived: None,
                is_starred: None,
                is_leaf: None,
                is_root: None,
            },
            context: (None, None),
            weight: (None, None),
            startable: (None, None),
            deadline: (None, None),
            created_at: (None, None),
            updated_at: (None, None),
            title:  None,
            assign: None,
            link: None,
        },
        String::from("")
    )));
    assert_eq!(t_01, t_00);
    assert_eq!(t_02, t_00);
    assert_eq!(t_03, Ok((sample_condition(), String::from(""))));
    let weight = &t_03.as_ref().unwrap().0.weight;
    assert_eq!(weight.0.as_ref().unwrap().text.parse::<f32>().unwrap(), 0.5);
    assert_eq!(weight.1.as_ref().unwrap().text.parse::<f32>().unwrap(), 24.0);
    let mut full = sample_condition();
    full.title = Some(Expression::Words(vec![
        String::from("tit"),
        String::from("le"),
    ]));
    full.assign = Some(Expression::Regex(
        String::from(r#"double"quoted"man"#)
    ));
    full.link = Some(Expression::Regex(
        String::from(r".*domain\.com.*\?page=[1-5]#(frag|ment)")
    ));
    assert_eq!(t_04, Ok((full, String::from(""))));
    assert!(t_10.is_err());
}

#[test]
fn t_a_quoted() {
    let t_00 = p_quoted(r####""""####);
    let t_01 = p_quoted(r####""sha""####);
    let t_02 = p_quoted(r####"#""#"####);
    let t_03 = p_quoted(r####"#"sha"#"####);
    let t_04 = p_quoted(r####"#"""#"####);
    let t_05 = p_quoted(r####"##"#""#"##"####);
    let t_06 = p_quoted(r####"#""##"####);
    let t_10 = p_quoted(r####"##""#"####);
    assert_eq!(t_00, Ok((String::new(), String::from(""))));
    assert_eq!(t_01, Ok((String::from("sha"), String::from(""))));
    assert_eq!(t_02, t_00);
    assert_eq!(t_03, t_01);
    assert_eq!(t_04, Ok((String::from(r#"""#), String::from(""))));
    assert_eq!(t_05, Ok((String::from(r##"#""#"##), String::from(""))));
    assert_eq!(t_06, Ok((String::from(""), String::from("#"))));
    assert!(t_10.is_err());
}

#[test]
fn t_quoted_() {
    let t_00 = p_quoted(r####""""####);
    let t_01 = p_quoted(r####""sha""####);
    let t_02 = p_quoted(r####"#""#"####);
    let t_03 = p_quoted(r####"#"sha"#"####);
    let t_04 = p_quoted(r####"#"""#"####);
    let t_05 = p_quoted(r####"##"#""#"##"####);
    let t_06 = p_quoted(r####"#""##"####);
    let t_10 = p_quoted(r####"##""#"####);
    assert_eq!(t_00, Ok((String::new(), String::from(""))));
    assert_eq!(t_01, Ok((String::from("sha"), String::from(""))));
    assert_eq!(t_02, t_00);
    assert_eq!(t_03, t_01);
    assert_eq!(t_04, Ok((String::from(r#"""#), String::from(""))));
    assert_eq!(t_05, Ok((String::from(r##"#""#"##), String::from(""))));
    assert_eq!(t_06, Ok((String::from(""), String::from("#"))));
    assert!(t_10.is_err());
}

#[test]
fn t_a_expression() {
    let t_000 = p_expression(r#""""#);
    let t_001 = p_expression(r#""title""#);
    let t_002 = p_expression(r#""tit le""#);
    let t_003 = p_expression(r#""   tit le   ""#);
    let t_004 = p_expression(r#""tit""le""#);
    let t_010 = p_expression(r#"r"""#);
    let t_011 = p_expression(r###"r##""##"###);
    let t_012 = p_expression(r#"r"re gex""#);
    let t_013 = p_expression(r#"r"   re gex   ""#);
    let t_014 = p_expression(r###"r##"   r#""#   "##"###);
    let t_015 = p_expression(
        r#####"r####".*"### I'm header 3".*|^(WRY{3,}\.*)?(ÁÑ°ÈßÑ)+$"####   etc...   "#####
    );
    let t_100 = p_expression("");
    let t_101 = p_expression("double quotes lack");
    let t_110 = p_expression("r");
    let t_111 = p_expression("r#double quotes lack#");
    let t_112 = p_expression(r###"r##" sharp num mismatch "#   "###);
    assert_eq!(t_000, Ok((Expression::Words(Vec::new()), String::from(""))));
    assert_eq!(t_001, Ok((Expression::Words(vec![String::from("title"),]), String::from(""))));
    assert_eq!(t_002, Ok((Expression::Words(vec![
        String::from("tit"),
        String::from("le"),
        ]), String::from(""))));
    assert_eq!(t_003, t_002);
    assert_eq!(t_004, Ok((Expression::Words(vec![String::from("tit"),]), String::from(r#""le""#))));
    assert_eq!(t_010, Ok((Expression::Regex(String::new()), String::from(""))));
    assert_eq!(t_011, t_010);
    assert_eq!(t_012, Ok((Expression::Regex(String::from("re gex")), String::from(""))));
    assert_eq!(t_013, Ok((Expression::Regex(String::from("   re gex   ")), String::from(""))));
    assert_eq!(t_014, Ok((Expression::Regex(String::from(r##"   r#""#   "##)), String::from(""))));
    assert_eq!(t_015, Ok((Expression::Regex(String::from(
        r####".*"### I'm header 3".*|^(WRY{3,}\.*)?(ÁÑ°ÈßÑ)+$"####
    )), String::from("   etc...   "))));
    assert!(t_100.is_err());
    assert!(t_101.is_err());
    assert!(t_110.is_err());
    assert!(t_111.is_err());
    assert!(t_112.is_err());
}

#[test]
fn t_expression_() {
    let t_000 = p_expression(r#""""#);
    let t_001 = p_expression(r#""title""#);
    let t_002 = p_expression(r#""tit le""#);
    let t_003 = p_expression(r#""   tit le   ""#);
    let t_004 = p_expression(r#""tit""le""#);
    let t_010 = p_expression(r#"r"""#);
    let t_011 = p_expression(r###"r##""##"###);
    let t_012 = p_expression(r#"r"re gex""#);
    let t_013 = p_expression(r#"r"   re gex   ""#);
    let t_014 = p_expression(r###"r##"   r#""#   "##"###);
    let t_015 = p_expression(
        r#####"r####".*"### I'm header 3".*|^(WRY{3,}\.*)?(ÁÑ°ÈßÑ)+$"####   etc...   "#####
    );
    let t_100 = p_expression("");
    let t_101 = p_expression("double quotes lack");
    let t_110 = p_expression("r");
    let t_111 = p_expression("r#double quotes lack#");
    assert_eq!(t_000, Ok((Expression::Words(Vec::new()), String::from(""))));
    assert_eq!(t_001, Ok((Expression::Words(vec![String::from("title"),]), String::from(""))));
    assert_eq!(t_002, Ok((Expression::Words(vec![
        String::from("tit"),
        String::from("le"),
        ]), String::from(""))));
    assert_eq!(t_003, t_002);
    assert_eq!(t_004, Ok((Expression::Words(vec![String::from("tit"),]), String::from(r#""le""#))));
    assert_eq!(t_010, Ok((Expression::Regex(String::new()), String::from(""))));
    assert_eq!(t_011, t_010);
    assert_eq!(t_012, Ok((Expression::Regex(String::from("re gex")), String::from(""))));
    assert_eq!(t_013, Ok((Expression::Regex(String::from("   re gex   ")), String::from(""))));
    assert_eq!(t_014, Ok((Expression::Regex(String::from(r##"   r#""#   "##)), String::from(""))));
    assert_eq!(t_015, Ok((Expression::Regex(String::from(
        r####".*"### I'm header 3".*|^(WRY{3,}\.*)?(ÁÑ°ÈßÑ)+$"####
    )), String::from("   etc...   "))));
    assert!(t_100.is_err());
    assert!(t_101.is_err());
    assert!(t_110.is_err());
    assert!(t_111.is_err());
}

#[test]
fn t_a_graphics() {
    let t_00 = p_graphics("„Å∞„Å∂üë∂aZ09!~");
    let t_10 = p_graphics("");
    let t_11 = p_graphics(" ");
    let t_12 = p_graphics("\n");
    let t_13 = p_graphics("\u{3000}");
    assert_eq!(t_00, Ok((String::from("„Å∞„Å∂üë∂aZ09!~"), String::from(""))));
    assert!(t_10.is_err());
    assert!(t_11.is_err());
    assert!(t_12.is_err());
    assert!(t_13.is_err());
}

#[test]
fn t_graphics1_() {
    let t_00 = p_graphics("„Å∞„Å∂üë∂aZ09!~");
    let t_10 = p_graphics("");
    let t_11 = p_graphics(" ");
    let t_12 = p_graphics("\n");
    let t_13 = p_graphics("\u{3000}");
    assert_eq!(t_00, Ok((String::from("„Å∞„Å∂üë∂aZ09!~"), String::from(""))));
    assert!(t_10.is_err());
    assert!(t_11.is_err());
    assert!(t_12.is_err());
    assert!(t_13.is_err());
}

#[test]
fn t_graphics1_not_joint_() {
    let t_00 = p_graphics_not_joint("„Å∞„Å∂üë∂aZ09!~");
    let t_10 = p_graphics_not_joint("");
    let t_11 = p_graphics_not_joint("[tail");
    let t_12 = p_graphics_not_joint("head]");
    assert_eq!(t_00, Ok((String::from("„Å∞„Å∂üë∂aZ09!~"), String::from(""))));
    assert!(t_10.is_err());
    assert!(t_11.is_err());
    assert_eq!(t_12, Ok((String::from("head"), String::from("]"))));
}

#[test]
fn t_a_boolean() {
    let t_00 = p_boolean("a!sl   etc...   ");
    let t_01 = p_boolean("a!");
    assert_eq!(t_00, Ok((Boolean {
        is_archived: Some(true),
        is_starred: Some(false),
        is_leaf: Some(true),
        is_root: None,
    }, String::from("   etc...   "))));
    assert_eq!(t_01, Ok((Boolean {
        is_archived: Some(true),
        is_starred: None,
        is_leaf: None,
        is_root: None,
    }, String::from("!"))));
}

#[test]
fn t_a_non_nega_i() {
    let t_00 = p_non_nega_i("000");
    let t_10 = p_non_nega_i("");
    let t_11 = p_non_nega_i("-1");
    let t_12 = p_non_nega_i("   0");
    assert_eq!(t_00, Ok((0i32, String::from(""))));
    assert!(t_10.is_err());
    assert!(t_11.is_err());
    assert!(t_12.is_err());
}

#[test]
fn t_non_nega_i_() {
    let t_00 = p_non_nega_i("000");
    let t_10 = p_non_nega_i("");
    let t_11 = p_non_nega_i("-1");
    let t_12 = p_non_nega_i("   0");
    assert_eq!(t_00, Ok((0i32, String::from(""))));
    assert!(t_10.is_err());
    assert!(t_11.is_err());
    assert!(t_12.is_err());
}

#[test]
fn t_a_non_nega_f() {
    let t_00 = p_non_nega_f("6");
    let t_01 = p_non_nega_f("6.0");
    let t_02 = p_non_nega_f("6.");
    let t_03 = p_non_nega_f(".6");
    let t_04 = p_non_nega_f("6..0");
    let t_05 = p_non_nega_f("6.0.6");
    let t_06 = p_non_nega_f("6.0e-01");
    let t_10 = p_non_nega_f(".");
    let t_11 = p_non_nega_f("   6");
    assert_eq!(t_00, Ok((6.0f32, String::from(""))));
    assert_eq!(t_01, Ok((6.0f32, String::from(""))));
    assert_eq!(t_02, Ok((6.0f32, String::from(""))));
    assert_eq!(t_03, Ok((0.6f32, String::from(""))));
    assert_eq!(t_04, Ok((6.0f32, String::from(".0"))));
    assert_eq!(t_05, Ok((6.0f32, String::from(".6"))));
    assert_eq!(t_06, Ok((6.0f32, String::from("e-01"))));
    assert!(t_10.is_err());
    assert!(t_11.is_err());
}

#[test]
fn t_non_nega_f_() {
    let t_00 = p_non_nega_f("6");
    let t_01 = p_non_nega_f("6.0");
    let t_02 = p_non_nega_f("6.");
    let t_03 = p_non_nega_f(".6");
    let t_04 = p_non_nega_f("6..0");
    let t_05 = p_non_nega_f("6.0.6");
    let t_06 = p_non_nega_f("6.0e-01");
    let t_10 = p_non_nega_f(".");
    let t_11 = p_non_nega_f("   6");
    assert_eq!(t_00, Ok((6.0f32, String::from(""))));
    assert_eq!(t_01, Ok((6.0f32, String::from(""))));
    assert_eq!(t_02, Ok((6.0f32, String::from(""))));
    assert_eq!(t_03, Ok((0.6f32, String::from(""))));
    assert_eq!(t_04, Ok((6.0f32, String::from(".0"))));
    assert_eq!(t_05, Ok((6.0f32, String::from(".6"))));
    assert_eq!(t_06, Ok((6.0f32, String::from("e-01"))));
    assert!(t_10.is_err());
    assert!(t_11.is_err());
}

fn datetime_cases() {
    let t_00 = p_datetime("//T:");
    let t_01 = p_datetime("//");
    let t_02 = p_datetime(":");
    let t_10 = p_datetime("");
    let t_11 = p_datetime("T");
    let t_12 = p_datetime("//:");
    let t_13 = p_datetime("//T");
    let t_14 = p_datetime("T:");
    assert_eq!(t_00, Ok((EasyDateTime {
        date: Some(EasyDate::default()),
        time: Some(EasyTime::default()),
    }, String::from(""))));
    assert_eq!(t_01, Ok((EasyDateTime {
        date: Some(EasyDate::default()),
        time: None,
    }, String::from(""))));
    assert_eq!(t_02, Ok((EasyDateTime {
        date: None,
        time: Some(EasyTime::default()),
    }, String::from(""))));
    assert!(t_10.is_err());
    assert!(t_11.is_err());
    assert_eq!(t_12, Ok((EasyDateTime {
        date: Some(EasyDate::default()),
        time: None,
    }, String::from(":"))));
    assert_eq!(t_13, Ok((EasyDateTime {
        date: Some(EasyDate::default()),
        time: None,
    }, String::from("T"))));
    assert!(t_14.is_err());
}

#[test]
fn t_a_datetime() {
    datetime_cases();
}

#[test]
fn t_datetime_() {
    datetime_cases();
}

fn date_cases() {
    let t_00 = p_date("//");
    let t_01 = p_date("294277/01/01");
    let t_02 = p_date("0001/01/01");
    let t_10 = p_date("");
    let t_11 = p_date("12/31");
    let t_12 = p_date("2021-01-07");
    assert_eq!(t_00, Ok((EasyDate {
        y: None,
        m: None,
        d: None,
    }, String::from(""))));
    assert!(t_01.is_ok());
    assert!(t_02.is_ok());
    assert!(t_10.is_err());
    assert!(t_11.is_err());
    assert!(t_12.is_err());
}

#[test]
fn t_a_date() {
    date_cases();
}

#[test]
fn t_date_() {
    date_cases();
}

fn time_cases() {
    let t_00 = p_time(":");
    let t_01 = p_time("00:000");
    let t_02 = p_time("023:00059");
    let t_03 = p_time("24:");
    let t_04 = p_time(":60");
    let t_05 = p_time("23:59:59");
    assert_eq!(t_00, Ok((EasyTime {
        h: None,
        m: None,
    }, String::from(""))));
    assert_eq!(t_01, Ok((EasyTime {
        h: Some(0),
        m: Some(0),
    }, String::from(""))));
    assert_eq!(t_02, Ok((EasyTime {
        h: Some(23),
        m: Some(59),
    }, String::from(""))));
    assert_eq!(t_03, Ok((EasyTime {
        h: Some(24),
        m: None,
    }, String::from(""))));
    assert_eq!(t_04, Ok((EasyTime {
        h: None,
        m: Some(60),
    }, String::from(""))));
    assert_eq!(t_05, Ok((EasyTime {
        h: Some(23),
        m: Some(59),
    }, String::from(":59"))));
}

#[test]
fn t_a_time() {
    time_cases();
}

#[test]
fn t_time_() {
    time_cases();
}

#[test]
fn t_a_req_task() {
    let t_00 = p_req_task("title");
    let t_01 = p_req_task("    title");
    let t_02 = p_req_task("    title http://localhost");
    let t_03 = p_req_task("    title\n    http://localhost");
    let t_10 = p_req_task("");
    let t_11 = p_req_task("      ambiguous indent");
    let t_12 = p_req_task("    http://localhost    as no title");
    let t_13 = p_req_task("    title\n    another    http://localhost");
    let t_14 = p_req_task("    title\n    http://localhost    extra");
    assert_eq!(t_00, Ok((plain(0, "title", None), String::from(""))));
    assert_eq!(t_01, Ok((plain(1, "title", None), String::from(""))));
    assert_eq!(t_02, Ok((plain(1, "title", Some("http://localhost")), String::from(""))));
    assert_eq!(t_03, t_02);
    assert!(t_10.is_err());
    assert!(t_11.is_err());
    assert!(t_12.is_err());
    assert_eq!(t_13, Ok((plain(1, "title", None), String::from("    another    http://localhost"))));
    assert!(t_14.is_err());
}

#[test]
fn t_a_indent() {
    let t_00 = p_indent("g");
    let t_01 = p_indent("    g");
    let t_02 = p_indent("        g    ");
    let t_10 = p_indent("");
    let t_11 = p_indent("\n");
    let t_12 = p_indent("     g");
    assert_eq!(t_00, Ok((0, String::from("g"))));
    assert_eq!(t_01, Ok((1, String::from("g"))));
    assert_eq!(t_02, Ok((2, String::from("g    "))));
    assert!(t_10.is_err());
    assert!(t_11.is_err());
    assert!(t_12.is_err());
}

#[test]
fn t_indents_() {
    let t_00 = p_indents("    g");
    let t_01 = p_indents("\t\tg    ");
    let t_03 = p_indents("");
    let t_04 = p_indents("\n");
    let t_10 = p_indents("     g");
    assert_eq!(t_00, Ok((1, String::from("g"))));
    assert_eq!(t_01, Ok((2, String::from("g    "))));
    assert_eq!(t_03, Ok((0, String::from(""))));
    assert_eq!(t_04, Ok((0, String::from("\n"))));
    assert!(t_10.is_err());
}

#[test]
fn t_a_attribute() {
    let t_00 = p_attribute("");
    let t_01 = p_attribute("\n");
    let t_02 = p_attribute("https://");
    let t_03 = p_attribute(" ");
    let t_04 = p_attribute("# ] * - / // T : $ @ [");
    let t_05 = p_attribute("#333 h] something * 15:- È≠Å -/12/ [t $5 great $530000. @satun ‚ö° \n");
    let t_06 = p_attribute("//T: //T //: // T: T :");
    let t_07 = p_attribute("//T- //:- T:- T- -");
    let t_08 = p_attribute("-T: -T -");
    let t_10 = p_attribute("head or tail ? [joint]");
    let t_11 = p_attribute("startable or deadline ? -2021/01/07-");
    let t_12 = p_attribute("-//T title");
    let t_13 = p_attribute("-//: title");
    assert_eq!(t_00, Ok((Attribute::default(), String::from(""))));
    assert_eq!(t_01, Ok((Attribute::default(), String::from("\n"))));
    assert_eq!(t_02, Ok((Attribute::default(), String::from("https://"))));
    assert_eq!(t_03, t_00);
    assert_eq!(t_04, Ok((Attribute {
        is_starred: true,
        id: None,
        weight: None,
        joint_head: None,
        joint_tail: None,
        assign: None,
        startable: None,
        deadline: None,
        title: vec![
            String::from("["),
            String::from("@"),
            String::from("$"),
            String::from(":"),
            String::from("T"),
            String::from("//"),
            String::from("/"),
            String::from("-"),
            String::from("]"),
            String::from("#"),
            ].into_iter().rev().collect::<Vec<String>>().join(" "),
    }, String::from(""))));
    let weight = t_05.as_ref().unwrap().0.weight.as_ref().unwrap().text.parse::<f32>().unwrap();
    assert_eq!(weight, 5.0);
    assert_eq!(t_05, Ok((Attribute {
        is_starred: true,
        id: Some(333),
        weight: Some(dec("5")),
        joint_head: Some(String::from("h")),
        joint_tail: Some(String::from("t")),
        assign: Some(String::from("satun")),
        startable: Some(EasyDateTime {
            date: None,
            time: Some(EasyTime {
                h: Some(15),
                m: None,
            }),
        }),
        deadline: Some(EasyDateTime {
            date: Some(EasyDate {
                y: None,
                m: Some(12),
                d: None,
            }),
            time: None,
        }),
        title: vec![
            String::from("‚ö°"),
            String::from("great"),
            String::from("È≠Å"),
            String::from("something"),
            ].into_iter().rev().collect::<Vec<String>>().join(" "),
    }, String::from("\n"))));
    assert_eq!(t_06, Ok((titled(&vec![
            String::from(":"),
            String::from("T"),
            String::from("T:"),
            String::from("//"),
            String::from("//:"),
            String::from("//T"),
            String::from("//T:"),
            ].into_iter().rev().collect::<Vec<String>>().join(" ")), String::from(""))));
    assert_eq!(t_07, Ok((titled(&vec![
            String::from("-"),
            String::from("T-"),
            String::from("T:-"),
            String::from("//:-"),
            String::from("//T-"),
            ].into_iter().rev().collect::<Vec<String>>().join(" ")), String::from(""))));
    assert_eq!(t_08, Ok((titled(&vec![
            String::from("-"),
            String::from("-T"),
            String::from("-T:"),
            ].into_iter().rev().collect::<Vec<String>>().join(" ")), String::from(""))));
    assert!(t_10.is_err());
    assert!(t_11.is_err());
    assert!(t_12.is_err());
    assert!(t_13.is_err());
}

#[test]
fn t_a_link() {
    let t_00 = p_link("https://");
    let t_01 = p_link("http://„Éã„Éõ„É≥„Ç¥");
    let t_10 = p_link("");
    let t_11 = p_link("   https://");
    assert_eq!(t_00, Ok((String::from("https://"), String::from(""))));
    assert_eq!(t_01, Ok((String::from("http://"), String::from("„Éã„Éõ„É≥„Ç¥"))));
    assert!(t_10.is_err());
    assert!(t_11.is_err());
}

#[test]
fn task_batch_with_indent_and_link() {
    let found = parse("jump https://jump\n    step\n    http://step").unwrap();
    let tasks = match found {
        Req::Tasks(tasks) => tasks.tasks,
        Req::Command(_) => panic!("a command"),
    };
    let leaf_first: Vec<ReqTask> = tasks.into_iter().rev().collect();
    assert_eq!(leaf_first, vec![plain(1, "step", Some("http://step")), plain(0, "jump", Some("https://jump"))]);
}

#[test]
fn commands_through_parse() {
    assert_eq!(parse("/"), Ok(Req::Command(ReqCommand::Help)));
    assert_eq!(parse(" /  \n"), Ok(Req::Command(ReqCommand::Help)));
    assert_eq!(parse("/ <!-- this help -->"), Ok(Req::Command(ReqCommand::Help)));
    assert_eq!(parse("/u"), Ok(Req::Command(ReqCommand::User(ReqUser::Info))));
    assert_eq!(parse("/tutorial"), Ok(Req::Command(ReqCommand::Tutorial)));
    assert_eq!(parse("/coffee"), Ok(Req::Command(ReqCommand::Coffee)));
    assert_eq!(
        parse("/u -e someone@example.com"),
        Ok(Req::Command(ReqCommand::User(ReqUser::Modify(ReqModify::Email(String::from("someone@example.com"))))))
    );
    assert_eq!(
        parse("/u -t 6h"),
        Ok(Req::Command(ReqCommand::User(ReqUser::Modify(ReqModify::Timescale(Timescale::Hours)))))
    );
    assert_eq!(
        parse("/u -t s"),
        Ok(Req::Command(ReqCommand::User(ReqUser::Modify(ReqModify::Timescale(Timescale::Second)))))
    );
    assert_eq!(
        parse("/u -a 9:00-3h 13:30-4h"),
        Ok(Req::Command(ReqCommand::User(ReqUser::Modify(ReqModify::Allocations(vec![
            ReqAllocation { open_h: 9, open_m: 0, hours: 3 },
            ReqAllocation { open_h: 13, open_m: 30, hours: 4 },
        ])))))
    );
    assert_eq!(
        parse("/u -a"),
        Ok(Req::Command(ReqCommand::User(ReqUser::Modify(ReqModify::Allocations(Vec::new())))))
    );
    assert_eq!(parse("/s"), Ok(Req::Command(ReqCommand::Search(Condition::default()))));
}

#[test]
fn every_kind_of_error() {
    assert_eq!(parse("/x"), Err(ParseError { kind: ParseErrorKind::UnexpectedChar, position: 1 }));
    assert_eq!(parse("title\n*"), Err(ParseError { kind: ParseErrorKind::EmptyTitle, position: 6 }));
    assert_eq!(parse("/s \"open"), Err(ParseError { kind: ParseErrorKind::UnterminatedQuote, position: 3 }));
    assert_eq!(
        parse("/u -a 99999999999:00-1h"),
        Err(ParseError { kind: ParseErrorKind::BadNumber, position: 6 })
    );
    assert_eq!(parse("/s r\"(\""), Err(ParseError { kind: ParseErrorKind::BadRegex, position: 3 }));
    assert_eq!(parse("a\n  two"), Err(ParseError { kind: ParseErrorKind::UnexpectedChar, position: 2 }));
    assert_eq!(parse("a\n      six"), Err(ParseError { kind: ParseErrorKind::UnexpectedChar, position: 6 }));
    assert_eq!(parse("*x"), Err(ParseError { kind: ParseErrorKind::UnexpectedChar, position: 1 }));
}

#[test]
fn a_syntax_error_is_a_bad_request() {
    match Req::from_str("/x") {
        Err(ServiceError::BadRequest(message)) => assert_eq!(message, "there seems to be a syntax error."),
        _ => panic!("no bad request"),
    }
    assert_eq!(Req::from_str("/"), Ok(Req::Command(ReqCommand::Help)));
    assert_eq!(ServiceError::Unauthorized.status_code(), 401);
    assert_eq!(ServiceError::InternalServerError.status_code(), 500);
    assert_eq!(ServiceError::BadRequest(String::new()).status_code(), 400);
}

#[test]
fn of_two_atoms_the_first_counts() {
    let found = p_condition("-a 1<# -!a 2<#<3").unwrap().0;
    assert_eq!(found.boolean.is_archived, Some(true));
    assert_eq!(found.context, (Some(1), Some(3)));
    let line = p_attribute("#1 #2 a $1 $2 b").unwrap().0;
    assert_eq!(line.id, Some(1));
    assert_eq!(line.weight, Some(dec("1")));
    assert_eq!(line.title, "a b");
}

#[test]
fn tabs_indent_too() {
    assert_eq!(p_req_task("\t    \ttitle"), Ok((plain(3, "title", None), String::from(""))));
    assert_eq!(a_req_allocation(&cs("7:5-24h"), 0), Ok((ReqAllocation { open_h: 7, open_m: 5, hours: 24 }, 7)));
}

fn written(text: &str) -> Option<String> {
    parse(text).unwrap().render()
}

#[test]
fn tasks_written_down_read_as_they_were_read() {
    let texts = [
        "title",
        "jump https://jump\n    step\n    http://step",
        "a  *  #007 $5.   h] [t @me 2021/01/07T09:05- -//30 b   c\n\n\n    \td\n        e",
        "a\n/x",
        "-T: -T -",
        "",
    ];
    for text in texts {
        let read = parse(text).unwrap();
        let again = read.render().unwrap();
        assert_eq!(parse(&again).unwrap(), read, "{:?} written as {:?}", text, again);
    }
    assert_eq!(
        written("jump https://jump\n    step\n    http://step"),
        Some(String::from("jump https://jump\n    step http://step"))
    );
    assert_eq!(
        written("b  *  #007 $5.   h] [t @me 2021/01/07T09:05- -//30 a   c"),
        Some(String::from("* #7 $5. h] [t @me 2021/1/7T9:5- -//30 b a c"))
    );
    assert_eq!(written("\ttab"), Some(String::from("tab")));
    assert_eq!(written("a\n\t\tb"), Some(String::from("a\n        b")));
    assert_eq!(written(""), Some(String::from("")));
}

#[test]
fn what_would_not_read_back_is_not_written() {
    // the start would come first, and a slash with it
    assert_eq!(written("x /12/-"), None);
    assert_eq!(written("x /h]"), None);
    // washing has brought the opening mark of a comment together
    assert_eq!(written("x <!<!---->--"), None);
    // values that no text gives
    let spaced = ReqTasks { tasks: vec![plain(0, "a  b", None)] };
    assert_eq!(spaced.render(), None);
    let untitled = ReqTasks { tasks: vec![plain(0, "", None)] };
    assert_eq!(untitled.render(), None);
    let negative = ReqTasks { tasks: vec![plain(-1, "a", None)] };
    assert_eq!(negative.render(), None);
    let fine = ReqTasks { tasks: vec![plain(0, "a b", None)] };
    assert_eq!(fine.render(), Some(String::from("a b")));
    assert_eq!(Req::Tasks(fine).render(), Some(String::from("a b")));
}

#[test]
fn white_space_is_run_through() {
    let text = cs("a \t\u{3000}\n b");
    assert_eq!(a_inline_spaces(&text, 0), 0);
    assert_eq!(a_inline_spaces(&text, 1), 4);
    assert_eq!(a_inline_spaces(&text, 4), 4);
    assert_eq!(a_inline_spaces(&text, 7), 7);
    assert_eq!(a_spaces1(&text, 0), None);
    assert_eq!(a_spaces1(&text, 1), Some(6));
    assert_eq!(a_spaces1(&text, 4), Some(6));
    assert_eq!(a_spaces1(&text, 7), None);
}
