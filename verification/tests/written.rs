use sprig::parser::parse;
use sprig::request::{Condition, Req, ReqAllocation, ReqCommand, ReqModify, ReqUser};

fn again(text: &str) -> String {
    parse(text).unwrap().render().unwrap()
}

#[test]
fn commands_written_down_read_as_they_were_read() {
    let texts = [
        "/",
        "/u",
        "/u   -e a@b.c",
        "/u -p old new12345 new12345",
        "/u -n  name",
        "/u -t 15m",
        "/u -t s",
        "/u -a 9:0-3h   13:30-4h",
        "/s",
        "/s -a!s",
        "/s 1<#<3 w<2.5 2021//<s d<//T: c u<1/1/1T1:1",
        "/s 0.5<w<.75 #<4 12<#",
        "/s \"two  words\" @##\"a \"# quote\"## &r\"^h.*\"",
        "/s r#\"x\"y\"# -lr!a",
        "/s   \"\"  ",
        "/tutorial",
        "/coffee",
        "/coffee and more",
    ];
    for text in texts {
        let read = parse(text).unwrap();
        let written = read.render().unwrap();
        assert_eq!(parse(&written).unwrap(), read, "{:?} written as {:?}", text, written);
        assert!(written.starts_with('/'));
    }
}

#[test]
fn commands_are_written_in_one_way() {
    assert_eq!(again("/"), "/");
    assert_eq!(again("/u"), "/u");
    assert_eq!(again("/u   -a 09:00-3h   13:30-4h"), "/u -a 9:0-3h 13:30-4h");
    assert_eq!(again("/u -t 6h"), "/u -t 6h");
    assert_eq!(again("/u -p a b c"), "/u -p a b c");
    assert_eq!(again("/s   \"b  a\" -s!a 007<#"), "/s -!as 7<# \"b a\"");
    assert_eq!(again("/s @\"me\" &r\"^h\""), "/s @####\"me\"#### &r####\"^h\"####");
    assert_eq!(again("/s u<//1 2021//<s 1.50<w"), "/s 1.50<w 2021//<s u<//1");
    assert_eq!(again("/coffee and more"), "/coffee");
    assert_eq!(again("/tutorial"), "/tutorial");
    assert_eq!(again("a\n\tb"), "a\n    b");
}

#[test]
fn a_command_that_would_not_read_back_is_not_written() {
    // an address that washing would cut
    assert_eq!(parse("/u -n x<!<!---->--").unwrap().render(), None);
    // values that no text gives
    let spaced = ReqModify::Name(String::from("two words"));
    assert_eq!(Req::Command(ReqCommand::User(ReqUser::Modify(spaced))).render(), None);
    let named = ReqModify::Name(String::from("word"));
    assert_eq!(Req::Command(ReqCommand::User(ReqUser::Modify(named))).render(), Some(String::from("/u -n word")));
}

#[test]
fn a_negative_number_is_not_written() {
    let search = Condition { context: (Some(-1), None), ..Condition::default() };
    assert_eq!(Req::Command(ReqCommand::Search(search)).render(), None);
    let windows = vec![ReqAllocation { open_h: 9, open_m: -1, hours: 3 }];
    assert_eq!(Req::Command(ReqCommand::User(ReqUser::Modify(ReqModify::Allocations(windows)))).render(), None);
    assert_eq!(Req::Command(ReqCommand::Help).render(), Some(String::from("/")));
}
