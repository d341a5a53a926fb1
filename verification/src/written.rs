//! Writing a request down again: the text of a command, of what it asks
//! of the account and of a search, character by character, and the text of
//! a request where it is read as the request itself.

use vstd::prelude::*;
use crate::command::{coffee, tutorial};
use crate::errors::ParseError;
use crate::parser::{parse, parsed};
use crate::render::{
    after, allocation_text, allocations_text, command_text, condition_text, datetime_chars, expression_text,
    flag_text, flags_text, hashes_text, is_plain_datetime, lines_text, modify_text, moment_bound_text, number_bound_text,
    plain_datetime, plain_lines, quoted_text, range_piece, request_text, search_assign, search_link, search_title,
    tasks_chars, user_text, words_text,
};
use crate::request::{
    Boolean, Condition, ConditionView, Decimal, Expression, Req, ReqAllocation, ReqCommand, ReqCommandView,
    ReqModify, ReqModifyView, ReqTasks, ReqUser, ReqUserView, ReqView, no_boolean,
};
use crate::same::{same_command, same_tasks};
use crate::text::{chars_of, decimal_of, joined, string_of};
use crate::time::EasyDateTime;

verus! {

/// The one character `c`.
fn one(c: char) -> (text: Vec<char>)
    ensures
        text@ == seq![c],
{
    let mut text: Vec<char> = Vec::new();
    text.push(c);
    text
}

/// The characters of a piece of text, where there is one.
pub open spec fn shown(piece: Option<Vec<char>>) -> Option<Seq<char>> {
    match piece {
        Some(p) => Some(p@),
        None => None,
    }
}

/// None of the numbers of the daily window is negative.
pub open spec fn plain_window(a: ReqAllocation) -> bool {
    a.open_h >= 0 && a.open_m >= 0 && a.hours >= 0
}

/// A daily window as text (see `allocation_text`).
fn allocation_chars(a: &ReqAllocation) -> (text: Vec<char>)
    requires
        plain_window(*a),
    ensures
        text@ == allocation_text(*a),
{
    let opens = joined(&joined(&decimal_of(a.open_h as i64), &one(':')), &decimal_of(a.open_m as i64));
    joined(&joined(&joined(&opens, &one('-')), &decimal_of(a.hours as i64)), &one('h'))
}

/// Daily windows as text, a space before each (see `allocations_text`).
fn allocations_chars(windows: &Vec<ReqAllocation>) -> (text: Vec<char>)
    requires
        plain_windows(windows@),
    ensures
        text@ == allocations_text(windows@, 0),
{
    let mut text: Vec<char> = Vec::new();
    let mut i: usize = windows.len();
    while i > 0
        invariant
            i <= windows.len(),
            plain_windows(windows@),
            text@ == allocations_text(windows@, i as int),
        decreases i,
    {
        i -= 1;
        text = joined(&joined(&one(' '), &allocation_chars(&windows[i])), &text);
    }
    text
}

/// None of the numbers of the daily windows is negative.
pub open spec fn plain_windows(windows: Seq<ReqAllocation>) -> bool {
    forall|i: int| 0 <= i < windows.len() ==> plain_window(#[trigger] windows[i])
}

/// No number that the change names is negative.
pub open spec fn plain_modify(m: ReqModifyView) -> bool {
    match m {
        ReqModifyView::Allocations(windows) => plain_windows(windows),
        _ => true,
    }
}

/// A change to the account as text (see `modify_text`).
fn modify_chars(m: &ReqModify) -> (text: Vec<char>)
    requires
        plain_modify(m.deep_view()),
    ensures
        text@ == modify_text(m.deep_view()),
{
    match m {
        ReqModify::Email(address) => {
            let text = joined(&joined(&one('e'), &one(' ')), &chars_of(address.as_str()));
            assert(text@ =~= seq!['e', ' '] + address@);
            text
        },
        ReqModify::Password(p) => {
            let first = joined(&joined(&one('p'), &one(' ')), &chars_of(p.old.as_str()));
            let second = joined(&joined(&first, &one(' ')), &chars_of(p.new.as_str()));
            let text = joined(&joined(&second, &one(' ')), &chars_of(p.confirmation.as_str()));
            assert(text@ =~= seq!['p', ' '] + p.old@ + seq![' '] + p.new@ + seq![' '] + p.confirmation@);
            text
        },
        ReqModify::Name(name) => {
            let text = joined(&joined(&one('n'), &one(' ')), &chars_of(name.as_str()));
            assert(text@ =~= seq!['n', ' '] + name@);
            text
        },
        ReqModify::Timescale(scale) => {
            let text = joined(&joined(&one('t'), &one(' ')), &chars_of(scale.as_str()));
            assert(text@ =~= seq!['t', ' '] + scale.text());
            text
        },
        ReqModify::Allocations(windows) => {
            assert(plain_windows(windows@));
            joined(&one('a'), &allocations_chars(windows))
        },
    }
}

/// What is asked of the account, as text (see `user_text`).
fn user_chars(u: &ReqUser) -> (text: Vec<char>)
    requires
        u.deep_view() is Modify ==> plain_modify(u.deep_view()->0),
    ensures
        text@ == user_text(u.deep_view()),
{
    match u {
        ReqUser::Info => Vec::new(),
        ReqUser::Modify(m) => {
            let text = joined(&joined(&one(' '), &one('-')), &modify_chars(m));
            assert(text@ =~= seq![' ', '-'] + modify_text(m.deep_view()));
            text
        },
    }
}

/// A flag as text (see `flag_text`).
fn flag_chars(value: Option<bool>, letter: char) -> (text: Vec<char>)
    ensures
        text@ == flag_text(value, letter),
{
    match value {
        Some(true) => one(letter),
        Some(false) => {
            let text = joined(&one('!'), &one(letter));
            assert(text@ =~= seq!['!', letter]);
            text
        },
        None => Vec::new(),
    }
}

/// The flags as text (see `flags_text`).
fn flags_chars(b: &Boolean) -> (text: Vec<char>)
    ensures
        text@ == flags_text(*b),
{
    let last = joined(&flag_chars(b.is_leaf, 'l'), &flag_chars(b.is_root, 'r'));
    joined(&flag_chars(b.is_archived, 'a'), &joined(&flag_chars(b.is_starred, 's'), &last))
}

/// A range as text, where it has a bound (see `range_piece`).
fn range_chars(low: Option<Vec<char>>, letter: char, high: Option<Vec<char>>) -> (text: Option<Vec<char>>)
    ensures
        shown(text) == range_piece(shown(low), letter, shown(high)),
{
    if low.is_none() && high.is_none() {
        return None;
    }
    let front = match &low {
        Some(l) => joined(l, &one('<')),
        None => Vec::new(),
    };
    let back = match &high {
        Some(h) => joined(&one('<'), h),
        None => Vec::new(),
    };
    Some(joined(&front, &joined(&one(letter), &back)))
}

/// `piece` behind a space and before `rest` (see `after`).
fn put_after(piece: Option<Vec<char>>, rest: Vec<char>) -> (text: Vec<char>)
    ensures
        text@ == after(shown(piece), rest@),
{
    match piece {
        Some(p) => joined(&one(' '), &joined(&p, &rest)),
        None => rest,
    }
}

/// A number that is not negative as a bound.
fn number_bound_chars(n: Option<i64>) -> (text: Option<Vec<char>>)
    requires
        n is Some ==> n->0 >= 0,
    ensures
        shown(text) == number_bound_text(n),
{
    match n {
        Some(n) => Some(decimal_of(n)),
        None => None,
    }
}

/// A decimal numeral as a bound.
fn weight_bound_chars(w: &Option<Decimal>) -> (text: Option<Vec<char>>)
    ensures
        shown(text) == w.deep_view(),
{
    match w {
        Some(w) => Some(chars_of(w.text.as_str())),
        None => None,
    }
}

/// A date or time as a bound.
fn moment_bound_chars(dt: &Option<EasyDateTime>) -> (text: Option<Vec<char>>)
    requires
        dt is Some ==> plain_datetime(dt->0),
    ensures
        shown(text) == moment_bound_text(*dt),
{
    match dt {
        Some(dt) => Some(datetime_chars(dt)),
        None => None,
    }
}

/// A range of dates and times as text, where it has a bound.
fn moments_chars(r: &(Option<EasyDateTime>, Option<EasyDateTime>), letter: char) -> (text: Option<Vec<char>>)
    requires
        plain_moments(*r),
    ensures
        shown(text) == range_piece(moment_bound_text(r.0), letter, moment_bound_text(r.1)),
{
    range_chars(moment_bound_chars(&r.0), letter, moment_bound_chars(&r.1))
}

/// As many hash signs as `depth` (see `hashes_text`).
fn hashes_chars(depth: usize) -> (text: Vec<char>)
    ensures
        text@ == hashes_text(depth as int),
{
    let mut text: Vec<char> = Vec::new();
    let mut i: usize = 0;
    while i < depth
        invariant
            i <= depth,
            text@ == hashes_text(i as int),
        decreases depth - i,
    {
        text.push('#');
        i += 1;
    }
    text
}

/// A quotation of `depth` as text (see `quoted_text`).
fn quoted_chars(text: &Vec<char>, depth: usize) -> (quoted: Vec<char>)
    ensures
        quoted@ == quoted_text(text@, depth as int),
{
    let marks = hashes_chars(depth);
    joined(&marks, &joined(&one('"'), &joined(text, &joined(&one('"'), &marks))))
}

/// Words as text, a space between one and the next (see `words_text`).
fn words_chars(words: &Vec<String>) -> (text: Vec<char>)
    ensures
        text@ == words_text(words.deep_view(), 0),
{
    let ghost all = words.deep_view();
    let mut text: Vec<char> = Vec::new();
    let mut i: usize = words.len();
    while i > 0
        invariant
            i <= words.len(),
            all == words.deep_view(),
            text@ == words_text(all, i as int),
        decreases i,
    {
        i -= 1;
        assert(all[i as int] == words@[i as int]@);
        let word = chars_of(words[i].as_str());
        if i + 1 == words.len() {
            text = word;
        } else {
            text = joined(&word, &joined(&one(' '), &text));
        }
    }
    text
}

/// An expression as text (see `expression_text`).
fn expression_chars(x: &Expression, depth: usize) -> (text: Vec<char>)
    ensures
        text@ == expression_text(x.deep_view(), depth as int),
{
    match x {
        Expression::Words(words) => quoted_chars(&words_chars(words), depth),
        Expression::Regex(pattern) => joined(&one('r'), &quoted_chars(&chars_of(pattern.as_str()), 4)),
    }
}

/// Neither bound, where there is one, holds a negative number.
pub open spec fn plain_moments(r: (Option<EasyDateTime>, Option<EasyDateTime>)) -> bool {
    &&& r.0 is Some ==> plain_datetime(r.0->0)
    &&& r.1 is Some ==> plain_datetime(r.1->0)
}

/// No number that the search names is negative.
pub open spec fn plain_condition(c: ConditionView) -> bool {
    &&& c.context.0 is Some ==> c.context.0->0 >= 0
    &&& c.context.1 is Some ==> c.context.1->0 >= 0
    &&& plain_moments(c.startable)
    &&& plain_moments(c.deadline)
    &&& plain_moments(c.created_at)
    &&& plain_moments(c.updated_at)
}

/// A search as text (see `condition_text`).
fn condition_chars(c: &Condition) -> (text: Vec<char>)
    requires
        plain_condition(c.deep_view()),
    ensures
        text@ == condition_text(c.deep_view()),
{
    let ghost v = c.deep_view();
    let link = match &c.link {
        Some(x) => Some(joined(&one('&'), &expression_chars(x, 4))),
        None => None,
    };
    let assign = match &c.assign {
        Some(x) => Some(joined(&one('@'), &expression_chars(x, 4))),
        None => None,
    };
    let title = match &c.title {
        Some(x) => Some(expression_chars(x, 0)),
        None => None,
    };
    let asked = put_after(title, put_after(assign, put_after(link, Vec::new())));
    assert(asked@ == after(search_title(v), after(search_assign(v), after(search_link(v), Seq::empty()))));
    let updated = put_after(moments_chars(&c.updated_at, 'u'), asked);
    let created = put_after(moments_chars(&c.created_at, 'c'), updated);
    let deadline = put_after(moments_chars(&c.deadline, 'd'), created);
    let startable = put_after(moments_chars(&c.startable, 's'), deadline);
    let weight = put_after(range_chars(weight_bound_chars(&c.weight.0), 'w', weight_bound_chars(&c.weight.1)), startable);
    let context = put_after(
        range_chars(number_bound_chars(c.context.0), '#', number_bound_chars(c.context.1)),
        weight,
    );
    let flags = if is_open(&c.boolean) {
        None
    } else {
        Some(joined(&one('-'), &flags_chars(&c.boolean)))
    };
    put_after(flags, context)
}

/// Whether the four properties are all left open.
fn is_open(b: &Boolean) -> (yes: bool)
    ensures
        yes == (*b == no_boolean()),
{
    b.is_archived.is_none() && b.is_starred.is_none() && b.is_leaf.is_none() && b.is_root.is_none()
}

/// No number that the command names is negative.
pub open spec fn plain_command(c: ReqCommandView) -> bool {
    match c {
        ReqCommandView::User(ReqUserView::Modify(m)) => plain_modify(m),
        ReqCommandView::Search(search) => plain_condition(search),
        _ => true,
    }
}

/// A command as text (see `command_text`).
pub fn command_chars(c: &ReqCommand) -> (text: Vec<char>)
    requires
        plain_command(c.deep_view()),
    ensures
        text@ == command_text(c.deep_view()),
{
    match c {
        ReqCommand::Help => Vec::new(),
        ReqCommand::User(u) => joined(&one('u'), &user_chars(u)),
        ReqCommand::Search(search) => joined(&one('s'), &condition_chars(search)),
        ReqCommand::Tutorial => {
            proof {
                reveal_strlit("tutorial");
            }
            let text = chars_of("tutorial");
            assert(text@ =~= tutorial());
            text
        },
        ReqCommand::Coffee => {
            proof {
                reveal_strlit("coffee");
            }
            let text = chars_of("coffee");
            assert(text@ =~= coffee());
            text
        },
    }
}

/// Whether neither bound holds a negative number.
fn is_plain_moments(r: &(Option<EasyDateTime>, Option<EasyDateTime>)) -> (yes: bool)
    ensures
        yes == plain_moments(*r),
{
    (match &r.0 {
        Some(dt) => is_plain_datetime(dt),
        None => true,
    }) && (match &r.1 {
        Some(dt) => is_plain_datetime(dt),
        None => true,
    })
}

/// Whether no number that the search names is negative.
fn is_plain_condition(c: &Condition) -> (yes: bool)
    ensures
        yes == plain_condition(c.deep_view()),
{
    (match c.context.0 {
        Some(n) => n >= 0,
        None => true,
    }) && (match c.context.1 {
        Some(n) => n >= 0,
        None => true,
    }) && is_plain_moments(&c.startable) && is_plain_moments(&c.deadline) && is_plain_moments(&c.created_at)
        && is_plain_moments(&c.updated_at)
}

/// Whether none of the numbers of the daily windows is negative.
fn is_plain_windows(windows: &Vec<ReqAllocation>) -> (yes: bool)
    ensures
        yes == plain_windows(windows@),
{
    let mut i: usize = 0;
    while i < windows.len()
        invariant
            i <= windows.len(),
            forall|k: int| 0 <= k < i ==> plain_window(#[trigger] windows@[k]),
        decreases windows.len() - i,
    {
        if windows[i].open_h < 0 || windows[i].open_m < 0 || windows[i].hours < 0 {
            assert(!plain_window(windows@[i as int]));
            return false;
        }
        i += 1;
    }
    true
}

/// Whether no number that the command names is negative.
fn is_plain_command(c: &ReqCommand) -> (yes: bool)
    ensures
        yes == plain_command(c.deep_view()),
{
    match c {
        ReqCommand::User(ReqUser::Modify(ReqModify::Allocations(windows))) => is_plain_windows(windows),
        ReqCommand::Search(search) => is_plain_condition(search),
        _ => true,
    }
}

/// No number that the request names is negative.
pub open spec fn plain_request(r: ReqView) -> bool {
    match r {
        ReqView::Command(c) => plain_command(c),
        ReqView::Tasks(tasks) => plain_lines(tasks),
    }
}

/// The request reads back: what is written of it is read as the request itself.
pub open spec fn reads_back(r: ReqView) -> bool {
    parsed(request_text(r)) == Ok::<ReqView, ParseError>(r)
}

/// The request can be written down: no number that it names is
/// negative, and what is written of it is read as the request itself.
pub open spec fn writable(r: ReqView) -> bool {
    plain_request(r) && reads_back(r)
}

impl ReqTasks {
    /// The task lines as text, each line its indent in units of four
    /// spaces, the star, the id behind `#`, the weight behind `$`, the head
    /// of the joint before `]` and its tail behind `[`, the assignee
    /// behind `@`, the start before `-`, the deadline behind `-`, the
    /// title and the link, one space between one and the next, and a line
    /// feed between the lines. `None` where a number is negative, or where
    /// the text would not be read as these lines: lines that would start
    /// with a slash, text that washing would change, or lines that no text gives.
    pub fn render(&self) -> (text: Option<String>)
        ensures
            match text {
                Some(t) => writable(ReqView::Tasks(self.deep_view())) && t@ == lines_text(self.deep_view(), 0)
                    && parsed(t@) == Ok::<ReqView, ParseError>(ReqView::Tasks(self.deep_view())),
                None => !writable(ReqView::Tasks(self.deep_view())),
            },
    {
        if !self.is_plain() {
            return None;
        }
        let text = string_of(&tasks_chars(self));
        let same = match parse(text.as_str()) {
            Ok(Req::Tasks(again)) => same_tasks(&again, self),
            _ => false,
        };
        if same {
            Some(text)
        } else {
            None
        }
    }
}

impl Req {
    /// The request as text: a command behind a slash, with what it asks
    /// of the account or the parts of its search, a space before each; or
    /// task lines (see `ReqTasks::render`). `None` where a number is
    /// negative, or where the text would not be read as this request.
    pub fn render(&self) -> (text: Option<String>)
        ensures
            match text {
                Some(t) => writable(self.deep_view()) && t@ == request_text(self.deep_view()) && parsed(t@)
                    == Ok::<ReqView, ParseError>(self.deep_view()),
                None => !writable(self.deep_view()),
            },
    {
        match self {
            Req::Command(c) => {
                if !is_plain_command(c) {
                    return None;
                }
                let text = string_of(&joined(&one('/'), &command_chars(c)));
                let same = match parse(text.as_str()) {
                    Ok(Req::Command(again)) => same_command(&again, c),
                    _ => false,
                };
                if same {
                    Some(text)
                } else {
                    None
                }
            },
            Req::Tasks(tasks) => tasks.render(),
        }
    }
}

} // verus!
