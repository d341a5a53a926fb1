//! Task lines: an indent, what the line says of its task, and a link.

use vstd::prelude::*;
use vstd::string::StringExecFns;
use crate::errors::{ParseError, ParseErrorKind};
use crate::lexer::{
    same, same_opt, advances, advances_opt, failure, is_at, at_is, non_nega_i, non_nega_f, word, link, datetime,
    a_non_nega_i, a_non_nega_f, a_word, a_link, a_datetime,
};
use crate::request::{Attribute, AttributeView, Decimal, ReqTask, ReqTaskView, ReqTasks, no_attribute};
use crate::text::{Class, span, run, lemma_span};
use crate::time::EasyDateTime;

verus! {

/// One thing that a task line says of its task.
#[derive(Debug, PartialEq, Eq)]
pub enum Token {
    Star,
    Id(i64),
    Weight(Decimal),
    Head(String),
    Tail(String),
    Assign(String),
    Startable(EasyDateTime),
    Deadline(EasyDateTime),
    Title(String),
}

/// A `Token` as plain values.
pub enum TokenView {
    Star,
    Id(i64),
    Weight(Seq<char>),
    Head(Seq<char>),
    Tail(Seq<char>),
    Assign(Seq<char>),
    Startable(EasyDateTime),
    Deadline(EasyDateTime),
    Title(Seq<char>),
}

impl DeepView for Token {
    type V = TokenView;

    open spec fn deep_view(&self) -> TokenView {
        match self {
            Token::Star => TokenView::Star,
            Token::Id(n) => TokenView::Id(*n),
            Token::Weight(w) => TokenView::Weight(w.text@),
            Token::Head(g) => TokenView::Head(g@),
            Token::Tail(g) => TokenView::Tail(g@),
            Token::Assign(g) => TokenView::Assign(g@),
            Token::Startable(t) => TokenView::Startable(*t),
            Token::Deadline(t) => TokenView::Deadline(*t),
            Token::Title(g) => TokenView::Title(g@),
        }
    }
}

/// How long the unit of indent at `at` is: a tab, four spaces, or nothing.
pub open spec fn unit(s: Seq<char>, at: int) -> int {
    if is_at(s, at, '\t') {
        1
    } else if is_at(s, at, ' ') && is_at(s, at + 1, ' ') && is_at(s, at + 2, ' ') && is_at(s, at + 3, ' ') {
        4
    } else {
        0
    }
}

/// Where the units of indent from `at` on end.
pub open spec fn indent_end(s: Seq<char>, at: int) -> int
    decreases s.len() - at,
{
    if unit(s, at) == 0 {
        at
    } else {
        indent_end(s, at + unit(s, at))
    }
}

/// How many units of indent stand at `at`.
pub open spec fn indent_count(s: Seq<char>, at: int) -> int
    decreases s.len() - at,
{
    if unit(s, at) == 0 {
        0
    } else {
        1 + indent_count(s, at + unit(s, at))
    }
}

/// The indent at `at`: how many units stand there, each a tab or four
/// spaces. Spaces that do not make a unit are refused.
pub open spec fn indents(s: Seq<char>, at: int) -> Result<(i32, int), ParseError> {
    let end = indent_end(s, at);
    if is_at(s, end, ' ') {
        failure(ParseErrorKind::UnexpectedChar, end)
    } else if indent_count(s, at) > i32::MAX {
        failure(ParseErrorKind::BadNumber, at)
    } else {
        Ok((indent_count(s, at) as i32, end))
    }
}

/// The indent of a task line: units of indent, and a graphic character behind them.
pub open spec fn indent(s: Seq<char>, at: int) -> Result<(i32, int), ParseError> {
    match indents(s, at) {
        Ok((n, end)) => if 0 <= end < s.len() && Class::Graphic.holds(s[end]) {
            Ok((n, end))
        } else {
            failure(ParseErrorKind::UnexpectedChar, end)
        },
        Err(e) => Err(e),
    }
}

/// A number behind `#`, as the id of a task.
pub open spec fn id_token(s: Seq<char>, at: int) -> Option<(TokenView, int)> {
    if is_at(s, at, '#') {
        match non_nega_i(s, at + 1) {
            Ok((n, next)) => Some((TokenView::Id(n as i64), next)),
            Err(_) => None,
        }
    } else {
        None
    }
}

/// A decimal numeral behind `$`, as a weight.
pub open spec fn weight_token(s: Seq<char>, at: int) -> Option<(TokenView, int)> {
    if is_at(s, at, '$') {
        match non_nega_f(s, at + 1) {
            Some((w, next)) => Some((TokenView::Weight(w), next)),
            None => None,
        }
    } else {
        None
    }
}

/// A word before `]`, as the head of a joint.
pub open spec fn head_token(s: Seq<char>, at: int) -> Option<(TokenView, int)> {
    match word(s, at, Class::Plain) {
        Some((g, next)) => if is_at(s, next, ']') {
            Some((TokenView::Head(g), next + 1))
        } else {
            None
        },
        None => None,
    }
}

/// A word behind `[`, as the tail of a joint.
pub open spec fn tail_token(s: Seq<char>, at: int) -> Option<(TokenView, int)> {
    if is_at(s, at, '[') {
        match word(s, at + 1, Class::Plain) {
            Some((g, next)) => Some((TokenView::Tail(g), next)),
            None => None,
        }
    } else {
        None
    }
}

/// A word of printable ASCII characters behind `@`, as the assignee.
pub open spec fn assign_token(s: Seq<char>, at: int) -> Option<(TokenView, int)> {
    if is_at(s, at, '@') {
        match word(s, at + 1, Class::AsciiGraphic) {
            Some((g, next)) => Some((TokenView::Assign(g), next)),
            None => None,
        }
    } else {
        None
    }
}

/// A date or time before `-`, as the moment from which the task may start.
pub open spec fn startable_token(s: Seq<char>, at: int) -> Option<(TokenView, int)> {
    match datetime(s, at) {
        Some((t, next)) => if is_at(s, next, '-') {
            Some((TokenView::Startable(t), next + 1))
        } else {
            None
        },
        None => None,
    }
}

/// A date or time behind `-`, as the deadline.
pub open spec fn deadline_token(s: Seq<char>, at: int) -> Option<(TokenView, int)> {
    if is_at(s, at, '-') {
        match datetime(s, at + 1) {
            Some((t, next)) => Some((TokenView::Deadline(t), next)),
            None => None,
        }
    } else {
        None
    }
}

/// A word of graphic characters, as a part of the title.
pub open spec fn title_token(s: Seq<char>, at: int) -> Option<(TokenView, int)> {
    match word(s, at, Class::Graphic) {
        Some((g, next)) => Some((TokenView::Title(g), next)),
        None => None,
    }
}

/// The first of two readings that is there.
pub open spec fn or(first: Option<(TokenView, int)>, second: Option<(TokenView, int)>) -> Option<
    (TokenView, int),
> {
    if first is Some {
        first
    } else {
        second
    }
}

/// What stands at `at`, read in the first of these ways that fits: `*`
/// for a star; `#` and a number for the id; `$` and a decimal numeral for
/// the weight; a word and `]` for the head of a joint; `[` and a word for
/// its tail; `@` and a name for the assignee; a date or time and `-` for
/// the start; `-` and a date or time for the deadline; a word for the title.
pub open spec fn token(s: Seq<char>, at: int) -> Option<(TokenView, int)> {
    if is_at(s, at, '*') {
        Some((TokenView::Star, at + 1))
    } else {
        or(
            id_token(s, at),
            or(
                weight_token(s, at),
                or(
                    head_token(s, at),
                    or(
                        tail_token(s, at),
                        or(
                            assign_token(s, at),
                            or(startable_token(s, at), or(deadline_token(s, at), title_token(s, at))),
                        ),
                    ),
                ),
            ),
        )
    }
}

/// The parts `first` and `rest` of a title, a space between them where both are there.
pub open spec fn joined(first: Seq<char>, rest: Seq<char>) -> Seq<char> {
    if rest.len() == 0 {
        first
    } else {
        first + seq![' '] + rest
    }
}

/// What the line says with `first` before `rest`: what comes first counts,
/// and the parts of the title follow each other.
pub open spec fn with_token(first: TokenView, rest: AttributeView) -> AttributeView {
    match first {
        TokenView::Star => AttributeView { is_starred: true, ..rest },
        TokenView::Id(n) => AttributeView { id: Some(n), ..rest },
        TokenView::Weight(w) => AttributeView { weight: Some(w), ..rest },
        TokenView::Head(g) => AttributeView { joint_head: Some(g), ..rest },
        TokenView::Tail(g) => AttributeView { joint_tail: Some(g), ..rest },
        TokenView::Assign(g) => AttributeView { assign: Some(g), ..rest },
        TokenView::Startable(t) => AttributeView { startable: Some(t), ..rest },
        TokenView::Deadline(t) => AttributeView { deadline: Some(t), ..rest },
        TokenView::Title(g) => AttributeView { title: joined(g, rest.title), ..rest },
    }
}

/// What a line says ends at `at`: with the text, before a line feed, or before a link.
pub open spec fn stops(s: Seq<char>, at: int) -> bool {
    at >= s.len() || s[at] == '\n' || link(s, at) is Some
}

/// What the line says from `at` on: tokens between white space, up to the
/// end of the text, a line feed or a link.
pub open spec fn attribute(s: Seq<char>, at: int) -> Result<(AttributeView, int), ParseError>
    decreases s.len() - at, 1int,
{
    if at < 0 {
        failure(ParseErrorKind::UnexpectedChar, at)
    } else if stops(s, at) {
        Ok((no_attribute(), at))
    } else if Class::Blank.holds(s[at]) {
        let next = span(s, at, Class::Blank);
        if next <= at || next > s.len() {
            failure(ParseErrorKind::UnexpectedChar, at)
        } else {
            attribute(s, next)
        }
    } else {
        match token(s, at) {
            Some((first, next)) => match attribute_more(s, at, next) {
                Ok((rest, end)) => Ok((with_token(first, rest), end)),
                Err(e) => Err(e),
            },
            None => failure(ParseErrorKind::UnexpectedChar, at),
        }
    }
}

/// What the line says from `at` on, behind what was read from `from`: it
/// ends there, or goes on behind white space.
pub open spec fn attribute_more(s: Seq<char>, from: int, at: int) -> Result<(AttributeView, int), ParseError>
    decreases s.len() - from, 0int,
{
    if at <= from || at > s.len() {
        failure(ParseErrorKind::UnexpectedChar, at)
    } else if stops(s, at) || Class::Blank.holds(s[at]) {
        attribute(s, at)
    } else {
        failure(ParseErrorKind::UnexpectedChar, at)
    }
}

/// The link of a task line: at once, or behind a line feed and white
/// space; none where neither stands.
pub open spec fn line_link(s: Seq<char>, at: int) -> (Option<Seq<char>>, int) {
    match link(s, at) {
        Some((l, next)) => (Some(l), next),
        None => if is_at(s, at, '\n') {
            match link(s, span(s, at + 1, Class::Blank)) {
                Some((l, next)) => (Some(l), next),
                None => (None, at),
            }
        } else {
            (None, at)
        },
    }
}

/// A task line: an indent, what the line says, a link or none, and the
/// end of the line behind white space. It has to name a title.
pub open spec fn req_task(s: Seq<char>, at: int) -> Result<(ReqTaskView, int), ParseError> {
    match indent(s, at) {
        Err(e) => Err(e),
        Ok((n, from)) => match attribute(s, from) {
            Err(e) => Err(e),
            Ok((said, next)) => {
                let (l, behind) = line_link(s, next);
                let end = span(s, behind, Class::Blank);
                if end < s.len() && s[end] != '\n' {
                    failure(ParseErrorKind::UnexpectedChar, end)
                } else if said.title.len() == 0 {
                    failure(ParseErrorKind::EmptyTitle, at)
                } else {
                    Ok(
                        (
                            ReqTaskView { indent: n, attribute: said, link: l },
                            if end < s.len() {
                                end + 1
                            } else {
                                end
                            },
                        ),
                    )
                }
            },
        },
    }
}

/// Where the empty line at `at` ends: behind its line feed, or with the
/// text. `None` where the line is not empty.
pub open spec fn empty_line(s: Seq<char>, at: int) -> Option<int> {
    let end = span(s, at, Class::Blank);
    if end >= s.len() {
        Some(end)
    } else if s[end] == '\n' {
        Some(end + 1)
    } else {
        None
    }
}

/// Where the empty lines from `at` on end.
pub open spec fn empty_lines(s: Seq<char>, at: int) -> int
    decreases s.len() - at,
{
    if at < 0 || at >= s.len() {
        at
    } else {
        match empty_line(s, at) {
            Some(next) => if at < next <= s.len() {
                empty_lines(s, next)
            } else {
                at
            },
            None => at,
        }
    }
}

/// The task lines from `at` to the end of the text, the last line first.
/// Empty lines between them count for nothing.
pub open spec fn req_tasks(s: Seq<char>, at: int) -> Result<(Seq<ReqTaskView>, int), ParseError>
    decreases s.len() - at,
{
    if at < 0 || at >= s.len() {
        Ok((Seq::empty(), at))
    } else {
        match req_task(s, at) {
            Ok((first, next)) => if next <= at || next > s.len() {
                failure(ParseErrorKind::UnexpectedChar, next)
            } else {
                match req_tasks(s, next) {
                    Ok((later, end)) => Ok((later.push(first), end)),
                    Err(e) => Err(e),
                }
            },
            Err(e) => {
                let next = empty_lines(s, at);
                if at < next <= s.len() {
                    req_tasks(s, next)
                } else {
                    Err(e)
                }
            },
        }
    }
}

/// The indent at `at` (see `indents`).
pub fn a_indents(s: &Vec<char>, at: usize) -> (found: Result<(i32, usize), ParseError>)
    requires
        at <= s.len(),
    ensures
        same(found, indents(s@, at as int)),
        match found {
            Ok((_, end)) => at <= end <= s.len(),
            Err(_) => true,
        },
{
    let mut end = at;
    let mut count: usize = 0;
    loop
        invariant_except_break
            at <= end <= s.len(),
            count <= end - at,
            indent_end(s@, at as int) == indent_end(s@, end as int),
            indent_count(s@, at as int) == count + indent_count(s@, end as int),
        ensures
            at <= end <= s.len(),
            end == indent_end(s@, at as int),
            count == indent_count(s@, at as int),
        decreases s.len() - end,
    {
        if at_is(s, end, '\t') {
            end += 1;
            count += 1;
        } else if at_is(s, end, ' ') && at_is(s, end + 1, ' ') && at_is(s, end + 2, ' ') && at_is(
            s,
            end + 3,
            ' ',
        ) {
            end += 4;
            count += 1;
        } else {
            break ;
        }
    }
    if at_is(s, end, ' ') {
        Err(ParseError { kind: ParseErrorKind::UnexpectedChar, position: end })
    } else if count > 2_147_483_647 {
        Err(ParseError { kind: ParseErrorKind::BadNumber, position: at })
    } else {
        Ok((count as i32, end))
    }
}

/// The indent of a task line (see `indent`).
pub fn a_indent(s: &Vec<char>, at: usize) -> (found: Result<(i32, usize), ParseError>)
    requires
        at <= s.len(),
    ensures
        same(found, indent(s@, at as int)),
        match found {
            Ok((_, end)) => at <= end < s.len(),
            Err(_) => true,
        },
{
    let (n, end) = a_indents(s, at)?;
    if end < s.len() && Class::Graphic.has(s[end]) {
        Ok((n, end))
    } else {
        Err(ParseError { kind: ParseErrorKind::UnexpectedChar, position: end })
    }
}

/// What stands at `at` (see `token`).
pub fn a_token(s: &Vec<char>, at: usize) -> (found: Option<(Token, usize)>)
    requires
        at <= s.len(),
    ensures
        same_opt(found, token(s@, at as int)),
        advances_opt(found, at, s@.len()),
{
    if at_is(s, at, '*') {
        return Some((Token::Star, at + 1));
    }
    if at_is(s, at, '#') {
        match a_non_nega_i(s, at + 1) {
            Ok((n, next)) => {
                return Some((Token::Id(n as i64), next));
            },
            Err(_) => {},
        }
    }
    if at_is(s, at, '$') {
        match a_non_nega_f(s, at + 1) {
            Some((w, next)) => {
                return Some((Token::Weight(w), next));
            },
            None => {},
        }
    }
    match a_word(s, at, Class::Plain) {
        Some((g, next)) => {
            if at_is(s, next, ']') {
                return Some((Token::Head(g), next + 1));
            }
        },
        None => {},
    }
    if at_is(s, at, '[') {
        match a_word(s, at + 1, Class::Plain) {
            Some((g, next)) => {
                return Some((Token::Tail(g), next));
            },
            None => {},
        }
    }
    if at_is(s, at, '@') {
        match a_word(s, at + 1, Class::AsciiGraphic) {
            Some((g, next)) => {
                return Some((Token::Assign(g), next));
            },
            None => {},
        }
    }
    match a_datetime(s, at) {
        Some((t, next)) => {
            if at_is(s, next, '-') {
                return Some((Token::Startable(t), next + 1));
            }
        },
        None => {},
    }
    if at_is(s, at, '-') {
        match a_datetime(s, at + 1) {
            Some((t, next)) => {
                return Some((Token::Deadline(t), next));
            },
            None => {},
        }
    }
    match a_word(s, at, Class::Graphic) {
        Some((g, next)) => Some((Token::Title(g), next)),
        None => None,
    }
}

/// What the line says with `first` before `rest` (see `with_token`).
pub fn put_first(first: Token, rest: Attribute) -> (all: Attribute)
    ensures
        all.deep_view() == with_token(first.deep_view(), rest.deep_view()),
{
    let Attribute { is_starred, id, weight, joint_head, joint_tail, assign, startable, deadline, title } = rest;
    match first {
        Token::Star => Attribute {
            is_starred: true,
            id,
            weight,
            joint_head,
            joint_tail,
            assign,
            startable,
            deadline,
            title,
        },
        Token::Id(n) => Attribute {
            is_starred,
            id: Some(n),
            weight,
            joint_head,
            joint_tail,
            assign,
            startable,
            deadline,
            title,
        },
        Token::Weight(w) => Attribute {
            is_starred,
            id,
            weight: Some(w),
            joint_head,
            joint_tail,
            assign,
            startable,
            deadline,
            title,
        },
        Token::Head(g) => Attribute {
            is_starred,
            id,
            weight,
            joint_head: Some(g),
            joint_tail,
            assign,
            startable,
            deadline,
            title,
        },
        Token::Tail(g) => Attribute {
            is_starred,
            id,
            weight,
            joint_head,
            joint_tail: Some(g),
            assign,
            startable,
            deadline,
            title,
        },
        Token::Assign(g) => Attribute {
            is_starred,
            id,
            weight,
            joint_head,
            joint_tail,
            assign: Some(g),
            startable,
            deadline,
            title,
        },
        Token::Startable(t) => Attribute {
            is_starred,
            id,
            weight,
            joint_head,
            joint_tail,
            assign,
            startable: Some(t),
            deadline,
            title,
        },
        Token::Deadline(t) => Attribute {
            is_starred,
            id,
            weight,
            joint_head,
            joint_tail,
            assign,
            startable,
            deadline: Some(t),
            title,
        },
        Token::Title(g) => {
            let mut whole = g;
            if !title.as_str().is_empty() {
                whole.push(' ');
                whole.append(title.as_str());
            }
            assert(whole@ =~= joined(g@, title@));
            Attribute {
                is_starred,
                id,
                weight,
                joint_head,
                joint_tail,
                assign,
                startable,
                deadline,
                title: whole,
            }
        },
    }
}

/// Whether what a line says ends at `at` (see `stops`).
fn a_stops(s: &Vec<char>, at: usize) -> (yes: bool)
    requires
        at <= s.len(),
    ensures
        yes == stops(s@, at as int),
{
    at >= s.len() || s[at] == '\n' || a_link(s, at).is_some()
}

/// What the line says from `at` on (see `attribute`).
pub fn a_attribute(s: &Vec<char>, at: usize) -> (found: Result<(Attribute, usize), ParseError>)
    requires
        at <= s.len(),
    ensures
        same(found, attribute(s@, at as int)),
        match found {
            Ok((_, end)) => at <= end <= s.len(),
            Err(_) => true,
        },
    decreases s.len() - at, 1int,
{
    if a_stops(s, at) {
        return Ok((Attribute::default(), at));
    }
    if Class::Blank.has(s[at]) {
        let next = run(s, at, Class::Blank);
        proof {
            lemma_span(s@, at + 1, Class::Blank);
        }
        return a_attribute(s, next);
    }
    match a_token(s, at) {
        Some((first, next)) => {
            let (rest, end) = a_attribute_more(s, at, next)?;
            Ok((put_first(first, rest), end))
        },
        None => Err(ParseError { kind: ParseErrorKind::UnexpectedChar, position: at }),
    }
}

/// What the line says from `at` on, behind what was read from `from` (see `attribute_more`).
fn a_attribute_more(s: &Vec<char>, from: usize, at: usize) -> (found: Result<(Attribute, usize), ParseError>)
    requires
        from < at <= s.len(),
    ensures
        same(found, attribute_more(s@, from as int, at as int)),
        match found {
            Ok((_, end)) => at <= end <= s.len(),
            Err(_) => true,
        },
    decreases s.len() - from, 0int,
{
    if a_stops(s, at) || Class::Blank.has(s[at]) {
        a_attribute(s, at)
    } else {
        Err(ParseError { kind: ParseErrorKind::UnexpectedChar, position: at })
    }
}

/// The link of a task line (see `line_link`).
fn a_line_link(s: &Vec<char>, at: usize) -> (found: (Option<String>, usize))
    requires
        at <= s.len(),
    ensures
        (found.0.deep_view(), found.1 as int) == line_link(s@, at as int),
        at <= found.1 <= s.len(),
{
    match a_link(s, at) {
        Some((l, next)) => (Some(l), next),
        None => {
            if at_is(s, at, '\n') {
                let from = run(s, at + 1, Class::Blank);
                match a_link(s, from) {
                    Some((l, next)) => (Some(l), next),
                    None => (None, at),
                }
            } else {
                (None, at)
            }
        },
    }
}

/// A task line (see `req_task`).
pub fn a_req_task(s: &Vec<char>, at: usize) -> (found: Result<(ReqTask, usize), ParseError>)
    requires
        at <= s.len(),
    ensures
        same(found, req_task(s@, at as int)),
        advances(found, at, s@.len()),
{
    let (n, from) = a_indent(s, at)?;
    let (said, next) = a_attribute(s, from)?;
    let (l, behind) = a_line_link(s, next);
    let end = run(s, behind, Class::Blank);
    if end < s.len() && s[end] != '\n' {
        return Err(ParseError { kind: ParseErrorKind::UnexpectedChar, position: end });
    }
    if said.title.as_str().is_empty() {
        return Err(ParseError { kind: ParseErrorKind::EmptyTitle, position: at });
    }
    let after = if end < s.len() {
        end + 1
    } else {
        end
    };
    Ok((ReqTask { indent: n, attribute: said, link: l }, after))
}

/// Where the empty line at `at` ends (see `empty_line`).
pub fn a_empty_line(s: &Vec<char>, at: usize) -> (end: Option<usize>)
    requires
        at <= s.len(),
    ensures
        match (end, empty_line(s@, at as int)) {
            (Some(a), Some(b)) => a == b && at <= a <= s.len(),
            (None, None) => true,
            _ => false,
        },
{
    let end = run(s, at, Class::Blank);
    if end >= s.len() {
        Some(end)
    } else if s[end] == '\n' {
        Some(end + 1)
    } else {
        None
    }
}

/// Where the empty lines from `at` on end (see `empty_lines`).
pub fn a_empty_lines(s: &Vec<char>, at: usize) -> (end: usize)
    requires
        at <= s.len(),
    ensures
        end == empty_lines(s@, at as int),
        at <= end <= s.len(),
{
    let mut end = at;
    loop
        invariant_except_break
            at <= end <= s.len(),
            empty_lines(s@, at as int) == empty_lines(s@, end as int),
        ensures
            at <= end <= s.len(),
            end == empty_lines(s@, at as int),
        decreases s.len() - end,
    {
        if end >= s.len() {
            break ;
        }
        match a_empty_line(s, end) {
            Some(next) => {
                if next > end {
                    end = next;
                } else {
                    break ;
                }
            },
            None => {
                break ;
            },
        }
    }
    end
}

/// The task lines from `at` to the end of the text, the last line first (see `req_tasks`).
pub fn a_req_tasks(s: &Vec<char>, at: usize) -> (found: Result<(ReqTasks, usize), ParseError>)
    requires
        at <= s.len(),
    ensures
        same(found, req_tasks(s@, at as int)),
    decreases s.len() - at,
{
    if at >= s.len() {
        let none = ReqTasks { tasks: Vec::new() };
        assert(none.deep_view() =~= Seq::<ReqTaskView>::empty());
        return Ok((none, at));
    }
    match a_req_task(s, at) {
        Ok((first, next)) => {
            let (later, end) = a_req_tasks(s, next)?;
            let ghost before = later.deep_view();
            let ghost fresh = first.deep_view();
            let mut tasks = later.tasks;
            tasks.push(first);
            let all = ReqTasks { tasks };
            assert(all.deep_view() =~= before.push(fresh));
            Ok((all, end))
        },
        Err(e) => {
            let next = a_empty_lines(s, at);
            if next > at {
                a_req_tasks(s, next)
            } else {
                Err(e)
            }
        },
    }
}

} // verus!
