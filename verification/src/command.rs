//! Commands: what follows the slash at the start of a request.

use vstd::prelude::*;
use crate::errors::{ParseError, ParseErrorKind};
use crate::lexer::{
    same, advances, failure, is_at, at_is, starts_with, begins, non_nega_i, word, a_non_nega_i, a_ascii_graphics,
};
use crate::request::{
    PasswordSet, PasswordSetView, ReqAllocation, ReqCommand, ReqCommandView, ReqModify, ReqModifyView, ReqUser,
    ReqUserView, ResAllocation, Timescale,
};
use crate::search::{condition, a_condition};
use crate::text::{Class, span, run};

verus! {

/// The scale that is written at `at`: `Y`, `Q`, `M`, `W`, `D`, `6h`, `h`, `15m`, `m` or `s`.
pub open spec fn timescale(s: Seq<char>, at: int) -> Result<(Timescale, int), ParseError> {
    if is_at(s, at, 'Y') {
        Ok((Timescale::Year, at + 1))
    } else if is_at(s, at, 'Q') {
        Ok((Timescale::Quarter, at + 1))
    } else if is_at(s, at, 'M') {
        Ok((Timescale::Month, at + 1))
    } else if is_at(s, at, 'W') {
        Ok((Timescale::Week, at + 1))
    } else if is_at(s, at, 'D') {
        Ok((Timescale::Day, at + 1))
    } else if is_at(s, at, '6') && is_at(s, at + 1, 'h') {
        Ok((Timescale::Hours, at + 2))
    } else if is_at(s, at, 'h') {
        Ok((Timescale::Hour, at + 1))
    } else if is_at(s, at, '1') && is_at(s, at + 1, '5') && is_at(s, at + 2, 'm') {
        Ok((Timescale::Minutes, at + 3))
    } else if is_at(s, at, 'm') {
        Ok((Timescale::Minute, at + 1))
    } else if is_at(s, at, 's') {
        Ok((Timescale::Second, at + 1))
    } else {
        failure(ParseErrorKind::UnexpectedChar, at)
    }
}

/// A word of printable ASCII characters, or an unexpected character where none stands.
pub open spec fn ascii_word(s: Seq<char>, at: int) -> Result<(Seq<char>, int), ParseError> {
    match word(s, at, Class::AsciiGraphic) {
        Some(found) => Ok(found),
        None => failure(ParseErrorKind::UnexpectedChar, at),
    }
}

/// White space: where it ends, or an unexpected character where none stands.
pub open spec fn gap(s: Seq<char>, at: int) -> Result<((), int), ParseError> {
    if span(s, at, Class::Space) > at {
        Ok(((), span(s, at, Class::Space)))
    } else {
        failure(ParseErrorKind::UnexpectedChar, at)
    }
}

/// Three words of printable ASCII characters with white space between
/// them: the present password, the new one, and the new one once more.
pub open spec fn password_set(s: Seq<char>, at: int) -> Result<(PasswordSetView, int), ParseError> {
    match ascii_word(s, at) {
        Ok((old, a)) => match gap(s, a) {
            Ok((_, b)) => match ascii_word(s, b) {
                Ok((new, c)) => match gap(s, c) {
                    Ok((_, d)) => match ascii_word(s, d) {
                        Ok((confirmation, e)) => Ok((PasswordSetView { old, new, confirmation }, e)),
                        Err(e) => Err(e),
                    },
                    Err(e) => Err(e),
                },
                Err(e) => Err(e),
            },
            Err(e) => Err(e),
        },
        Err(e) => Err(e),
    }
}

/// A daily window: the hour and the minute at which it opens around a
/// colon, a dash, and its length in hours before the letter `h`.
pub open spec fn allocation(s: Seq<char>, at: int) -> Result<(ReqAllocation, int), ParseError> {
    match non_nega_i(s, at) {
        Ok((open_h, a)) => if !is_at(s, a, ':') {
            failure(ParseErrorKind::UnexpectedChar, a)
        } else {
            match non_nega_i(s, a + 1) {
                Ok((open_m, b)) => if !is_at(s, b, '-') {
                    failure(ParseErrorKind::UnexpectedChar, b)
                } else {
                    match non_nega_i(s, b + 1) {
                        Ok((hours, c)) => if !is_at(s, c, 'h') {
                            failure(ParseErrorKind::UnexpectedChar, c)
                        } else {
                            Ok((ResAllocation { open_h, open_m, hours }, c + 1))
                        },
                        Err(e) => Err(e),
                    }
                },
                Err(e) => Err(e),
            }
        },
        Err(e) => Err(e),
    }
}

/// Daily windows, white space before each; none where no white space stands.
pub open spec fn allocations(s: Seq<char>, at: int) -> Result<(Seq<ReqAllocation>, int), ParseError>
    decreases s.len() - at,
{
    let from = span(s, at, Class::Space);
    if at < 0 || from <= at || from > s.len() {
        Ok((Seq::empty(), at))
    } else {
        match allocation(s, from) {
            Ok((first, next)) => if next <= at || next > s.len() {
                failure(ParseErrorKind::UnexpectedChar, next)
            } else {
                match allocations(s, next) {
                    Ok((more, end)) => Ok((seq![first] + more, end)),
                    Err(e) => Err(e),
                }
            },
            Err(e) => Err(e),
        }
    }
}

/// A change to the account: a letter, and what it asks for behind white
/// space. `e` a new e-mail address, `p` passwords, `n` a new name, `t` a
/// scale, `a` daily windows.
pub open spec fn req_modify(s: Seq<char>, at: int) -> Result<(ReqModifyView, int), ParseError> {
    if is_at(s, at, 'a') {
        match allocations(s, at + 1) {
            Ok((windows, end)) => Ok((ReqModifyView::Allocations(windows), end)),
            Err(e) => Err(e),
        }
    } else if !(is_at(s, at, 'e') || is_at(s, at, 'p') || is_at(s, at, 'n') || is_at(s, at, 't')) {
        failure(ParseErrorKind::UnexpectedChar, at)
    } else {
        match gap(s, at + 1) {
            Err(e) => Err(e),
            Ok((_, from)) => if is_at(s, at, 'e') {
                match ascii_word(s, from) {
                    Ok((address, end)) => Ok((ReqModifyView::Email(address), end)),
                    Err(e) => Err(e),
                }
            } else if is_at(s, at, 'p') {
                match password_set(s, from) {
                    Ok((passwords, end)) => Ok((ReqModifyView::Password(passwords), end)),
                    Err(e) => Err(e),
                }
            } else if is_at(s, at, 'n') {
                match ascii_word(s, from) {
                    Ok((name, end)) => Ok((ReqModifyView::Name(name), end)),
                    Err(e) => Err(e),
                }
            } else {
                match timescale(s, from) {
                    Ok((scale, end)) => Ok((ReqModifyView::Timescale(scale), end)),
                    Err(e) => Err(e),
                }
            },
        }
    }
}

/// What is asked of the account: nothing more, for what is known of it;
/// or, behind a dash, a change.
pub open spec fn req_user(s: Seq<char>, at: int) -> Result<(ReqUserView, int), ParseError> {
    let from = span(s, at, Class::Space);
    if from >= s.len() {
        Ok((ReqUserView::Info, from))
    } else if is_at(s, from, '-') {
        match req_modify(s, from + 1) {
            Ok((change, end)) => Ok((ReqUserView::Modify(change), end)),
            Err(e) => Err(e),
        }
    } else {
        failure(ParseErrorKind::UnexpectedChar, from)
    }
}

/// The word that asks for the tutorial.
pub open spec fn tutorial() -> Seq<char> {
    seq!['t', 'u', 't', 'o', 'r', 'i', 'a', 'l']
}

/// The word that asks for coffee.
pub open spec fn coffee() -> Seq<char> {
    seq!['c', 'o', 'f', 'f', 'e', 'e']
}

/// The command behind the slash: nothing, for help; `u` and what is asked
/// of the account; `s` and a search; `tutorial`; `coffee`.
pub open spec fn req_command(s: Seq<char>, at: int) -> Result<(ReqCommandView, int), ParseError> {
    if at >= s.len() {
        Ok((ReqCommandView::Help, at))
    } else if is_at(s, at, 'u') {
        match req_user(s, at + 1) {
            Ok((user, end)) => Ok((ReqCommandView::User(user), end)),
            Err(e) => Err(e),
        }
    } else if is_at(s, at, 's') {
        match condition(s, at + 1) {
            Ok((search, end)) => Ok((ReqCommandView::Search(search), end)),
            Err(e) => Err(e),
        }
    } else if starts_with(s, at, tutorial()) {
        Ok((ReqCommandView::Tutorial, at + 8))
    } else if starts_with(s, at, coffee()) {
        Ok((ReqCommandView::Coffee, at + 6))
    } else {
        failure(ParseErrorKind::UnexpectedChar, at)
    }
}

/// The scale that is written at `at` (see `timescale`).
pub fn a_timescale(s: &Vec<char>, at: usize) -> (found: Result<(Timescale, usize), ParseError>)
    requires
        at <= s.len(),
    ensures
        same(found, timescale(s@, at as int)),
        advances(found, at, s@.len()),
{
    if at_is(s, at, 'Y') {
        Ok((Timescale::Year, at + 1))
    } else if at_is(s, at, 'Q') {
        Ok((Timescale::Quarter, at + 1))
    } else if at_is(s, at, 'M') {
        Ok((Timescale::Month, at + 1))
    } else if at_is(s, at, 'W') {
        Ok((Timescale::Week, at + 1))
    } else if at_is(s, at, 'D') {
        Ok((Timescale::Day, at + 1))
    } else if at_is(s, at, '6') && at_is(s, at + 1, 'h') {
        Ok((Timescale::Hours, at + 2))
    } else if at_is(s, at, 'h') {
        Ok((Timescale::Hour, at + 1))
    } else if at_is(s, at, '1') && at_is(s, at + 1, '5') && at_is(s, at + 2, 'm') {
        Ok((Timescale::Minutes, at + 3))
    } else if at_is(s, at, 'm') {
        Ok((Timescale::Minute, at + 1))
    } else if at_is(s, at, 's') {
        Ok((Timescale::Second, at + 1))
    } else {
        Err(ParseError { kind: ParseErrorKind::UnexpectedChar, position: at })
    }
}

/// A word of printable ASCII characters (see `ascii_word`).
fn a_ascii_word(s: &Vec<char>, at: usize) -> (found: Result<(String, usize), ParseError>)
    requires
        at <= s.len(),
    ensures
        same(found, ascii_word(s@, at as int)),
        advances(found, at, s@.len()),
{
    match a_ascii_graphics(s, at) {
        Some(found) => Ok(found),
        None => Err(ParseError { kind: ParseErrorKind::UnexpectedChar, position: at }),
    }
}

/// White space (see `gap`).
fn a_gap(s: &Vec<char>, at: usize) -> (found: Result<((), usize), ParseError>)
    requires
        at <= s.len(),
    ensures
        same(found, gap(s@, at as int)),
        advances(found, at, s@.len()),
{
    let end = run(s, at, Class::Space);
    if end > at {
        Ok(((), end))
    } else {
        Err(ParseError { kind: ParseErrorKind::UnexpectedChar, position: at })
    }
}

/// Three passwords (see `password_set`).
pub fn a_password_set(s: &Vec<char>, at: usize) -> (found: Result<(PasswordSet, usize), ParseError>)
    requires
        at <= s.len(),
    ensures
        same(found, password_set(s@, at as int)),
        advances(found, at, s@.len()),
{
    let (old, a) = a_ascii_word(s, at)?;
    let (_, b) = a_gap(s, a)?;
    let (new, c) = a_ascii_word(s, b)?;
    let (_, d) = a_gap(s, c)?;
    let (confirmation, e) = a_ascii_word(s, d)?;
    Ok((PasswordSet { old, new, confirmation }, e))
}

/// A daily window (see `allocation`).
pub fn a_req_allocation(s: &Vec<char>, at: usize) -> (found: Result<(ReqAllocation, usize), ParseError>)
    requires
        at <= s.len(),
    ensures
        same(found, allocation(s@, at as int)),
        advances(found, at, s@.len()),
{
    let (open_h, a) = a_non_nega_i(s, at)?;
    if !at_is(s, a, ':') {
        return Err(ParseError { kind: ParseErrorKind::UnexpectedChar, position: a });
    }
    let (open_m, b) = a_non_nega_i(s, a + 1)?;
    if !at_is(s, b, '-') {
        return Err(ParseError { kind: ParseErrorKind::UnexpectedChar, position: b });
    }
    let (hours, c) = a_non_nega_i(s, b + 1)?;
    if !at_is(s, c, 'h') {
        return Err(ParseError { kind: ParseErrorKind::UnexpectedChar, position: c });
    }
    Ok((ResAllocation { open_h, open_m, hours }, c + 1))
}

/// Daily windows (see `allocations`).
pub fn a_req_allocations(s: &Vec<char>, at: usize) -> (found: Result<(Vec<ReqAllocation>, usize), ParseError>)
    requires
        at <= s.len(),
    ensures
        match (found, allocations(s@, at as int)) {
            (Ok((windows, end)), Ok((value, next))) => windows@ == value && end == next && at <= end <= s.len(),
            (Err(a), Err(b)) => a == b,
            _ => false,
        },
    decreases s.len() - at,
{
    let from = run(s, at, Class::Space);
    if from <= at {
        return Ok((Vec::new(), at));
    }
    let (first, next) = a_req_allocation(s, from)?;
    let (mut windows, end) = a_req_allocations(s, next)?;
    let ghost more = windows@;
    windows.insert(0, first);
    assert(windows@ =~= seq![first] + more);
    Ok((windows, end))
}

/// A change to the account (see `req_modify`).
pub fn a_req_modify(s: &Vec<char>, at: usize) -> (found: Result<(ReqModify, usize), ParseError>)
    requires
        at <= s.len(),
    ensures
        same(found, req_modify(s@, at as int)),
        advances(found, at, s@.len()),
{
    if at_is(s, at, 'a') {
        let (windows, end) = a_req_allocations(s, at + 1)?;
        return Ok((ReqModify::Allocations(windows), end));
    }
    if !(at_is(s, at, 'e') || at_is(s, at, 'p') || at_is(s, at, 'n') || at_is(s, at, 't')) {
        return Err(ParseError { kind: ParseErrorKind::UnexpectedChar, position: at });
    }
    let (_, from) = a_gap(s, at + 1)?;
    if at_is(s, at, 'e') {
        let (address, end) = a_ascii_word(s, from)?;
        Ok((ReqModify::Email(address), end))
    } else if at_is(s, at, 'p') {
        let (passwords, end) = a_password_set(s, from)?;
        Ok((ReqModify::Password(passwords), end))
    } else if at_is(s, at, 'n') {
        let (name, end) = a_ascii_word(s, from)?;
        Ok((ReqModify::Name(name), end))
    } else {
        let (scale, end) = a_timescale(s, from)?;
        Ok((ReqModify::Timescale(scale), end))
    }
}

/// What is asked of the account (see `req_user`).
pub fn a_req_user(s: &Vec<char>, at: usize) -> (found: Result<(ReqUser, usize), ParseError>)
    requires
        at <= s.len(),
    ensures
        same(found, req_user(s@, at as int)),
{
    let from = run(s, at, Class::Space);
    if from >= s.len() {
        Ok((ReqUser::Info, from))
    } else if at_is(s, from, '-') {
        let (change, end) = a_req_modify(s, from + 1)?;
        Ok((ReqUser::Modify(change), end))
    } else {
        Err(ParseError { kind: ParseErrorKind::UnexpectedChar, position: from })
    }
}

/// The command behind the slash (see `req_command`).
pub fn a_req_command(s: &Vec<char>, at: usize) -> (found: Result<(ReqCommand, usize), ParseError>)
    requires
        at <= s.len(),
    ensures
        same(found, req_command(s@, at as int)),
{
    let tutorial: Vec<char> = vec!['t', 'u', 't', 'o', 'r', 'i', 'a', 'l'];
    let coffee: Vec<char> = vec!['c', 'o', 'f', 'f', 'e', 'e'];
    assert(tutorial@ =~= self::tutorial());
    assert(coffee@ =~= self::coffee());
    if at >= s.len() {
        Ok((ReqCommand::Help, at))
    } else if at_is(s, at, 'u') {
        let (user, end) = a_req_user(s, at + 1)?;
        Ok((ReqCommand::User(user), end))
    } else if at_is(s, at, 's') {
        let (search, end) = a_condition(s, at + 1)?;
        Ok((ReqCommand::Search(search), end))
    } else if begins(s, at, &tutorial) {
        Ok((ReqCommand::Tutorial, at + 8))
    } else if begins(s, at, &coffee) {
        Ok((ReqCommand::Coffee, at + 6))
    } else {
        Err(ParseError { kind: ParseErrorKind::UnexpectedChar, position: at })
    }
}

} // verus!
