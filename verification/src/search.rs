//! The conditions of a search, as a request writes them: atoms between
//! white space, each a range, a set of flags, or an expression.

use vstd::prelude::*;
use crate::errors::{ParseError, ParseErrorKind};
use crate::lexer::{
    same, same_opt, advances, advances_opt, failure, is_at, at_is, non_nega_i, non_nega_f, datetime, booleans,
    expression, a_non_nega_i, a_non_nega_f, a_datetime, a_boolean, a_expression,
};
use crate::request::{Boolean, Condition, ConditionView, Decimal, Expression, ExpressionView, any_condition};
use crate::text::{Class, span, run, is_space, is_whitespace};
use crate::time::EasyDateTime;

verus! {

/// One atom of a search.
#[derive(Debug, PartialEq, Eq)]
pub enum Atom {
    Flags(Boolean),
    Context((Option<i64>, Option<i64>)),
    Weight((Option<Decimal>, Option<Decimal>)),
    Startable((Option<EasyDateTime>, Option<EasyDateTime>)),
    Deadline((Option<EasyDateTime>, Option<EasyDateTime>)),
    CreatedAt((Option<EasyDateTime>, Option<EasyDateTime>)),
    UpdatedAt((Option<EasyDateTime>, Option<EasyDateTime>)),
    Title(Expression),
    Assign(Expression),
    Link(Expression),
}

/// An `Atom` as plain values.
pub enum AtomView {
    Flags(Boolean),
    Context((Option<i64>, Option<i64>)),
    Weight((Option<Seq<char>>, Option<Seq<char>>)),
    Startable((Option<EasyDateTime>, Option<EasyDateTime>)),
    Deadline((Option<EasyDateTime>, Option<EasyDateTime>)),
    CreatedAt((Option<EasyDateTime>, Option<EasyDateTime>)),
    UpdatedAt((Option<EasyDateTime>, Option<EasyDateTime>)),
    Title(ExpressionView),
    Assign(ExpressionView),
    Link(ExpressionView),
}

impl DeepView for Atom {
    type V = AtomView;

    open spec fn deep_view(&self) -> AtomView {
        match self {
            Atom::Flags(f) => AtomView::Flags(*f),
            Atom::Context(r) => AtomView::Context(*r),
            Atom::Weight(r) => AtomView::Weight((r.0.deep_view(), r.1.deep_view())),
            Atom::Startable(r) => AtomView::Startable(*r),
            Atom::Deadline(r) => AtomView::Deadline(*r),
            Atom::CreatedAt(r) => AtomView::CreatedAt(*r),
            Atom::UpdatedAt(r) => AtomView::UpdatedAt(*r),
            Atom::Title(x) => AtomView::Title(x.deep_view()),
            Atom::Assign(x) => AtomView::Assign(x.deep_view()),
            Atom::Link(x) => AtomView::Link(x.deep_view()),
        }
    }
}

/// The first of two values that is there.
pub open spec fn or_else<T>(first: Option<T>, second: Option<T>) -> Option<T> {
    if first is Some {
        first
    } else {
        second
    }
}

/// The bounds of `first`, and those of `second` where `first` leaves one open.
pub open spec fn merged<T>(first: (Option<T>, Option<T>), second: (Option<T>, Option<T>)) -> (
    Option<T>,
    Option<T>,
) {
    (or_else(first.0, second.0), or_else(first.1, second.1))
}

/// The flags of `first`, and those of `second` where `first` leaves one open.
pub open spec fn merged_flags(first: Boolean, second: Boolean) -> Boolean {
    Boolean {
        is_archived: or_else(first.is_archived, second.is_archived),
        is_starred: or_else(first.is_starred, second.is_starred),
        is_leaf: or_else(first.is_leaf, second.is_leaf),
        is_root: or_else(first.is_root, second.is_root),
    }
}

/// The search `rest` with `atom` before it: what the atom says counts, and
/// the rest where the atom leaves something open.
pub open spec fn with_atom(atom: AtomView, rest: ConditionView) -> ConditionView {
    match atom {
        AtomView::Flags(f) => ConditionView { boolean: merged_flags(f, rest.boolean), ..rest },
        AtomView::Context(r) => ConditionView { context: merged(r, rest.context), ..rest },
        AtomView::Weight(r) => ConditionView { weight: merged(r, rest.weight), ..rest },
        AtomView::Startable(r) => ConditionView { startable: merged(r, rest.startable), ..rest },
        AtomView::Deadline(r) => ConditionView { deadline: merged(r, rest.deadline), ..rest },
        AtomView::CreatedAt(r) => ConditionView { created_at: merged(r, rest.created_at), ..rest },
        AtomView::UpdatedAt(r) => ConditionView { updated_at: merged(r, rest.updated_at), ..rest },
        AtomView::Title(x) => ConditionView { title: Some(x), ..rest },
        AtomView::Assign(x) => ConditionView { assign: Some(x), ..rest },
        AtomView::Link(x) => ConditionView { link: Some(x), ..rest },
    }
}

/// A number as a bound of a range.
pub open spec fn number_bound(s: Seq<char>, at: int) -> Option<(i64, int)> {
    match non_nega_i(s, at) {
        Ok((n, next)) => Some((n as i64, next)),
        Err(_) => None,
    }
}

/// What follows the lower bound `low` of a range over `letter`: the
/// letter, and an upper bound behind a `<` or none.
pub open spec fn range_tail<T>(s: Seq<char>, at: int, letter: char, low: Option<T>, high: Option<(T, int)>) -> Option<
    ((Option<T>, Option<T>), int),
> {
    if !is_at(s, at, letter) {
        None
    } else if is_at(s, at + 1, '<') {
        match high {
            Some((value, next)) => Some(((low, Some(value)), next)),
            None => None,
        }
    } else {
        Some(((low, None), at + 1))
    }
}

/// A range of numbers over `letter`: a lower bound and `<`, or neither;
/// the letter; `<` and an upper bound, or neither.
pub open spec fn range_i(s: Seq<char>, at: int, letter: char) -> Option<((Option<i64>, Option<i64>), int)> {
    match number_bound(s, at) {
        Some((low, next)) => if is_at(s, next, '<') {
            range_tail(s, next + 1, letter, Some(low), number_bound(s, next + 3))
        } else {
            None
        },
        None => range_tail(s, at, letter, None, number_bound(s, at + 2)),
    }
}

/// A range of decimal numerals over `letter`.
pub open spec fn range_f(s: Seq<char>, at: int, letter: char) -> Option<
    ((Option<Seq<char>>, Option<Seq<char>>), int),
> {
    match non_nega_f(s, at) {
        Some((low, next)) => if is_at(s, next, '<') {
            range_tail(s, next + 1, letter, Some(low), non_nega_f(s, next + 3))
        } else {
            None
        },
        None => range_tail(s, at, letter, None, non_nega_f(s, at + 2)),
    }
}

/// A range of dates and times over `letter`.
pub open spec fn range_t(s: Seq<char>, at: int, letter: char) -> Option<
    ((Option<EasyDateTime>, Option<EasyDateTime>), int),
> {
    match datetime(s, at) {
        Some((low, next)) => if is_at(s, next, '<') {
            range_tail(s, next + 1, letter, Some(low), datetime(s, next + 3))
        } else {
            None
        },
        None => range_tail(s, at, letter, None, datetime(s, at + 2)),
    }
}

/// An atom with an expression behind `mark`.
pub open spec fn marked(s: Seq<char>, at: int, link: bool) -> Result<(AtomView, int), ParseError> {
    match expression(s, at + 1) {
        Ok((x, next)) => Ok(
            (
                if link {
                    AtomView::Link(x)
                } else {
                    AtomView::Assign(x)
                },
                next,
            ),
        ),
        Err(e) => Err(e),
    }
}

/// The atom at `at`. Flags follow a `-`. Then come, in this order, the
/// ranges over `#` (context), `w` (weight), `s` (startable), `d`
/// (deadline), `c` (created) and `u` (updated). An expression alone asks
/// for the title, one behind `@` for the assignee, one behind `&` for the link.
#[verifier::opaque]
pub open spec fn atom(s: Seq<char>, at: int) -> Result<(AtomView, int), ParseError> {
    if is_at(s, at, '-') {
        match booleans(s, at + 1) {
            Some((flags, next)) => Ok((AtomView::Flags(flags), next)),
            None => failure(ParseErrorKind::UnexpectedChar, at + 1),
        }
    } else {
        match range_i(s, at, '#') {
            Some((r, next)) => Ok((AtomView::Context(r), next)),
            None => match range_f(s, at, 'w') {
                Some((r, next)) => Ok((AtomView::Weight(r), next)),
                None => match range_t(s, at, 's') {
                    Some((r, next)) => Ok((AtomView::Startable(r), next)),
                    None => match range_t(s, at, 'd') {
                        Some((r, next)) => Ok((AtomView::Deadline(r), next)),
                        None => match range_t(s, at, 'c') {
                            Some((r, next)) => Ok((AtomView::CreatedAt(r), next)),
                            None => match range_t(s, at, 'u') {
                                Some((r, next)) => Ok((AtomView::UpdatedAt(r), next)),
                                None => expression_atom(s, at),
                            },
                        },
                    },
                },
            },
        }
    }
}

/// An atom that is an expression: alone for the title, behind `@` for the
/// assignee, behind `&` for the link.
pub open spec fn expression_atom(s: Seq<char>, at: int) -> Result<(AtomView, int), ParseError> {
    match expression(s, at) {
        Ok((x, next)) => Ok((AtomView::Title(x), next)),
        Err(e) => if e.kind != ParseErrorKind::UnexpectedChar {
            Err(e)
        } else if is_at(s, at, '@') {
            marked(s, at, false)
        } else if is_at(s, at, '&') {
            marked(s, at, true)
        } else {
            failure(ParseErrorKind::UnexpectedChar, at)
        },
    }
}

/// The search that the text from `at` on writes: atoms between white
/// space, to the end of the text. Of two atoms that say the same thing the
/// first counts.
pub open spec fn condition(s: Seq<char>, at: int) -> Result<(ConditionView, int), ParseError>
    decreases s.len() - at, 1int,
{
    if at < 0 {
        failure(ParseErrorKind::UnexpectedChar, at)
    } else if at >= s.len() {
        Ok((any_condition(), at))
    } else if is_space(s[at]) {
        let next = span(s, at, Class::Space);
        if next <= at || next > s.len() {
            failure(ParseErrorKind::UnexpectedChar, at)
        } else {
            condition(s, next)
        }
    } else {
        match atom(s, at) {
            Ok((first, next)) => match condition_more(s, at, next) {
                Ok((rest, end)) => Ok((with_atom(first, rest), end)),
                Err(e) => Err(e),
            },
            Err(e) => Err(e),
        }
    }
}

/// The search that goes on at `at`, behind what was read from `from`: the
/// end of the text, or white space and more atoms.
pub open spec fn condition_more(s: Seq<char>, from: int, at: int) -> Result<(ConditionView, int), ParseError>
    decreases s.len() - from, 0int,
{
    if at <= from || at > s.len() {
        failure(ParseErrorKind::UnexpectedChar, at)
    } else if at >= s.len() || is_space(s[at]) {
        condition(s, at)
    } else {
        failure(ParseErrorKind::UnexpectedChar, at)
    }
}

/// A range of numbers over `letter` (see `range_i`).
pub fn a_range_i(s: &Vec<char>, at: usize, letter: char) -> (found: Option<((Option<i64>, Option<i64>), usize)>)
    requires
        at <= s.len(),
    ensures
        same_opt(found, range_i(s@, at as int, letter)),
        advances_opt(found, at, s@.len()),
{
    let (low, letter_at) = match a_non_nega_i(s, at) {
        Ok((value, next)) => {
            if !at_is(s, next, '<') {
                return None;
            }
            (Some(value as i64), next + 1)
        },
        Err(_) => (None, at),
    };
    if !at_is(s, letter_at, letter) {
        return None;
    }
    if at_is(s, letter_at + 1, '<') {
        match a_non_nega_i(s, letter_at + 2) {
            Ok((value, next)) => Some(((low, Some(value as i64)), next)),
            Err(_) => None,
        }
    } else {
        Some(((low, None), letter_at + 1))
    }
}

/// A range of decimal numerals over `letter` (see `range_f`).
pub fn a_range_f(s: &Vec<char>, at: usize, letter: char) -> (found: Option<((Option<Decimal>, Option<Decimal>), usize)>)
    requires
        at <= s.len(),
    ensures
        same_opt(found, range_f(s@, at as int, letter)),
        advances_opt(found, at, s@.len()),
{
    let (low, letter_at) = match a_non_nega_f(s, at) {
        Some((value, next)) => {
            if !at_is(s, next, '<') {
                return None;
            }
            (Some(value), next + 1)
        },
        None => (None, at),
    };
    if !at_is(s, letter_at, letter) {
        return None;
    }
    if at_is(s, letter_at + 1, '<') {
        match a_non_nega_f(s, letter_at + 2) {
            Some((value, next)) => Some(((low, Some(value)), next)),
            None => None,
        }
    } else {
        Some(((low, None), letter_at + 1))
    }
}

/// A range of dates and times over `letter` (see `range_t`).
pub fn a_range_t(s: &Vec<char>, at: usize, letter: char) -> (found: Option<((Option<EasyDateTime>, Option<EasyDateTime>), usize)>)
    requires
        at <= s.len(),
    ensures
        same_opt(found, range_t(s@, at as int, letter)),
        advances_opt(found, at, s@.len()),
{
    let (low, letter_at) = match a_datetime(s, at) {
        Some((value, next)) => {
            if !at_is(s, next, '<') {
                return None;
            }
            (Some(value), next + 1)
        },
        None => (None, at),
    };
    if !at_is(s, letter_at, letter) {
        return None;
    }
    if at_is(s, letter_at + 1, '<') {
        match a_datetime(s, letter_at + 2) {
            Some((value, next)) => Some(((low, Some(value)), next)),
            None => None,
        }
    } else {
        Some(((low, None), letter_at + 1))
    }
}

/// The first of two values that is there.
fn first_of<T>(first: Option<T>, second: Option<T>) -> (one: Option<T>)
    ensures
        one == or_else(first, second),
{
    match first {
        Some(value) => Some(value),
        None => second,
    }
}

/// The bounds of `first`, and those of `second` where `first` leaves one open.
fn merge<T>(first: (Option<T>, Option<T>), second: (Option<T>, Option<T>)) -> (both: (Option<T>, Option<T>))
    ensures
        both == merged(first, second),
{
    let (a, b) = first;
    let (c, d) = second;
    (first_of(a, c), first_of(b, d))
}

/// The search `rest` with `atom` before it (see `with_atom`).
pub fn put_before(atom: Atom, rest: Condition) -> (all: Condition)
    ensures
        all.deep_view() == with_atom(atom.deep_view(), rest.deep_view()),
{
    let Condition { boolean, context, weight, startable, deadline, created_at, updated_at, title, assign, link } =
        rest;
    match atom {
        Atom::Flags(f) => Condition {
            boolean: Boolean {
                is_archived: first_of(f.is_archived, boolean.is_archived),
                is_starred: first_of(f.is_starred, boolean.is_starred),
                is_leaf: first_of(f.is_leaf, boolean.is_leaf),
                is_root: first_of(f.is_root, boolean.is_root),
            },
            context,
            weight,
            startable,
            deadline,
            created_at,
            updated_at,
            title,
            assign,
            link,
        },
        Atom::Context(r) => Condition {
            boolean,
            context: merge(r, context),
            weight,
            startable,
            deadline,
            created_at,
            updated_at,
            title,
            assign,
            link,
        },
        Atom::Weight(r) => Condition {
            boolean,
            context,
            weight: merge(r, weight),
            startable,
            deadline,
            created_at,
            updated_at,
            title,
            assign,
            link,
        },
        Atom::Startable(r) => Condition {
            boolean,
            context,
            weight,
            startable: merge(r, startable),
            deadline,
            created_at,
            updated_at,
            title,
            assign,
            link,
        },
        Atom::Deadline(r) => Condition {
            boolean,
            context,
            weight,
            startable,
            deadline: merge(r, deadline),
            created_at,
            updated_at,
            title,
            assign,
            link,
        },
        Atom::CreatedAt(r) => Condition {
            boolean,
            context,
            weight,
            startable,
            deadline,
            created_at: merge(r, created_at),
            updated_at,
            title,
            assign,
            link,
        },
        Atom::UpdatedAt(r) => Condition {
            boolean,
            context,
            weight,
            startable,
            deadline,
            created_at,
            updated_at: merge(r, updated_at),
            title,
            assign,
            link,
        },
        Atom::Title(x) => Condition {
            boolean,
            context,
            weight,
            startable,
            deadline,
            created_at,
            updated_at,
            title: Some(x),
            assign,
            link,
        },
        Atom::Assign(x) => Condition {
            boolean,
            context,
            weight,
            startable,
            deadline,
            created_at,
            updated_at,
            title,
            assign: Some(x),
            link,
        },
        Atom::Link(x) => Condition {
            boolean,
            context,
            weight,
            startable,
            deadline,
            created_at,
            updated_at,
            title,
            assign,
            link: Some(x),
        },
    }
}

/// An atom that is an expression (see `expression_atom`).
fn a_expression_atom(s: &Vec<char>, at: usize) -> (found: Result<(Atom, usize), ParseError>)
    requires
        at <= s.len(),
    ensures
        same(found, expression_atom(s@, at as int)),
        advances(found, at, s@.len()),
{
    match a_expression(s, at) {
        Ok((x, next)) => Ok((Atom::Title(x), next)),
        Err(e) => {
            if e.kind != ParseErrorKind::UnexpectedChar {
                Err(e)
            } else if at_is(s, at, '@') {
                match a_expression(s, at + 1) {
                    Ok((x, next)) => Ok((Atom::Assign(x), next)),
                    Err(e) => Err(e),
                }
            } else if at_is(s, at, '&') {
                match a_expression(s, at + 1) {
                    Ok((x, next)) => Ok((Atom::Link(x), next)),
                    Err(e) => Err(e),
                }
            } else {
                Err(ParseError { kind: ParseErrorKind::UnexpectedChar, position: at })
            }
        },
    }
}

/// The atom at `at` (see `atom`).
pub fn a_atom(s: &Vec<char>, at: usize) -> (found: Result<(Atom, usize), ParseError>)
    requires
        at <= s.len(),
    ensures
        same(found, atom(s@, at as int)),
        advances(found, at, s@.len()),
{
    proof {
        reveal(atom);
    }
    if at_is(s, at, '-') {
        return match a_boolean(s, at + 1) {
            Some((flags, next)) => Ok((Atom::Flags(flags), next)),
            None => Err(ParseError { kind: ParseErrorKind::UnexpectedChar, position: at + 1 }),
        };
    }
    match a_range_i(s, at, '#') {
        Some((r, next)) => {
            return Ok((Atom::Context(r), next));
        },
        None => {},
    }
    match a_range_f(s, at, 'w') {
        Some((r, next)) => {
            return Ok((Atom::Weight(r), next));
        },
        None => {},
    }
    match a_range_t(s, at, 's') {
        Some((r, next)) => {
            return Ok((Atom::Startable(r), next));
        },
        None => {},
    }
    match a_range_t(s, at, 'd') {
        Some((r, next)) => {
            return Ok((Atom::Deadline(r), next));
        },
        None => {},
    }
    match a_range_t(s, at, 'c') {
        Some((r, next)) => {
            return Ok((Atom::CreatedAt(r), next));
        },
        None => {},
    }
    match a_range_t(s, at, 'u') {
        Some((r, next)) => {
            return Ok((Atom::UpdatedAt(r), next));
        },
        None => {},
    }
    a_expression_atom(s, at)
}

/// The search that the text from `at` on writes (see `condition`).
pub fn a_condition(s: &Vec<char>, at: usize) -> (found: Result<(Condition, usize), ParseError>)
    requires
        at <= s.len(),
    ensures
        same(found, condition(s@, at as int)),
    decreases s.len() - at, 1int,
{
    if at >= s.len() {
        return Ok((Condition::default(), at));
    }
    if is_whitespace(s[at]) {
        let next = run(s, at, Class::Space);
        proof {
            crate::text::lemma_span(s@, at + 1, Class::Space);
        }
        return a_condition(s, next);
    }
    match a_atom(s, at) {
        Ok((first, next)) => match a_condition_more(s, at, next) {
            Ok((rest, end)) => Ok((put_before(first, rest), end)),
            Err(e) => Err(e),
        },
        Err(e) => Err(e),
    }
}

/// The search that goes on at `at`, behind what was read from `from` (see `condition_more`).
fn a_condition_more(s: &Vec<char>, from: usize, at: usize) -> (found: Result<(Condition, usize), ParseError>)
    requires
        from < at <= s.len(),
    ensures
        same(found, condition_more(s@, from as int, at as int)),
    decreases s.len() - from, 0int,
{
    if at >= s.len() || is_whitespace(s[at]) {
        a_condition(s, at)
    } else {
        Err(ParseError { kind: ParseErrorKind::UnexpectedChar, position: at })
    }
}

} // verus!
