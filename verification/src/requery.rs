//! A search that is written down again reads as the search that was read: the proofs.

use vstd::prelude::*;
use crate::errors::ParseError;
use crate::lexer::{booleans, date, datetime, expression, hashes, is_at, non_nega_f, opens, quoted, time};
use crate::render::{
    after, condition_text, expression_text, flags_text, moment_bound_text, number_bound_text, range_piece,
    range_text, search_assign, search_context, search_flags, search_link, search_title, search_weight,
};
use crate::reparse::{holds, lemma_datetime_sound, lemma_holds_alike, lemma_holds_both, lemma_number_sound};
use crate::request::{Boolean, ConditionView, ExpressionView, any_condition, no_boolean};
use crate::research::{
    at_gap, bound_ok, expression_ok, flags_from, lemma_expression_in, lemma_expression_ok, lemma_flags_in,
    lemma_lexeme_ok, lemma_range_f_in, lemma_range_i_in, lemma_range_t_in, lexeme_ok, moment_letter, moment_ok,
};
use crate::search::{AtomView, atom, condition, condition_more, number_bound, range_f, range_i, range_t, with_atom};
use crate::text::{Class, is_space, lemma_span, span};
use crate::time::EasyDateTime;

verus! {

/// A search that was read: what it holds is as it has to be to be read again.
pub open spec fn searchable(c: ConditionView) -> bool {
    &&& bound_ok(c.context.0) && bound_ok(c.context.1)
    &&& lexeme_ok(c.weight.0) && lexeme_ok(c.weight.1)
    &&& moment_ok(c.startable.0) && moment_ok(c.startable.1)
    &&& moment_ok(c.deadline.0) && moment_ok(c.deadline.1)
    &&& moment_ok(c.created_at.0) && moment_ok(c.created_at.1)
    &&& moment_ok(c.updated_at.0) && moment_ok(c.updated_at.1)
    &&& c.title is Some ==> expression_ok(c.title->0, 0)
    &&& c.assign is Some ==> expression_ok(c.assign->0, 4)
    &&& c.link is Some ==> expression_ok(c.link->0, 4)
}

/// An atom that was read: what it holds is as it has to be to be read again.
pub open spec fn atom_ok(a: AtomView) -> bool {
    match a {
        AtomView::Flags(_) => true,
        AtomView::Context(r) => bound_ok(r.0) && bound_ok(r.1),
        AtomView::Weight(r) => lexeme_ok(r.0) && lexeme_ok(r.1),
        AtomView::Startable(r) => moment_ok(r.0) && moment_ok(r.1),
        AtomView::Deadline(r) => moment_ok(r.0) && moment_ok(r.1),
        AtomView::CreatedAt(r) => moment_ok(r.0) && moment_ok(r.1),
        AtomView::UpdatedAt(r) => moment_ok(r.0) && moment_ok(r.1),
        AtomView::Title(x) => expression_ok(x, 0),
        AtomView::Assign(x) => expression_ok(x, 4),
        AtomView::Link(x) => expression_ok(x, 4),
    }
}

/// The bounds of a range of numbers that is read fit in 32 bits and are not negative.
proof fn lemma_range_i_ok(s: Seq<char>, at: int, letter: char)
    requires
        0 <= at <= s.len(),
    ensures
        match range_i(s, at, letter) {
            Some((r, next)) => bound_ok(r.0) && bound_ok(r.1) && at < next <= s.len(),
            None => true,
        },
{
    lemma_number_sound(s, at);
    match number_bound(s, at) {
        Some((low, next)) => {
            if next + 3 <= s.len() {
                lemma_number_sound(s, next + 3);
            }
        },
        None => {
            if at + 2 <= s.len() {
                lemma_number_sound(s, at + 2);
            }
        },
    }
}

/// The bounds of a range of decimal numerals that is read are decimal numerals.
proof fn lemma_range_f_ok(s: Seq<char>, at: int, letter: char)
    requires
        0 <= at <= s.len(),
    ensures
        match range_f(s, at, letter) {
            Some((r, next)) => lexeme_ok(r.0) && lexeme_ok(r.1) && at < next <= s.len(),
            None => true,
        },
{
    lemma_lexeme_ok(s, at);
    match non_nega_f(s, at) {
        Some((low, next)) => {
            if next + 3 <= s.len() {
                lemma_lexeme_ok(s, next + 3);
            }
        },
        None => {
            if at + 2 <= s.len() {
                lemma_lexeme_ok(s, at + 2);
            }
        },
    }
}

/// The bounds of a range of dates and times that is read have no negative part.
proof fn lemma_range_t_ok(s: Seq<char>, at: int, letter: char)
    requires
        0 <= at <= s.len(),
    ensures
        match range_t(s, at, letter) {
            Some((r, next)) => moment_ok(r.0) && moment_ok(r.1) && at < next <= s.len(),
            None => true,
        },
{
    lemma_datetime_sound(s, at);
    match datetime(s, at) {
        Some((low, next)) => {
            if next + 3 <= s.len() {
                lemma_datetime_sound(s, next + 3);
            }
        },
        None => {
            if at + 2 <= s.len() {
                lemma_datetime_sound(s, at + 2);
            }
        },
    }
}

/// Where no range of the context is read and a quotation is, the quotation opens with a double quote.
proof fn lemma_title_opens(s: Seq<char>, at: int)
    requires
        0 <= at < s.len(),
        range_i(s, at, '#') is None,
        quoted(s, at) is Ok,
    ensures
        is_at(s, at, '"'),
{
    if !opens(s, at, 0) {
        assert(span(s, at + 1, Class::Digit) >= at + 1) by {
            lemma_span(s, at + 1, Class::Digit);
        }
        if opens(s, at, 1) {
            assert(s[at] == '#');
            assert(s[at + 1] == '"');
        } else {
            assert(hashes(s, at, 2) || hashes(s, at, 3) || hashes(s, at, 4));
            assert(s[at] == '#');
            assert(s[at + 1] == '#');
        }
        assert(span(s, at, Class::Digit) == at);
        assert(number_bound(s, at) is None);
    }
}

/// An atom that is read is as it has to be to be read again.
pub proof fn lemma_atom_ok(s: Seq<char>, at: int)
    requires
        0 <= at < s.len(),
    ensures
        match atom(s, at) {
            Ok((a, next)) => atom_ok(a) && at < next <= s.len(),
            Err(_) => true,
        },
{
    reveal(atom);
    if is_at(s, at, '-') {
        lemma_booleans_end(s, at + 1);
    } else {
        lemma_range_i_ok(s, at, '#');
        lemma_range_f_ok(s, at, 'w');
        lemma_range_t_ok(s, at, 's');
        lemma_range_t_ok(s, at, 'd');
        lemma_range_t_ok(s, at, 'c');
        lemma_range_t_ok(s, at, 'u');
        if range_i(s, at, '#') is None {
            lemma_expression_ok(s, at);
            lemma_expression_ok(s, at + 1);
            if quoted(s, at) is Ok {
                lemma_title_opens(s, at);
            }
        }
    }
}

/// Flags that are read end within the text.
proof fn lemma_booleans_end(s: Seq<char>, at: int)
    requires
        0 <= at <= s.len(),
    ensures
        match booleans(s, at) {
            Some((_, next)) => at < next <= s.len(),
            None => true,
        },
    decreases s.len() - at,
{
    let letter = if is_at(s, at, '!') {
        at + 1
    } else {
        at
    };
    if letter < s.len() {
        lemma_booleans_end(s, letter + 1);
    }
}

/// A search that can be read again, with an atom before it that can be, is one that can be.
proof fn lemma_with_atom_ok(a: AtomView, rest: ConditionView)
    requires
        atom_ok(a),
        searchable(rest),
    ensures
        searchable(with_atom(a, rest)),
{
}

/// A result of reading a search holds, where it holds one, a search that can be read again.
pub open spec fn found_ok(found: Result<(ConditionView, int), ParseError>) -> bool {
    match found {
        Ok((c, _)) => searchable(c),
        Err(_) => true,
    }
}

/// What goes on behind an atom that can be read again, is a search that
/// can be read again where what follows is.
proof fn lemma_more_ok(s: Seq<char>, at: int, first: AtomView, next: int)
    requires
        0 <= at < s.len(),
        !is_space(s[at]),
        atom(s, at) == Ok::<(AtomView, int), ParseError>((first, next)),
        atom_ok(first),
        found_ok(condition(s, next)),
    ensures
        found_ok(condition(s, at)),
{
    match condition_more(s, at, next) {
        Ok((rest, end)) => {
            assert(condition(s, next) == Ok::<(ConditionView, int), ParseError>((rest, end)));
            lemma_with_atom_ok(first, rest);
            assert(condition(s, at) == Ok::<(ConditionView, int), ParseError>((with_atom(first, rest), end)));
        },
        Err(e) => {
            assert(condition(s, at) == Err::<(ConditionView, int), ParseError>(e));
        },
    }
}

/// A search that is read is as it has to be to be read again.
pub proof fn lemma_condition_ok(s: Seq<char>, at: int)
    requires
        0 <= at,
    ensures
        found_ok(condition(s, at)),
    decreases s.len() - at,
{
    if at >= s.len() {
        assert(searchable(any_condition()));
    } else if is_space(s[at]) {
        let next = span(s, at, Class::Space);
        if !(next <= at || next > s.len()) {
            lemma_condition_ok(s, next);
        }
    } else {
        lemma_atom_ok(s, at);
        match atom(s, at) {
            Ok((first, next)) => {
                lemma_condition_ok(s, next);
                lemma_more_ok(s, at, first, next);
            },
            Err(e) => {
                assert(condition(s, at) == Err::<(ConditionView, int), ParseError>(e));
            },
        }
    }
}

/// The part of a search at `k`, in the order in which a search is written, as text.
pub open spec fn part(c: ConditionView, k: int) -> Option<Seq<char>> {
    if k == 0 {
        search_flags(c)
    } else if k == 1 {
        search_context(c)
    } else if k == 2 {
        search_weight(c)
    } else if k == 3 {
        range_piece(moment_bound_text(c.startable.0), 's', moment_bound_text(c.startable.1))
    } else if k == 4 {
        range_piece(moment_bound_text(c.deadline.0), 'd', moment_bound_text(c.deadline.1))
    } else if k == 5 {
        range_piece(moment_bound_text(c.created_at.0), 'c', moment_bound_text(c.created_at.1))
    } else if k == 6 {
        range_piece(moment_bound_text(c.updated_at.0), 'u', moment_bound_text(c.updated_at.1))
    } else if k == 7 {
        search_title(c)
    } else if k == 8 {
        search_assign(c)
    } else {
        search_link(c)
    }
}

/// The part of a search at `k` as an atom.
pub open spec fn part_atom(c: ConditionView, k: int) -> AtomView {
    if k == 0 {
        AtomView::Flags(c.boolean)
    } else if k == 1 {
        AtomView::Context(c.context)
    } else if k == 2 {
        AtomView::Weight(c.weight)
    } else if k == 3 {
        AtomView::Startable(c.startable)
    } else if k == 4 {
        AtomView::Deadline(c.deadline)
    } else if k == 5 {
        AtomView::CreatedAt(c.created_at)
    } else if k == 6 {
        AtomView::UpdatedAt(c.updated_at)
    } else if k == 7 {
        AtomView::Title(c.title->0)
    } else if k == 8 {
        AtomView::Assign(c.assign->0)
    } else {
        AtomView::Link(c.link->0)
    }
}

/// The parts of a search from the one at `k` on as text, a space before each.
pub open spec fn parts_text(c: ConditionView, k: int) -> Seq<char>
    decreases 10 - k,
{
    if k < 0 || k >= 10 {
        Seq::empty()
    } else {
        after(part(c, k), parts_text(c, k + 1))
    }
}

/// The search with its parts from the one at `k` on, the others left open.
pub open spec fn from_part(c: ConditionView, k: int) -> ConditionView {
    ConditionView {
        boolean: if k <= 0 {
            c.boolean
        } else {
            no_boolean()
        },
        context: if k <= 1 {
            c.context
        } else {
            (None, None)
        },
        weight: if k <= 2 {
            c.weight
        } else {
            (None, None)
        },
        startable: if k <= 3 {
            c.startable
        } else {
            (None, None)
        },
        deadline: if k <= 4 {
            c.deadline
        } else {
            (None, None)
        },
        created_at: if k <= 5 {
            c.created_at
        } else {
            (None, None)
        },
        updated_at: if k <= 6 {
            c.updated_at
        } else {
            (None, None)
        },
        title: if k <= 7 {
            c.title
        } else {
            None
        },
        assign: if k <= 8 {
            c.assign
        } else {
            None
        },
        link: if k <= 9 {
            c.link
        } else {
            None
        },
    }
}

/// Where neither a digit nor a mark of a range, a date or a flag stands, no range is read.
proof fn lemma_no_range(t: Seq<char>, p: int)
    requires
        0 <= p < t.len(),
        t[p] == '"' || t[p] == 'r' || t[p] == '@' || t[p] == '&',
    ensures
        range_i(t, p, '#') is None,
        range_f(t, p, 'w') is None,
        range_t(t, p, 's') is None,
        range_t(t, p, 'd') is None,
        range_t(t, p, 'c') is None,
        range_t(t, p, 'u') is None,
        !is_at(t, p, '-'),
        !is_space(t[p]),
{
    assert(span(t, p, Class::Digit) == p);
}

/// An expression behind a mark, as it is written, is read as what the mark says.
proof fn lemma_marked_in(t: Seq<char>, p: int, x: ExpressionView, mark: char)
    requires
        mark == '@' || mark == '&',
        expression_ok(x, 4),
        holds(t, p, seq![mark] + expression_text(x, 4)),
    ensures
        atom(t, p) == Ok::<(AtomView, int), ParseError>(
            (
                if mark == '&' {
                    AtomView::Link(x)
                } else {
                    AtomView::Assign(x)
                },
                p + 1 + expression_text(x, 4).len(),
            ),
        ),
        !is_space(t[p]),
{
    reveal(atom);
    let m = seq![mark];
    lemma_holds_both(t, p, m, expression_text(x, 4));
    lemma_holds_alike(t, p, m);
    assert(t[p + 0] == m[0]);
    lemma_no_range(t, p);
    lemma_expression_in(t, p + 1, x, 4);
    assert(!opens(t, p, 0));
    assert(!opens(t, p, 1));
    assert(!opens(t, p, 2));
    assert(!opens(t, p, 3));
    assert(!opens(t, p, 4));
}

/// Where a text holds flags behind a dash as they are written, up to
/// white space or its end, they are read there as an atom.
proof fn lemma_flags_atom(t: Seq<char>, p: int, b: Boolean)
    requires
        b != no_boolean(),
        holds(t, p, seq!['-'] + flags_text(b)),
        at_gap(t, p + 1 + flags_text(b).len()),
    ensures
        atom(t, p) == Ok::<(AtomView, int), ParseError>((AtomView::Flags(b), p + 1 + flags_text(b).len())),
        !is_space(t[p]),
{
    reveal(atom);
    let dash = seq!['-'];
    lemma_holds_both(t, p, dash, flags_text(b));
    lemma_holds_alike(t, p, dash);
    assert(t[p + 0] == dash[0]);
    assert(flags_from(b, 0) == b);
    lemma_flags_in(t, p + 1, b, 0);
}

/// Where a text holds a range of the context as it is written, up to
/// white space or its end, it is read there as an atom.
proof fn lemma_context_atom(t: Seq<char>, p: int, low: Option<i64>, high: Option<i64>)
    requires
        bound_ok(low),
        bound_ok(high),
        holds(t, p, range_text(number_bound_text(low), '#', number_bound_text(high))),
        at_gap(t, p + range_text(number_bound_text(low), '#', number_bound_text(high)).len()),
    ensures
        atom(t, p) == Ok::<(AtomView, int), ParseError>(
            (
                AtomView::Context((low, high)),
                p + range_text(number_bound_text(low), '#', number_bound_text(high)).len(),
            ),
        ),
        !is_space(t[p]),
{
    reveal(atom);
    lemma_range_i_in(t, p, low, high);
}

/// Where a text holds a range of the weight as it is written, up to
/// white space or its end, it is read there as an atom.
proof fn lemma_weight_atom(t: Seq<char>, p: int, low: Option<Seq<char>>, high: Option<Seq<char>>)
    requires
        lexeme_ok(low),
        lexeme_ok(high),
        holds(t, p, range_text(low, 'w', high)),
        at_gap(t, p + range_text(low, 'w', high).len()),
    ensures
        atom(t, p) == Ok::<(AtomView, int), ParseError>(
            (AtomView::Weight((low, high)), p + range_text(low, 'w', high).len()),
        ),
        !is_space(t[p]),
{
    reveal(atom);
    lemma_range_f_in(t, p, low, high);
}

/// The atom that a range of dates and times over `letter` is.
pub open spec fn moment_atom(letter: char, r: (Option<EasyDateTime>, Option<EasyDateTime>)) -> AtomView {
    if letter == 's' {
        AtomView::Startable(r)
    } else if letter == 'd' {
        AtomView::Deadline(r)
    } else if letter == 'c' {
        AtomView::CreatedAt(r)
    } else {
        AtomView::UpdatedAt(r)
    }
}

/// Where a text holds a range of dates and times as it is written, up to
/// white space or its end, it is read there as an atom.
proof fn lemma_moment_atom(t: Seq<char>, p: int, low: Option<EasyDateTime>, letter: char, high: Option<EasyDateTime>)
    requires
        moment_ok(low),
        moment_ok(high),
        moment_letter(letter),
        holds(t, p, range_text(moment_bound_text(low), letter, moment_bound_text(high))),
        at_gap(t, p + range_text(moment_bound_text(low), letter, moment_bound_text(high)).len()),
    ensures
        atom(t, p) == Ok::<(AtomView, int), ParseError>(
            (
                moment_atom(letter, (low, high)),
                p + range_text(moment_bound_text(low), letter, moment_bound_text(high)).len(),
            ),
        ),
        !is_space(t[p]),
{
    reveal(atom);
    lemma_range_t_in(t, p, low, letter, high);
    if letter != 's' {
        assert(range_t(t, p, 's') is None);
    }
    if letter != 'd' {
        assert(range_t(t, p, 'd') is None);
    }
    if letter != 'c' {
        assert(range_t(t, p, 'c') is None);
    }
}

/// Where a text holds an expression as it is written for the title, it
/// is read there as an atom.
proof fn lemma_title_atom(t: Seq<char>, p: int, x: ExpressionView)
    requires
        expression_ok(x, 0),
        holds(t, p, expression_text(x, 0)),
    ensures
        atom(t, p) == Ok::<(AtomView, int), ParseError>((AtomView::Title(x), p + expression_text(x, 0).len())),
        !is_space(t[p]),
{
    reveal(atom);
    lemma_expression_in(t, p, x, 0);
    lemma_no_range(t, p);
}

/// Where a text holds a part of a search as it is written, up to white
/// space or its end, the part is read there as an atom.
pub proof fn lemma_part_in(t: Seq<char>, p: int, c: ConditionView, k: int)
    requires
        searchable(c),
        0 <= k < 10,
        part(c, k) is Some,
        holds(t, p, part(c, k)->0),
        at_gap(t, p + part(c, k)->0.len()),
    ensures
        atom(t, p) == Ok::<(AtomView, int), ParseError>((part_atom(c, k), p + part(c, k)->0.len())),
        !is_space(t[p]),
{
    if k == 0 {
        lemma_flags_atom(t, p, c.boolean);
    } else if k == 1 {
        lemma_context_atom(t, p, c.context.0, c.context.1);
    } else if k == 2 {
        lemma_weight_atom(t, p, c.weight.0, c.weight.1);
    } else if k == 3 {
        lemma_moment_atom(t, p, c.startable.0, 's', c.startable.1);
    } else if k == 4 {
        lemma_moment_atom(t, p, c.deadline.0, 'd', c.deadline.1);
    } else if k == 5 {
        lemma_moment_atom(t, p, c.created_at.0, 'c', c.created_at.1);
    } else if k == 6 {
        lemma_moment_atom(t, p, c.updated_at.0, 'u', c.updated_at.1);
    } else if k == 7 {
        lemma_title_atom(t, p, c.title->0);
    } else if k == 8 {
        lemma_marked_in(t, p, c.assign->0, '@');
    } else {
        lemma_marked_in(t, p, c.link->0, '&');
    }
}

/// A part before the parts behind it makes the search from that part on.
proof fn lemma_part_joins(c: ConditionView, k: int)
    requires
        0 <= k < 10,
    ensures
        part(c, k) is Some ==> with_atom(part_atom(c, k), from_part(c, k + 1)) == from_part(c, k),
        part(c, k) is None ==> from_part(c, k + 1) == from_part(c, k),
{
}

/// Where a text holds the parts of a search from the one at `k` on as
/// they are written, up to its end, they are read there.
pub proof fn lemma_parts_in(t: Seq<char>, p: int, c: ConditionView, k: int)
    requires
        searchable(c),
        0 <= k <= 10,
        holds(t, p, parts_text(c, k)),
        p + parts_text(c, k).len() == t.len(),
    ensures
        condition(t, p) == Ok::<(ConditionView, int), ParseError>((from_part(c, k), t.len() as int)),
        at_gap(t, p),
    decreases 10 - k,
{
    if k < 10 {
        lemma_part_joins(c, k);
        let rest = parts_text(c, k + 1);
        match part(c, k) {
            Some(piece) => {
                let space = seq![' '];
                lemma_holds_both(t, p, space, piece + rest);
                lemma_holds_both(t, p + 1, piece, rest);
                lemma_holds_alike(t, p, space);
                assert(t[p + 0] == space[0]);
                let e = p + 1 + piece.len();
                lemma_parts_in(t, e, c, k + 1);
                lemma_part_in(t, p + 1, c, k);
                assert(span(t, p + 1, Class::Space) == p + 1);
                assert(span(t, p, Class::Space) == p + 1);
                assert(condition(t, p) == condition(t, p + 1));
                assert(condition_more(t, p + 1, e) == condition(t, e));
            },
            None => {
                lemma_parts_in(t, p, c, k + 1);
            },
        }
    } else {
        assert(from_part(c, k) == any_condition());
    }
}

/// Where a text holds a search as it is written, up to its end, the search is read there.
pub proof fn lemma_condition_in(t: Seq<char>, p: int, c: ConditionView)
    requires
        searchable(c),
        holds(t, p, condition_text(c)),
        p + condition_text(c).len() == t.len(),
    ensures
        condition(t, p) == Ok::<(ConditionView, int), ParseError>((c, t.len() as int)),
{
    reveal_with_fuel(parts_text, 11);
    assert(condition_text(c) == parts_text(c, 0));
    assert(from_part(c, 0) == c);
    lemma_parts_in(t, p, c, 0);
}

} // verus!
