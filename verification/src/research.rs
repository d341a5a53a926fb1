//! What is written down again of a search reads as what was read: the proofs.

use vstd::prelude::*;
use crate::errors::ParseError;
use crate::lexer::{
    booleans, close_from, closes, datetime, date, expression, hashes, is_at, non_nega_f, non_nega_i, opens, quoted,
    quoted_deep, time, with_flag, words_from,
};
use crate::pattern::regex_compiles;
use crate::render::{
    datetime_text, expression_text, flag_text, flags_text, hashes_text, moment_bound_text, number_bound_text,
    quoted_text, range_text, words_text,
};
use crate::reparse::{
    holds, lemma_datetime_in, lemma_datetime_text, lemma_holds_alike, lemma_holds_both, lemma_number_reads,
    lemma_numeral, lemma_span_run, moment_char, sound_datetime,
};
use crate::request::{Boolean, ExpressionView, no_boolean};
use crate::search::{range_f, range_i, range_t};
use crate::text::{Class, is_space, lemma_span, numeral, span};
use crate::time::EasyDateTime;

verus! {

/// No quotation of `depth` closes within the text.
pub open spec fn free(text: Seq<char>, depth: int) -> bool {
    forall|i: int| 0 <= i < text.len() ==> !closes(text, #[trigger] id(i), depth)
}

/// A place, as itself.
pub open spec fn id(i: int) -> int {
    i
}

/// A word of an expression: not empty, without white space, and free of what closes a quotation.
pub open spec fn word_ok(w: Seq<char>, depth: int) -> bool {
    &&& w.len() > 0
    &&& forall|k: int| 0 <= k < w.len() ==> Class::Solid.holds(#[trigger] w[k])
    &&& free(w, depth)
}

/// An expression that was read.
pub open spec fn expression_ok(x: ExpressionView, depth: int) -> bool {
    match x {
        ExpressionView::Words(words) => forall|i: int| 0 <= i < words.len() ==> word_ok(#[trigger] words[i], depth),
        ExpressionView::Regex(pattern) => free(pattern, 4) && regex_compiles(pattern),
    }
}

/// Hash signs as they are written are hash signs.
pub proof fn lemma_hashes_text(depth: int)
    requires
        0 <= depth,
    ensures
        hashes_text(depth).len() == depth,
        forall|k: int| 0 <= k < depth ==> #[trigger] hashes_text(depth)[k] == '#',
    decreases depth,
{
    if depth > 0 {
        lemma_hashes_text(depth - 1);
    }
}

/// Where a text holds hash signs as they are written, there are so many hash signs.
pub proof fn lemma_hashes_in(t: Seq<char>, p: int, depth: int)
    requires
        0 <= depth,
        holds(t, p, hashes_text(depth)),
    ensures
        hashes(t, p, depth),
{
    lemma_hashes_text(depth);
    lemma_holds_alike(t, p, hashes_text(depth));
    assert forall|k: int| p <= k < p + depth implies #[trigger] t[k] == '#' by {
        assert(t[p + (k - p)] == hashes_text(depth)[k - p]);
    }
}

/// A text that is free of what closes a quotation of some depth is free of what closes a deeper one.
pub proof fn lemma_free_deeper(text: Seq<char>, depth: int, deeper: int)
    requires
        0 <= depth <= deeper,
        free(text, depth),
    ensures
        free(text, deeper),
{
    assert forall|i: int| 0 <= i < text.len() implies !closes(text, #[trigger] id(i), deeper) by {
        assert(!closes(text, id(i), depth));
    }
}

/// Before the place where a quotation first closes it does not close.
pub proof fn lemma_close_from(s: Seq<char>, at: int, depth: int)
    requires
        0 <= at,
    ensures
        at <= close_from(s, at, depth) || at > s.len(),
        forall|i: int| at <= i < close_from(s, at, depth) ==> !closes(s, #[trigger] id(i), depth),
        close_from(s, at, depth) < s.len() ==> closes(s, close_from(s, at, depth), depth),
        at <= s.len() ==> close_from(s, at, depth) <= s.len(),
    decreases s.len() - at,
{
    if at < s.len() && !closes(s, at, depth) {
        lemma_close_from(s, at + 1, depth);
        assert forall|i: int| at <= i < close_from(s, at, depth) implies !closes(s, #[trigger] id(i), depth) by {
            if i > at {
                assert(!closes(s, id(i), depth));
            }
        }
    }
}

/// The text of a quotation that is read is free of what closes it.
pub proof fn lemma_quoted_deep_free(s: Seq<char>, at: int, depth: int)
    requires
        0 <= at,
        0 <= depth,
        at + depth + 1 <= s.len(),
    ensures
        match quoted_deep(s, at, depth) {
            Ok((text, next)) => free(text, depth) && at < next <= s.len(),
            Err(_) => true,
        },
{
    let body = at + depth + 1;
    lemma_close_from(s, body, depth);
    let end = close_from(s, body, depth);
    if end < s.len() {
        let text = s.subrange(body, end);
        assert forall|i: int| 0 <= i < text.len() implies !closes(text, #[trigger] id(i), depth) by {
            if closes(text, i, depth) {
                assert(!closes(s, id(body + i), depth));
                assert(text[i] == s[body + i]);
                assert forall|k: int| body + i + 1 <= k < body + i + 1 + depth implies #[trigger] s[k] == '#' by {
                    assert(text[k - body] == s[k]);
                }
            }
        }
    }
}

/// The text of a quotation that is read is free of what closes the
/// deepest quotation, and, where the quotation has no depth, of any quote.
pub proof fn lemma_quoted_free(s: Seq<char>, at: int)
    requires
        0 <= at <= s.len(),
    ensures
        match quoted(s, at) {
            Ok((text, next)) => free(text, 4) && (opens(s, at, 0) ==> free(text, 0)) && at < next <= s.len(),
            Err(_) => true,
        },
{
    if opens(s, at, 0) {
        lemma_quoted_deep_free(s, at, 0);
        match quoted_deep(s, at, 0) {
            Ok((text, _)) => lemma_free_deeper(text, 0, 4),
            Err(_) => {},
        }
    } else if opens(s, at, 1) {
        lemma_quoted_deep_free(s, at, 1);
        match quoted_deep(s, at, 1) {
            Ok((text, _)) => lemma_free_deeper(text, 1, 4),
            Err(_) => {},
        }
    } else if opens(s, at, 2) {
        lemma_quoted_deep_free(s, at, 2);
        match quoted_deep(s, at, 2) {
            Ok((text, _)) => lemma_free_deeper(text, 2, 4),
            Err(_) => {},
        }
    } else if opens(s, at, 3) {
        lemma_quoted_deep_free(s, at, 3);
        match quoted_deep(s, at, 3) {
            Ok((text, _)) => lemma_free_deeper(text, 3, 4),
            Err(_) => {},
        }
    } else if opens(s, at, 4) {
        lemma_quoted_deep_free(s, at, 4);
    }
}

/// Where a text holds a quotation as it is written, of a text that is
/// free of what closes it, the text is read there.
pub proof fn lemma_quoted_in(t: Seq<char>, p: int, text: Seq<char>, depth: int)
    requires
        0 <= depth <= 4,
        free(text, depth),
        holds(t, p, quoted_text(text, depth)),
    ensures
        quoted(t, p) == Ok::<(Seq<char>, int), ParseError>((text, p + quoted_text(text, depth).len())),
        quoted_text(text, depth).len() == 2 * depth + 2 + text.len(),
{
    let marks = hashes_text(depth);
    let quote = seq!['"'];
    lemma_hashes_text(depth);
    lemma_holds_both(t, p, marks, quote + (text + (quote + marks)));
    let q = p + depth;
    lemma_holds_both(t, q, quote, text + (quote + marks));
    let body = q + 1;
    lemma_holds_both(t, body, text, quote + marks);
    let e = body + text.len();
    lemma_holds_both(t, e, quote, marks);
    lemma_holds_alike(t, q, quote);
    lemma_holds_alike(t, e, quote);
    lemma_holds_alike(t, body, text);
    assert(t[q + 0] == quote[0]);
    assert(t[e + 0] == quote[0]);
    lemma_hashes_in(t, p, depth);
    lemma_hashes_in(t, e + 1, depth);
    assert forall|d: int| 0 <= d < depth implies !opens(t, p, d) by {
        assert(t[p + d] == '#');
    }
    lemma_close_in(t, body, text, depth, 0);
    assert(t.subrange(body, e) =~= text);
}

/// Within the text of a quotation as it is written the quotation first closes behind the text.
proof fn lemma_close_in(t: Seq<char>, body: int, text: Seq<char>, depth: int, i: int)
    requires
        0 <= depth,
        0 <= body,
        0 <= i <= text.len(),
        free(text, depth),
        holds(t, body, text),
        body + text.len() < t.len(),
        t[body + text.len()] == '"',
        hashes(t, body + text.len() + 1, depth),
    ensures
        close_from(t, body + i, depth) == body + text.len(),
    decreases text.len() - i,
{
    lemma_holds_alike(t, body, text);
    let e = body + text.len();
    if i < text.len() {
        assert(!closes(text, id(i), depth));
        assert(t[body + i] == text[i]);
        if closes(t, body + i, depth) {
            if i + 1 + depth <= text.len() {
                assert forall|k: int| i + 1 <= k < i + 1 + depth implies #[trigger] text[k] == '#' by {
                    assert(t[body + k] == text[k]);
                }
            } else {
                assert(t[e] == '#');
            }
        }
        lemma_close_in(t, body, text, depth, i + 1);
    }
}

/// A part of a text that is free of what closes a quotation is free of it.
pub proof fn lemma_free_part(text: Seq<char>, from: int, to: int, depth: int)
    requires
        0 <= from <= to <= text.len(),
        0 <= depth,
        free(text, depth),
    ensures
        free(text.subrange(from, to), depth),
{
    let part = text.subrange(from, to);
    assert forall|i: int| 0 <= i < part.len() implies !closes(part, #[trigger] id(i), depth) by {
        if closes(part, i, depth) {
            assert(!closes(text, id(from + i), depth));
            assert(part[i] == text[from + i]);
            assert forall|k: int| from + i + 1 <= k < from + i + 1 + depth implies #[trigger] text[k] == '#' by {
                assert(part[k - from] == text[k]);
            }
        }
    }
}

/// The words of a text that is free of what closes a quotation are words of an expression.
pub proof fn lemma_words_ok(text: Seq<char>, at: int, depth: int)
    requires
        0 <= at <= text.len(),
        0 <= depth,
        free(text, depth),
    ensures
        forall|i: int|
            0 <= i < words_from(text, at).len() ==> word_ok(#[trigger] words_from(text, at)[i], depth),
    decreases text.len() - at,
{
    lemma_span(text, at, Class::Space);
    let from = span(text, at, Class::Space);
    lemma_span(text, from, Class::Solid);
    let to = span(text, from, Class::Solid);
    if from < text.len() && to > from && to > at && to <= text.len() {
        lemma_words_ok(text, to, depth);
        let w = text.subrange(from, to);
        lemma_free_part(text, from, to, depth);
        assert forall|k: int| 0 <= k < w.len() implies Class::Solid.holds(#[trigger] w[k]) by {
            assert(w[k] == text[from + k]);
        }
        let all = words_from(text, at);
        let rest = words_from(text, to);
        assert forall|i: int| 0 <= i < all.len() implies word_ok(#[trigger] all[i], depth) by {
            if i > 0 {
                assert(all[i] == rest[i - 1]);
            }
        }
    }
}

/// Words of an expression, written with one space between one and the
/// next, are free of what closes a quotation.
pub proof fn lemma_words_text_free(words: Seq<Seq<char>>, from: int, depth: int)
    requires
        0 <= from <= words.len(),
        0 <= depth,
        forall|i: int| 0 <= i < words.len() ==> word_ok(#[trigger] words[i], depth),
    ensures
        free(words_text(words, from), depth),
    decreases words.len() - from,
{
    let text = words_text(words, from);
    if from < words.len() {
        let w = words[from];
        assert(word_ok(w, depth));
        if from == words.len() - 1 {
        } else {
            lemma_words_text_free(words, from + 1, depth);
            let rest = words_text(words, from + 1);
            assert forall|i: int| 0 <= i < text.len() implies !closes(text, #[trigger] id(i), depth) by {
                if closes(text, i, depth) {
                    if i < w.len() {
                        assert(!closes(w, id(i), depth));
                        assert(text[i] == w[i]);
                        if i + 1 + depth <= w.len() {
                            assert forall|k: int| i + 1 <= k < i + 1 + depth implies #[trigger] w[k] == '#' by {
                                assert(text[k] == w[k]);
                            }
                        } else {
                            assert(text[w.len() as int] == ' ');
                        }
                    } else if i == w.len() {
                        assert(text[i] == ' ');
                    } else {
                        let j = i - w.len() - 1;
                        assert(!closes(rest, id(j), depth));
                        assert(text[i] == rest[j]);
                        assert forall|k: int| j + 1 <= k < j + 1 + depth implies #[trigger] rest[k] == '#' by {
                            assert(text[k + w.len() + 1] == rest[k]);
                        }
                    }
                }
            }
        }
    }
}

/// Words of an expression, written with one space between one and the next, read as the same words.
pub proof fn lemma_words_back(text: Seq<char>, q: int, words: Seq<Seq<char>>, from: int, depth: int)
    requires
        0 <= from < words.len(),
        forall|i: int| 0 <= i < words.len() ==> word_ok(#[trigger] words[i], depth),
        holds(text, q, words_text(words, from)),
        q + words_text(words, from).len() == text.len(),
    ensures
        words_from(text, q) == words.skip(from),
    decreases words.len() - from,
{
    let w = words[from];
    assert(word_ok(w, depth));
    if from == words.len() - 1 {
        lemma_holds_alike(text, q, w);
        assert forall|i: int| 0 <= i < w.len() implies Class::Solid.holds(#[trigger] text[q + i]) by {
            assert(text[q + i] == w[i]);
        }
        assert(text[q + 0] == w[0]);
        assert(span(text, q, Class::Space) == q);
        lemma_span_run(text, q, w.len() as int, Class::Solid);
        assert(words_from(text, text.len() as int) =~= Seq::<Seq<char>>::empty());
        assert(words.skip(from) =~= seq![w]);
    } else {
        let space = seq![' '];
        let rest = words_text(words, from + 1);
        lemma_holds_both(text, q, w, space + rest);
        let e = q + w.len();
        lemma_holds_both(text, e, space, rest);
        lemma_holds_alike(text, q, w);
        lemma_holds_alike(text, e, space);
        assert(text[e + 0] == space[0]);
        assert forall|i: int| 0 <= i < w.len() implies Class::Solid.holds(#[trigger] text[q + i]) by {
            assert(text[q + i] == w[i]);
        }
        assert(text[q + 0] == w[0]);
        assert(span(text, q, Class::Space) == q);
        lemma_span_run(text, q, w.len() as int, Class::Solid);
        lemma_words_back(text, e + 1, words, from + 1, depth);
        let next = words[from + 1];
        assert(word_ok(next, depth));
        lemma_words_first(text, e + 1, words, from + 1);
        assert(span(text, e + 1, Class::Space) == e + 1);
        assert(span(text, e, Class::Space) == e + 1);
        assert(words_from(text, e) == words_from(text, e + 1));
        assert(words.skip(from) =~= seq![w] + words.skip(from + 1));
    }
}

/// Words as they are written start with what is not white space.
proof fn lemma_words_first(text: Seq<char>, q: int, words: Seq<Seq<char>>, from: int)
    requires
        0 <= from < words.len(),
        words[from].len() > 0,
        Class::Solid.holds(words[from][0]),
        holds(text, q, words_text(words, from)),
    ensures
        q < text.len(),
        !Class::Space.holds(text[q]),
{
    let all = words_text(words, from);
    lemma_holds_alike(text, q, all);
    assert(all[0] == words[from][0]);
    assert(text[q + 0] == all[0]);
}

/// Where a text holds an expression as it is written, up to white space
/// or its end, the expression is read there.
pub proof fn lemma_expression_in(t: Seq<char>, p: int, x: ExpressionView, depth: int)
    requires
        0 <= depth <= 4,
        expression_ok(x, depth),
        holds(t, p, expression_text(x, depth)),
    ensures
        expression(t, p) == Ok::<(ExpressionView, int), ParseError>((x, p + expression_text(x, depth).len())),
        expression_text(x, depth).len() > 0,
        x is Words ==> (if depth == 0 {
            t[p] == '"'
        } else {
            t[p] == '#'
        }),
        x is Regex ==> t[p] == 'r',
{
    lemma_holds_alike(t, p, expression_text(x, depth));
    lemma_hashes_text(depth);
    lemma_hashes_text(4);
    assert(t[p + 0] == expression_text(x, depth)[0]);
    match x {
        ExpressionView::Words(words) => {
            let text = words_text(words, 0);
            lemma_words_text_free(words, 0, depth);
            lemma_quoted_in(t, p, text, depth);
            if words.len() > 0 {
                assert(text.subrange(0, text.len() as int) =~= text);
                lemma_words_back(text, 0, words, 0, depth);
                assert(words.skip(0) =~= words);
            } else {
                assert(words_from(text, 0) =~= words);
            }
        },
        ExpressionView::Regex(pattern) => {
            let mark = seq!['r'];
            lemma_holds_both(t, p, mark, quoted_text(pattern, 4));
            lemma_quoted_in(t, p + 1, pattern, 4);
            assert(!opens(t, p, 0));
            assert(!opens(t, p, 1));
            assert(!opens(t, p, 2));
            assert(!opens(t, p, 3));
            assert(!opens(t, p, 4));
        },
    }
}

/// An expression that is read is as it has to be to be read again.
pub proof fn lemma_expression_ok(s: Seq<char>, at: int)
    requires
        0 <= at <= s.len(),
    ensures
        match expression(s, at) {
            Ok((x, next)) => expression_ok(x, 4) && (is_at(s, at, '"') ==> expression_ok(x, 0)) && at < next
                <= s.len(),
            Err(_) => true,
        },
{
    lemma_quoted_free(s, at);
    match quoted(s, at) {
        Ok((text, next)) => {
            lemma_words_ok(text, 0, 4);
            if opens(s, at, 0) {
                lemma_words_ok(text, 0, 0);
            }
        },
        Err(e) => {
            if is_at(s, at, 'r') {
                lemma_quoted_free(s, at + 1);
            }
        },
    }
}

/// The text ends at `at`, or white space stands there.
pub open spec fn at_gap(t: Seq<char>, at: int) -> bool {
    at >= t.len() || is_space(t[at])
}

/// Where the letter of a range stands that is written at `p`.
pub open spec fn letter_at(p: int, low: Option<Seq<char>>) -> int {
    match low {
        Some(l) => p + l.len() + 1,
        None => p,
    }
}

/// How a range as it is written lies in a text that holds it.
pub proof fn lemma_range_lies(t: Seq<char>, p: int, low: Option<Seq<char>>, letter: char, high: Option<Seq<char>>)
    requires
        holds(t, p, range_text(low, letter, high)),
    ensures
        low is Some ==> holds(t, p, low->0) && t[letter_at(p, low) - 1] == '<',
        p <= letter_at(p, low) < t.len(),
        t[letter_at(p, low)] == letter,
        high is Some ==> letter_at(p, low) + 1 < t.len() && t[letter_at(p, low) + 1] == '<' && holds(
            t,
            letter_at(p, low) + 2,
            high->0,
        ),
        p + range_text(low, letter, high).len() == letter_at(p, low) + 1 + (match high {
            Some(h) => h.len() + 1,
            None => 0,
        }),
{
    let a = letter_at(p, low);
    let front = match low {
        Some(l) => l + seq!['<'],
        None => Seq::empty(),
    };
    let back = match high {
        Some(h) => seq!['<'] + h,
        None => Seq::empty(),
    };
    let mark = seq![letter];
    lemma_holds_both(t, p, front, mark + back);
    lemma_holds_both(t, a, mark, back);
    lemma_holds_alike(t, a, mark);
    assert(t[a + 0] == mark[0]);
    match low {
        Some(l) => {
            let less = seq!['<'];
            lemma_holds_both(t, p, l, less);
            lemma_holds_alike(t, p + l.len(), less);
            assert(t[p + l.len() + 0] == less[0]);
        },
        None => {},
    }
    match high {
        Some(h) => {
            let less = seq!['<'];
            lemma_holds_both(t, a + 1, less, h);
            lemma_holds_alike(t, a + 1, less);
            assert(t[a + 1 + 0] == less[0]);
        },
        None => {},
    }
}

/// A bound of the context that was read: a number that is not negative and fits in 32 bits.
pub open spec fn bound_ok(n: Option<i64>) -> bool {
    n is Some ==> 0 <= n->0 <= i32::MAX
}

/// Where a text holds a range of the context as it is written, up to
/// white space or its end, the range is read there.
pub proof fn lemma_range_i_in(t: Seq<char>, p: int, low: Option<i64>, high: Option<i64>)
    requires
        bound_ok(low),
        bound_ok(high),
        holds(t, p, range_text(number_bound_text(low), '#', number_bound_text(high))),
        at_gap(t, p + range_text(number_bound_text(low), '#', number_bound_text(high)).len()),
    ensures
        range_i(t, p, '#') == Some(
            ((low, high), p + range_text(number_bound_text(low), '#', number_bound_text(high)).len()),
        ),
        !is_at(t, p, '-'),
        !is_space(t[p]),
{
    lemma_range_lies(t, p, number_bound_text(low), '#', number_bound_text(high));
    let a = letter_at(p, number_bound_text(low));
    match low {
        Some(l) => {
            lemma_numeral(l as int);
            lemma_holds_alike(t, p, numeral(l as int));
            assert(t[p + 0] == numeral(l as int)[0]);
            lemma_number_reads(t, p, l as int);
        },
        None => {
            assert(span(t, p, Class::Digit) == p);
        },
    }
    match high {
        Some(h) => {
            lemma_number_reads(t, a + 2, h as int);
        },
        None => {},
    }
}

/// A decimal numeral that was read: digits and at most one point, which
/// alone read as all of it.
pub open spec fn lexeme(w: Seq<char>) -> bool {
    &&& w.len() > 0
    &&& forall|k: int| 0 <= k < w.len() ==> Class::Digit.holds(#[trigger] w[k]) || w[k] == '.'
    &&& non_nega_f(w, 0) == Some((w, w.len() as int))
}

/// A bound of the weight that was read.
pub open spec fn lexeme_ok(w: Option<Seq<char>>) -> bool {
    w is Some ==> lexeme(w->0)
}

/// Neither a digit nor a point stands at `at`.
pub open spec fn numeral_ends(t: Seq<char>, at: int) -> bool {
    at >= t.len() || (!Class::Digit.holds(t[at]) && t[at] != '.')
}

/// Where a text holds a decimal numeral, and neither a digit nor a point
/// behind it, the numeral is read there, and digits are read as far as in the numeral alone.
pub proof fn lemma_lexeme_in(t: Seq<char>, p: int, w: Seq<char>)
    requires
        lexeme(w),
        holds(t, p, w),
        numeral_ends(t, p + w.len()),
    ensures
        non_nega_f(t, p) == Some((w, p + w.len())),
        span(t, p, Class::Digit) == p + span(w, 0, Class::Digit),
        0 <= span(w, 0, Class::Digit) <= w.len(),
        span(w, 0, Class::Digit) < w.len() ==> t[p + span(w, 0, Class::Digit)] == '.',
{
    lemma_holds_alike(t, p, w);
    lemma_span(w, 0, Class::Digit);
    let whole = span(w, 0, Class::Digit);
    assert forall|i: int| 0 <= i < whole implies Class::Digit.holds(#[trigger] t[p + i]) by {
        assert(t[p + i] == w[i]);
    }
    if whole < w.len() {
        assert(t[p + whole] == w[whole]);
    }
    lemma_span_run(t, p, whole, Class::Digit);
    let point = if is_at(w, whole, '.') {
        whole + 1
    } else {
        whole
    };
    lemma_span(w, point, Class::Digit);
    let end = span(w, point, Class::Digit);
    assert(w.subrange(0, end).len() == w.len());
    assert forall|i: int| 0 <= i < w.len() - point implies Class::Digit.holds(#[trigger] t[p + point + i]) by {
        assert(t[p + (point + i)] == w[point + i]);
    }
    lemma_span_run(t, p + point, w.len() - point, Class::Digit);
}

/// A decimal numeral that is read is one.
pub proof fn lemma_lexeme_ok(s: Seq<char>, at: int)
    requires
        0 <= at <= s.len(),
    ensures
        match non_nega_f(s, at) {
            Some((w, next)) => lexeme(w) && at < next <= s.len(),
            None => true,
        },
{
    lemma_span(s, at, Class::Digit);
    let whole = span(s, at, Class::Digit);
    let point = if is_at(s, whole, '.') {
        whole + 1
    } else {
        whole
    };
    lemma_span(s, point, Class::Digit);
    let end = span(s, point, Class::Digit);
    if !(whole <= at && end <= point) {
        let w = s.subrange(at, end);
        assert forall|k: int| 0 <= k < w.len() implies Class::Digit.holds(#[trigger] w[k]) || w[k] == '.' by {
            assert(w[k] == s[at + k]);
        }
        assert forall|i: int| 0 <= i < whole - at implies Class::Digit.holds(#[trigger] w[0 + i]) by {
            assert(w[i] == s[at + i]);
        }
        if whole < end {
            assert(w[whole - at] == s[whole]);
        }
        lemma_span_run(w, 0, whole - at, Class::Digit);
        assert forall|i: int| 0 <= i < end - point implies Class::Digit.holds(#[trigger] w[point - at + i]) by {
            assert(w[point - at + i] == s[point + i]);
        }
        lemma_span_run(w, point - at, end - point, Class::Digit);
        assert(w.subrange(0, w.len() as int) =~= w);
    }
}

/// Where a text holds a range of the weight as it is written, up to
/// white space or its end, the range is read there, and no range of the context.
pub proof fn lemma_range_f_in(t: Seq<char>, p: int, low: Option<Seq<char>>, high: Option<Seq<char>>)
    requires
        lexeme_ok(low),
        lexeme_ok(high),
        holds(t, p, range_text(low, 'w', high)),
        at_gap(t, p + range_text(low, 'w', high).len()),
    ensures
        range_f(t, p, 'w') == Some(((low, high), p + range_text(low, 'w', high).len())),
        range_i(t, p, '#') is None,
        !is_at(t, p, '-'),
        !is_space(t[p]),
{
    lemma_range_lies(t, p, low, 'w', high);
    let a = letter_at(p, low);
    match low {
        Some(l) => {
            lemma_holds_alike(t, p, l);
            assert(t[p + 0] == l[0]);
            lemma_lexeme_in(t, p, l);
            let whole = span(l, 0, Class::Digit);
            if whole < l.len() {
                assert(t[p + whole] == '.');
            }
        },
        None => {
            assert(span(t, p, Class::Digit) == p);
        },
    }
    match high {
        Some(h) => {
            lemma_lexeme_in(t, a + 2, h);
        },
        None => {},
    }
}

/// A bound of a range of dates and times that was read.
pub open spec fn moment_ok(dt: Option<EasyDateTime>) -> bool {
    dt is Some ==> sound_datetime(dt->0)
}

/// One of the letters over which a range of dates and times is written.
pub open spec fn moment_letter(c: char) -> bool {
    c == 's' || c == 'd' || c == 'c' || c == 'u'
}

/// Where a date or time is read, a number or nothing and then a slash or
/// a colon stand: no range of the context or of the weight starts there.
pub proof fn lemma_moment_first(t: Seq<char>, p: int)
    requires
        0 <= p <= t.len(),
        datetime(t, p) is Some,
    ensures
        span(t, p, Class::Digit) < t.len(),
        t[span(t, p, Class::Digit)] == '/' || t[span(t, p, Class::Digit)] == ':',
        non_nega_i(t, p) is Ok || span(t, p, Class::Digit) == p,
{
    lemma_span(t, p, Class::Digit);
}

/// Where a text holds a range of dates and times as it is written, up to
/// white space or its end, the range is read there, and none of another kind.
pub proof fn lemma_range_t_in(
    t: Seq<char>,
    p: int,
    low: Option<EasyDateTime>,
    letter: char,
    high: Option<EasyDateTime>,
)
    requires
        moment_ok(low),
        moment_ok(high),
        moment_letter(letter),
        holds(t, p, range_text(moment_bound_text(low), letter, moment_bound_text(high))),
        at_gap(t, p + range_text(moment_bound_text(low), letter, moment_bound_text(high)).len()),
    ensures
        range_t(t, p, letter) == Some(
            ((low, high), p + range_text(moment_bound_text(low), letter, moment_bound_text(high)).len()),
        ),
        forall|other: char| other != letter ==> #[trigger] range_t(t, p, other) is None,
        range_i(t, p, '#') is None,
        range_f(t, p, 'w') is None,
        !is_at(t, p, '-'),
        !is_space(t[p]),
{
    lemma_range_lies(t, p, moment_bound_text(low), letter, moment_bound_text(high));
    let a = letter_at(p, moment_bound_text(low));
    match low {
        Some(l) => {
            lemma_datetime_text(l);
            lemma_holds_alike(t, p, datetime_text(l));
            assert(t[p + 0] == datetime_text(l)[0]);
            assert(moment_char(datetime_text(l)[0]));
            lemma_datetime_in(t, p, l);
            lemma_moment_first(t, p);
            let whole = span(t, p, Class::Digit);
            assert(span(t, whole, Class::Digit) == whole);
        },
        None => {
            assert(span(t, p, Class::Digit) == p);
        },
    }
    match high {
        Some(h) => {
            lemma_datetime_in(t, a + 2, h);
        },
        None => {},
    }
}

/// The value of the flag at `k`, in the order in which the flags are written.
pub open spec fn flag_of(b: Boolean, k: int) -> Option<bool> {
    if k == 0 {
        b.is_archived
    } else if k == 1 {
        b.is_starred
    } else if k == 2 {
        b.is_leaf
    } else {
        b.is_root
    }
}

/// The letter of the flag at `k`.
pub open spec fn flag_letter(k: int) -> char {
    if k == 0 {
        'a'
    } else if k == 1 {
        's'
    } else if k == 2 {
        'l'
    } else {
        'r'
    }
}

/// The flags from the one at `k` on, the others left open.
pub open spec fn flags_from(b: Boolean, k: int) -> Boolean {
    Boolean {
        is_archived: if k <= 0 {
            b.is_archived
        } else {
            None
        },
        is_starred: if k <= 1 {
            b.is_starred
        } else {
            None
        },
        is_leaf: if k <= 2 {
            b.is_leaf
        } else {
            None
        },
        is_root: if k <= 3 {
            b.is_root
        } else {
            None
        },
    }
}

/// The flags from the one at `k` on are written as that flag and then the others.
proof fn lemma_flags_text(b: Boolean, k: int)
    requires
        0 <= k <= 4,
    ensures
        k < 4 ==> flags_text(flags_from(b, k)) == flag_text(flag_of(b, k), flag_letter(k)) + flags_text(
            flags_from(b, k + 1),
        ),
        k == 4 ==> flags_text(flags_from(b, k)).len() == 0,
        flags_from(b, k) == no_boolean() ==> flags_text(flags_from(b, k)).len() == 0,
{
    if k < 4 {
        assert(flags_text(flags_from(b, k)) =~= flag_text(flag_of(b, k), flag_letter(k)) + flags_text(
            flags_from(b, k + 1),
        ));
    }
}

/// Where a text holds flags as they are written, up to white space or
/// its end, the flags are read there.
pub proof fn lemma_flags_in(t: Seq<char>, q: int, b: Boolean, k: int)
    requires
        0 <= k <= 4,
        holds(t, q, flags_text(flags_from(b, k))),
        at_gap(t, q + flags_text(flags_from(b, k)).len()),
    ensures
        booleans(t, q) == (if flags_from(b, k) == no_boolean() {
            None
        } else {
            Some((flags_from(b, k), q + flags_text(flags_from(b, k)).len()))
        }),
    decreases 4 - k,
{
    lemma_flags_text(b, k);
    if k < 4 {
        let here = flag_text(flag_of(b, k), flag_letter(k));
        let rest = flags_text(flags_from(b, k + 1));
        lemma_flags_text(b, k + 1);
        lemma_holds_both(t, q, here, rest);
        lemma_holds_alike(t, q, here);
        lemma_flags_in(t, q + here.len(), b, k + 1);
        match flag_of(b, k) {
            Some(true) => {
                assert(t[q + 0] == here[0]);
                assert(with_flag(flags_from(b, k + 1), flag_letter(k), true) == flags_from(b, k));
            },
            Some(false) => {
                assert(t[q + 0] == here[0]);
                assert(t[q + 1] == here[1]);
                assert(with_flag(flags_from(b, k + 1), flag_letter(k), false) == flags_from(b, k));
            },
            None => {
                assert(flags_from(b, k + 1) == flags_from(b, k));
            },
        }
    }
}

} // verus!
