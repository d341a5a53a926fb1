//! What is written down again reads as what was read: the proofs.

use vstd::prelude::*;
use crate::errors::ParseError;
use crate::lexer::{
    digit_value, digits_value, is_at, non_nega_f, non_nega_i, opt_number, date, time, datetime, word, link,
    starts_with, http, https,
};
use crate::batch::{
    TokenView, assign_token, attribute, attribute_more, deadline_token, empty_lines, head_token, id_token, indent,
    indent_count, indent_end, joined, line_link, or, req_task, req_tasks, startable_token, stops, tail_token,
    title_token, token, unit, weight_token, with_token,
};
use crate::parser::req;
use crate::render::{
    assign_piece, attribute_text, date_text, datetime_text, deadline_piece, head_piece, id_piece, indent_text, lead,
    lines_text, opt_text, star_piece, startable_piece, tail_piece, task_text, time_text, weight_piece,
};
use crate::request::{AttributeView, ReqTaskView, ReqView, no_attribute};
use crate::text::{Class, digit, numeral, span, lemma_span};
use crate::time::{EasyDate, EasyDateTime, EasyTime};

verus! {

/// The two texts hold the same `n` characters, one from `at`, the other from `bt`.
pub open spec fn alike(s: Seq<char>, at: int, t: Seq<char>, bt: int, n: int) -> bool {
    &&& 0 <= at && 0 <= bt && 0 <= n
    &&& at + n <= s.len()
    &&& bt + n <= t.len()
    &&& forall|i: int| 0 <= i < n ==> s[at + i] == #[trigger] t[bt + i]
}

/// No word goes on at `at`: the text ends there, or what stands there is not graphic.
pub open spec fn word_ends(s: Seq<char>, at: int) -> bool {
    at >= s.len() || !Class::Graphic.holds(s[at])
}

/// The two texts hold the same word, one from `at`, the other from
/// `bt`: the same `n` characters, and nothing graphic behind them.
pub open spec fn same_word(s: Seq<char>, at: int, t: Seq<char>, bt: int, n: int) -> bool {
    alike(s, at, t, bt, n) && word_ends(s, at + n) && word_ends(t, bt + n)
}

/// The class holds graphic characters only.
pub open spec fn fine(class: Class) -> bool {
    class == Class::Digit || class == Class::Graphic || class == Class::AsciiGraphic || class == Class::Plain
}

/// A run within the same word ends at the same place in both texts.
pub proof fn lemma_span_word(s: Seq<char>, at: int, t: Seq<char>, bt: int, n: int, i: int, class: Class)
    requires
        same_word(s, at, t, bt, n),
        0 <= i <= n,
        fine(class),
    ensures
        span(t, bt + i, class) - bt == span(s, at + i, class) - at,
        span(s, at + i, class) <= at + n,
    decreases n - i,
{
    if i < n {
        assert(s[at + i] == t[bt + i]);
        if class.holds(s[at + i]) {
            lemma_span_word(s, at, t, bt, n, i + 1, class);
        }
    }
}

/// The same digits write the same number.
pub proof fn lemma_digits_alike(s: Seq<char>, at: int, t: Seq<char>, bt: int, n: int, from: int, to: int)
    requires
        alike(s, at, t, bt, n),
        0 <= from <= to <= n,
    ensures
        digits_value(t, bt + from, bt + to) == digits_value(s, at + from, at + to),
    decreases to - from,
{
    if from < to {
        lemma_digits_alike(s, at, t, bt, n, from, to - 1);
        assert(s[at + (to - 1)] == t[bt + (to - 1)]);
    }
}

/// What two texts have alike they have alike from any place within it.
pub proof fn lemma_alike_part(s: Seq<char>, at: int, t: Seq<char>, bt: int, n: int, i: int, m: int)
    requires
        alike(s, at, t, bt, n),
        0 <= i,
        0 <= m,
        i + m <= n,
    ensures
        alike(s, at + i, t, bt + i, m),
        s.subrange(at + i, at + i + m) == t.subrange(bt + i, bt + i + m),
{
    assert forall|k: int| 0 <= k < m implies s[at + i + k] == #[trigger] t[bt + i + k] by {
        assert(s[at + (i + k)] == t[bt + (i + k)]);
    }
    let a = s.subrange(at + i, at + i + m);
    let b = t.subrange(bt + i, bt + i + m);
    assert(a =~= b) by {
        assert forall|k: int| 0 <= k < m implies a[k] == b[k] by {
            assert(s[at + (i + k)] == t[bt + (i + k)]);
        }
    }
}

/// Where a result ends.
pub open spec fn next_of<T>(found: Option<(T, int)>) -> int {
    match found {
        Some((_, next)) => next,
        None => 0,
    }
}

/// A result, moved by `by` characters.
pub open spec fn moved<T>(found: Option<(T, int)>, by: int) -> Option<(T, int)> {
    match found {
        Some((value, next)) => Some((value, next + by)),
        None => None,
    }
}

/// Within the same word a number reads the same in both texts.
pub proof fn lemma_number_word(s: Seq<char>, at: int, t: Seq<char>, bt: int, n: int, i: int)
    requires
        same_word(s, at, t, bt, n),
        0 <= i <= n,
    ensures
        match (non_nega_i(s, at + i), non_nega_i(t, bt + i)) {
            (Ok((a, x)), Ok((b, y))) => a == b && x - at == y - bt && 0 <= a && at + i < x <= at + n,
            (Err(a), Err(b)) => a.kind == b.kind,
            _ => false,
        },
{
    lemma_span_word(s, at, t, bt, n, i, Class::Digit);
    let e = span(s, at + i, Class::Digit);
    lemma_span(s, at + i, Class::Digit);
    if e > at + i {
        lemma_digits_alike(s, at, t, bt, n, i, e - at);
        lemma_digits_nonnegative(s, at + i, e);
    }
}

/// Digits write a number that is not negative.
pub proof fn lemma_digits_nonnegative(s: Seq<char>, from: int, to: int)
    requires
        0 <= from <= to <= s.len(),
        forall|k: int| from <= k < to ==> Class::Digit.holds(#[trigger] s[k]),
    ensures
        digits_value(s, from, to) >= 0,
    decreases to - from,
{
    if from < to {
        lemma_digits_nonnegative(s, from, to - 1);
        assert(Class::Digit.holds(s[to - 1]));
    }
}

/// The digits of a number are digits, and write the number.
pub proof fn lemma_numeral(n: int)
    requires
        n >= 0,
    ensures
        numeral(n).len() > 0,
        forall|k: int| 0 <= k < numeral(n).len() ==> Class::Digit.holds(#[trigger] numeral(n)[k]),
        digits_value(numeral(n), 0, numeral(n).len() as int) == n,
    decreases n,
{
    let text = numeral(n);
    if n < 10 {
        assert(text =~= seq![digit(n)]);
        assert(digits_value(text, 0, 0) == 0);
        assert(digit_value(digit(n)) == n);
    } else {
        lemma_numeral(n / 10);
        let front = numeral(n / 10);
        assert(text =~= front.push(digit(n % 10)));
        assert(digit_value(digit(n % 10)) == n % 10);
        assert forall|k: int| 0 <= k < text.len() implies Class::Digit.holds(#[trigger] text[k]) by {
            if k < front.len() {
                assert(text[k] == front[k]);
            }
        }
        lemma_digits_prefix(front, text, front.len() as int);
    }
}

/// Digits write the same number in a text and in one that goes on behind them.
pub proof fn lemma_digits_prefix(a: Seq<char>, b: Seq<char>, to: int)
    requires
        0 <= to <= a.len() <= b.len(),
        forall|k: int| 0 <= k < a.len() ==> a[k] == b[k],
    ensures
        digits_value(b, 0, to) == digits_value(a, 0, to),
    decreases to,
{
    if to > 0 {
        lemma_digits_prefix(a, b, to - 1);
    }
}

/// Where a text holds the digits of a number, and no digit behind
/// them, the number is read there.
pub proof fn lemma_number_reads(t: Seq<char>, bt: int, n: int)
    requires
        0 <= n <= i32::MAX,
        0 <= bt,
        bt + numeral(n).len() <= t.len(),
        t.subrange(bt, bt + numeral(n).len()) == numeral(n),
        bt + numeral(n).len() < t.len() ==> !Class::Digit.holds(t[bt + numeral(n).len()]),
    ensures
        non_nega_i(t, bt) == Ok::<(i32, int), ParseError>((n as i32, bt + numeral(n).len())),
{
    let text = numeral(n);
    let len = text.len() as int;
    lemma_numeral(n);
    assert forall|i: int| 0 <= i < len implies text[i] == #[trigger] t[bt + i] by {
        assert(t.subrange(bt, bt + len)[i] == t[bt + i]);
    }
    lemma_span_run(t, bt, len, Class::Digit);
    assert(alike(text, 0, t, bt, len));
    lemma_digits_alike(text, 0, t, bt, len, 0, len);
}

/// A run of characters of a class, with none behind it, ends where it ends.
pub proof fn lemma_span_run(t: Seq<char>, bt: int, len: int, class: Class)
    requires
        0 <= bt,
        0 <= len,
        bt + len <= t.len(),
        forall|i: int| 0 <= i < len ==> class.holds(#[trigger] t[bt + i]),
        bt + len < t.len() ==> !class.holds(t[bt + len]),
    ensures
        span(t, bt, class) == bt + len,
    decreases len,
{
    if len > 0 {
        assert(class.holds(t[bt + 0]));
        assert forall|i: int| 0 <= i < len - 1 implies class.holds(#[trigger] t[bt + 1 + i]) by {
            assert(class.holds(t[bt + (i + 1)]));
        }
        lemma_span_run(t, bt + 1, len - 1, class);
    }
}

/// Within the same word a graphic character stands at the same place in both texts.
pub proof fn lemma_is_at_word(s: Seq<char>, at: int, t: Seq<char>, bt: int, n: int, i: int, c: char)
    requires
        same_word(s, at, t, bt, n),
        0 <= i <= n,
        Class::Graphic.holds(c),
    ensures
        is_at(t, bt + i, c) == is_at(s, at + i, c),
{
    if i < n {
        assert(s[at + i] == t[bt + i]);
    }
}

/// Within the same word a number, or none, reads the same in both texts.
pub proof fn lemma_opt_number_word(s: Seq<char>, at: int, t: Seq<char>, bt: int, n: int, i: int)
    requires
        same_word(s, at, t, bt, n),
        0 <= i <= n,
    ensures
        opt_number(t, bt + i) == moved(opt_number(s, at + i), bt - at),
        opt_number(s, at + i) is Some ==> at + i <= next_of(opt_number(s, at + i)) <= at + n,
{
    lemma_number_word(s, at, t, bt, n, i);
}

/// Within the same word a date reads the same in both texts.
pub proof fn lemma_date_word(s: Seq<char>, at: int, t: Seq<char>, bt: int, n: int, i: int)
    requires
        same_word(s, at, t, bt, n),
        0 <= i <= n,
    ensures
        date(t, bt + i) == moved(date(s, at + i), bt - at),
        date(s, at + i) is Some ==> at + i < next_of(date(s, at + i)) <= at + n,
{
    lemma_opt_number_word(s, at, t, bt, n, i);
    match opt_number(s, at + i) {
        Some((y, a)) => {
            lemma_is_at_word(s, at, t, bt, n, a - at, '/');
            if is_at(s, a, '/') {
                lemma_opt_number_word(s, at, t, bt, n, a + 1 - at);
                match opt_number(s, a + 1) {
                    Some((m, b)) => {
                        lemma_is_at_word(s, at, t, bt, n, b - at, '/');
                        if is_at(s, b, '/') {
                            lemma_opt_number_word(s, at, t, bt, n, b + 1 - at);
                        }
                    },
                    None => {},
                }
            }
        },
        None => {},
    }
}

/// Within the same word a time of day reads the same in both texts.
pub proof fn lemma_time_word(s: Seq<char>, at: int, t: Seq<char>, bt: int, n: int, i: int)
    requires
        same_word(s, at, t, bt, n),
        0 <= i <= n,
    ensures
        time(t, bt + i) == moved(time(s, at + i), bt - at),
        time(s, at + i) is Some ==> at + i < next_of(time(s, at + i)) <= at + n,
{
    lemma_opt_number_word(s, at, t, bt, n, i);
    match opt_number(s, at + i) {
        Some((h, a)) => {
            lemma_is_at_word(s, at, t, bt, n, a - at, ':');
            if is_at(s, a, ':') {
                lemma_opt_number_word(s, at, t, bt, n, a + 1 - at);
            }
        },
        None => {},
    }
}

/// Within the same word a date and time read the same in both texts.
pub proof fn lemma_datetime_word(s: Seq<char>, at: int, t: Seq<char>, bt: int, n: int, i: int)
    requires
        same_word(s, at, t, bt, n),
        0 <= i <= n,
    ensures
        datetime(t, bt + i) == moved(datetime(s, at + i), bt - at),
        datetime(s, at + i) is Some ==> at + i < next_of(datetime(s, at + i)) <= at + n,
{
    lemma_date_word(s, at, t, bt, n, i);
    lemma_time_word(s, at, t, bt, n, i);
    match date(s, at + i) {
        Some((d, a)) => {
            lemma_is_at_word(s, at, t, bt, n, a - at, 'T');
            if is_at(s, a, 'T') {
                lemma_time_word(s, at, t, bt, n, a + 1 - at);
            }
        },
        None => {},
    }
}

/// Within the same word a decimal numeral reads the same in both texts.
pub proof fn lemma_decimal_word(s: Seq<char>, at: int, t: Seq<char>, bt: int, n: int, i: int)
    requires
        same_word(s, at, t, bt, n),
        0 <= i <= n,
    ensures
        non_nega_f(t, bt + i) == moved(non_nega_f(s, at + i), bt - at),
        non_nega_f(s, at + i) is Some ==> at + i < next_of(non_nega_f(s, at + i)) <= at + n,
{
    lemma_span_word(s, at, t, bt, n, i, Class::Digit);
    lemma_span(s, at + i, Class::Digit);
    let whole = span(s, at + i, Class::Digit);
    lemma_is_at_word(s, at, t, bt, n, whole - at, '.');
    let point = if is_at(s, whole, '.') {
        whole + 1
    } else {
        whole
    };
    lemma_span_word(s, at, t, bt, n, point - at, Class::Digit);
    lemma_span(s, point, Class::Digit);
    let end = span(s, point, Class::Digit);
    lemma_alike_part(s, at, t, bt, n, i, end - (at + i));
}

/// Within the same word a run of characters reads the same in both texts.
pub proof fn lemma_word_word(s: Seq<char>, at: int, t: Seq<char>, bt: int, n: int, i: int, class: Class)
    requires
        same_word(s, at, t, bt, n),
        0 <= i <= n,
        fine(class),
    ensures
        word(t, bt + i, class) == moved(word(s, at + i, class), bt - at),
        word(s, at + i, class) is Some ==> at + i < next_of(word(s, at + i, class)) <= at + n,
{
    lemma_span_word(s, at, t, bt, n, i, class);
    lemma_span(s, at + i, class);
    let end = span(s, at + i, class);
    lemma_alike_part(s, at, t, bt, n, i, end - (at + i));
}

/// Every character of `word` is graphic.
pub open spec fn graphic(word: Seq<char>) -> bool {
    forall|k: int| 0 <= k < word.len() ==> Class::Graphic.holds(#[trigger] word[k])
}

/// Within the same word a word of graphic characters stands at the
/// same place in both texts, or in neither.
pub proof fn lemma_starts_word(s: Seq<char>, at: int, t: Seq<char>, bt: int, n: int, i: int, w: Seq<char>)
    requires
        same_word(s, at, t, bt, n),
        0 <= i <= n,
        graphic(w),
    ensures
        starts_with(t, bt + i, w) == starts_with(s, at + i, w),
{
    if i + w.len() <= n {
        lemma_alike_part(s, at, t, bt, n, i, w.len() as int);
    } else {
        let k = n - i;
        assert(Class::Graphic.holds(w[k]));
        if starts_with(s, at + i, w) {
            assert(s.subrange(at + i, at + i + w.len())[k] == w[k]);
        }
        if starts_with(t, bt + i, w) {
            assert(t.subrange(bt + i, bt + i + w.len())[k] == w[k]);
        }
    }
}

/// Within the same word a link reads the same in both texts.
pub proof fn lemma_link_word(s: Seq<char>, at: int, t: Seq<char>, bt: int, n: int, i: int)
    requires
        same_word(s, at, t, bt, n),
        0 <= i <= n,
    ensures
        link(t, bt + i) == moved(link(s, at + i), bt - at),
        link(s, at + i) is Some ==> at + i < next_of(link(s, at + i)) <= at + n,
{
    assert(graphic(http()));
    assert(graphic(https()));
    lemma_starts_word(s, at, t, bt, n, i, http());
    lemma_starts_word(s, at, t, bt, n, i, https());
    if starts_with(s, at + i, http()) {
        assert(i + 7 <= n) by {
            if i + 7 > n {
                assert(s.subrange(at + i, at + i + 7)[n - i] == http()[n - i]);
            }
        }
        lemma_span_word(s, at, t, bt, n, i + 7, Class::AsciiGraphic);
        lemma_span(s, at + i + 7, Class::AsciiGraphic);
        let end = span(s, at + i + 7, Class::AsciiGraphic);
        lemma_alike_part(s, at, t, bt, n, i, end - (at + i));
    } else if starts_with(s, at + i, https()) {
        assert(i + 8 <= n) by {
            if i + 8 > n {
                assert(s.subrange(at + i, at + i + 8)[n - i] == https()[n - i]);
            }
        }
        lemma_span_word(s, at, t, bt, n, i + 8, Class::AsciiGraphic);
        lemma_span(s, at + i + 8, Class::AsciiGraphic);
        let end = span(s, at + i + 8, Class::AsciiGraphic);
        lemma_alike_part(s, at, t, bt, n, i, end - (at + i));
    }
}

/// Within the same word an id reads the same in both texts.
proof fn lemma_id_word(s: Seq<char>, at: int, t: Seq<char>, bt: int, n: int)
    requires
        same_word(s, at, t, bt, n),
    ensures
        id_token(t, bt) == moved(id_token(s, at), bt - at),
        id_token(s, at) is Some ==> at < next_of(id_token(s, at)) <= at + n,
{
    lemma_is_at_word(s, at, t, bt, n, 0, '#');
    if n >= 1 {
        lemma_number_word(s, at, t, bt, n, 1);
    }
}

/// Within the same word a weight reads the same in both texts.
proof fn lemma_weight_word(s: Seq<char>, at: int, t: Seq<char>, bt: int, n: int)
    requires
        same_word(s, at, t, bt, n),
    ensures
        weight_token(t, bt) == moved(weight_token(s, at), bt - at),
        weight_token(s, at) is Some ==> at < next_of(weight_token(s, at)) <= at + n,
{
    lemma_is_at_word(s, at, t, bt, n, 0, '$');
    if n >= 1 {
        lemma_decimal_word(s, at, t, bt, n, 1);
    }
}

/// Within the same word the head of a joint reads the same in both texts.
proof fn lemma_head_word(s: Seq<char>, at: int, t: Seq<char>, bt: int, n: int)
    requires
        same_word(s, at, t, bt, n),
    ensures
        head_token(t, bt) == moved(head_token(s, at), bt - at),
        head_token(s, at) is Some ==> at < next_of(head_token(s, at)) <= at + n,
{
    lemma_word_word(s, at, t, bt, n, 0, Class::Plain);
    match word(s, at, Class::Plain) {
        Some((g, next)) => {
            lemma_is_at_word(s, at, t, bt, n, next - at, ']');
        },
        None => {},
    }
}

/// Within the same word the tail of a joint reads the same in both texts.
proof fn lemma_tail_word(s: Seq<char>, at: int, t: Seq<char>, bt: int, n: int)
    requires
        same_word(s, at, t, bt, n),
    ensures
        tail_token(t, bt) == moved(tail_token(s, at), bt - at),
        tail_token(s, at) is Some ==> at < next_of(tail_token(s, at)) <= at + n,
{
    lemma_is_at_word(s, at, t, bt, n, 0, '[');
    if n >= 1 {
        lemma_word_word(s, at, t, bt, n, 1, Class::Plain);
    }
}

/// Within the same word an assignee reads the same in both texts.
proof fn lemma_assign_word(s: Seq<char>, at: int, t: Seq<char>, bt: int, n: int)
    requires
        same_word(s, at, t, bt, n),
    ensures
        assign_token(t, bt) == moved(assign_token(s, at), bt - at),
        assign_token(s, at) is Some ==> at < next_of(assign_token(s, at)) <= at + n,
{
    lemma_is_at_word(s, at, t, bt, n, 0, '@');
    if n >= 1 {
        lemma_word_word(s, at, t, bt, n, 1, Class::AsciiGraphic);
    }
}

/// Within the same word a start reads the same in both texts.
proof fn lemma_startable_word(s: Seq<char>, at: int, t: Seq<char>, bt: int, n: int)
    requires
        same_word(s, at, t, bt, n),
    ensures
        startable_token(t, bt) == moved(startable_token(s, at), bt - at),
        startable_token(s, at) is Some ==> at < next_of(startable_token(s, at)) <= at + n,
{
    lemma_datetime_word(s, at, t, bt, n, 0);
    match datetime(s, at) {
        Some((d, next)) => {
            lemma_is_at_word(s, at, t, bt, n, next - at, '-');
        },
        None => {},
    }
}

/// Within the same word a deadline reads the same in both texts.
proof fn lemma_deadline_word(s: Seq<char>, at: int, t: Seq<char>, bt: int, n: int)
    requires
        same_word(s, at, t, bt, n),
    ensures
        deadline_token(t, bt) == moved(deadline_token(s, at), bt - at),
        deadline_token(s, at) is Some ==> at < next_of(deadline_token(s, at)) <= at + n,
{
    lemma_is_at_word(s, at, t, bt, n, 0, '-');
    if n >= 1 {
        lemma_datetime_word(s, at, t, bt, n, 1);
    }
}

/// Within the same word a part of the title reads the same in both texts.
proof fn lemma_title_word(s: Seq<char>, at: int, t: Seq<char>, bt: int, n: int)
    requires
        same_word(s, at, t, bt, n),
    ensures
        title_token(t, bt) == moved(title_token(s, at), bt - at),
        title_token(s, at) is Some ==> at < next_of(title_token(s, at)) <= at + n,
{
    lemma_word_word(s, at, t, bt, n, 0, Class::Graphic);
}

/// The same word is read as the same token in both texts.
#[verifier::rlimit(60)]
pub proof fn lemma_token_word(s: Seq<char>, at: int, t: Seq<char>, bt: int, n: int)
    requires
        same_word(s, at, t, bt, n),
    ensures
        token(t, bt) == moved(token(s, at), bt - at),
        token(s, at) is Some ==> at < next_of(token(s, at)) <= at + n,
{
    lemma_is_at_word(s, at, t, bt, n, 0, '*');
    lemma_id_word(s, at, t, bt, n);
    lemma_weight_word(s, at, t, bt, n);
    lemma_head_word(s, at, t, bt, n);
    lemma_tail_word(s, at, t, bt, n);
    lemma_assign_word(s, at, t, bt, n);
    lemma_startable_word(s, at, t, bt, n);
    lemma_deadline_word(s, at, t, bt, n);
    lemma_title_word(s, at, t, bt, n);
}

/// The text holds `piece` at `bt`.
pub open spec fn holds(t: Seq<char>, bt: int, piece: Seq<char>) -> bool {
    0 <= bt && bt + piece.len() <= t.len() && t.subrange(bt, bt + piece.len()) == piece
}

/// What a text holds it has alike with it.
pub proof fn lemma_holds_alike(t: Seq<char>, bt: int, piece: Seq<char>)
    requires
        holds(t, bt, piece),
    ensures
        alike(piece, 0, t, bt, piece.len() as int),
        forall|i: int| 0 <= i < piece.len() ==> t[bt + i] == #[trigger] piece[i],
{
    assert forall|i: int| 0 <= i < piece.len() implies t[bt + i] == #[trigger] piece[i] by {
        assert(t.subrange(bt, bt + piece.len())[i] == t[bt + i]);
    }
    assert forall|i: int| 0 <= i < piece.len() implies piece[0 + i] == #[trigger] t[bt + i] by {
        assert(t.subrange(bt, bt + piece.len())[i] == t[bt + i]);
    }
}

/// A text that holds two pieces one behind the other holds each.
pub proof fn lemma_holds_both(t: Seq<char>, bt: int, a: Seq<char>, b: Seq<char>)
    requires
        holds(t, bt, a + b),
    ensures
        holds(t, bt, a),
        holds(t, bt + a.len(), b),
{
    lemma_holds_alike(t, bt, a + b);
    assert(t.subrange(bt, bt + a.len()) =~= a) by {
        assert forall|i: int| 0 <= i < a.len() implies t.subrange(bt, bt + a.len())[i] == a[i] by {
            assert((a + b)[i] == a[i]);
        }
    }
    assert(t.subrange(bt + a.len(), bt + a.len() + b.len()) =~= b) by {
        assert forall|i: int| 0 <= i < b.len() implies t.subrange(bt + a.len(), bt + a.len() + b.len())[i]
            == b[i] by {
            assert((a + b)[a.len() + i] == b[i]);
            assert(t[bt + (a.len() + i)] == (a + b)[a.len() + i]);
        }
    }
}

/// A run that ends before a text is cut ends at the same place in what is left.
pub proof fn lemma_span_cut(s: Seq<char>, p: int, cut: int, class: Class)
    requires
        0 <= p <= cut <= s.len(),
        span(s, p, class) <= cut,
    ensures
        span(s.take(cut), p, class) == span(s, p, class),
    decreases cut - p,
{
    lemma_span(s, p, class);
    if p < cut {
        assert(s.take(cut)[p] == s[p]);
        if class.holds(s[p]) {
            lemma_span_cut(s, p + 1, cut, class);
        }
    }
}

/// Digits before a cut write the same number in what is left.
pub proof fn lemma_digits_cut(s: Seq<char>, cut: int, from: int, to: int)
    requires
        0 <= from <= to <= cut <= s.len(),
    ensures
        digits_value(s.take(cut), from, to) == digits_value(s, from, to),
    decreases to - from,
{
    if from < to {
        lemma_digits_cut(s, cut, from, to - 1);
    }
}

/// `w` alone reads as the token `tok`, all of it.
#[verifier::opaque]
pub open spec fn tokens_as(w: Seq<char>, tok: TokenView) -> bool {
    link(w, 0) is None && token(w, 0) == Some((tok, w.len() as int))
}

/// `w` is a word that alone reads as the token `tok`, all of it, and is no link.
pub open spec fn reads(w: Seq<char>, tok: TokenView) -> bool {
    &&& w.len() > 0
    &&& graphic(w)
    &&& tokens_as(w, tok)
}

/// A number that was read.
pub open spec fn sound_number(n: Option<i32>) -> bool {
    n is Some ==> n->0 >= 0
}

/// A date or time that was read: a date, a time or both, and no part negative.
pub open spec fn sound_datetime(dt: EasyDateTime) -> bool {
    &&& dt.date is Some || dt.time is Some
    &&& dt.date is Some ==> sound_number(dt.date->0.y) && sound_number(dt.date->0.m) && sound_number(
        dt.date->0.d,
    )
    &&& dt.time is Some ==> sound_number(dt.time->0.h) && sound_number(dt.time->0.m)
}

/// A title that was read: words of graphic characters, each read as a
/// part of the title, with one space between one and the next.
pub open spec fn titled(title: Seq<char>) -> bool
    decreases title.len(),
{
    if title.len() == 0 {
        true
    } else {
        let e = span(title, 0, Class::Graphic);
        &&& 0 < e <= title.len()
        &&& reads(title.take(e), TokenView::Title(title.take(e)))
        &&& e == title.len() || (title[e] == ' ' && e + 1 < title.len() && titled(title.skip(e + 1)))
    }
}

/// What a line said, as it was read: each part reads again as what it is.
pub open spec fn readable(a: AttributeView) -> bool {
    &&& a.id is Some ==> 0 <= a.id->0 <= i32::MAX
    &&& a.weight is Some ==> reads(seq!['$'] + a.weight->0, TokenView::Weight(a.weight->0))
    &&& a.joint_head is Some ==> reads(a.joint_head->0 + seq![']'], TokenView::Head(a.joint_head->0))
    &&& a.joint_tail is Some ==> reads(seq!['['] + a.joint_tail->0, TokenView::Tail(a.joint_tail->0))
    &&& a.assign is Some ==> reads(seq!['@'] + a.assign->0, TokenView::Assign(a.assign->0))
    &&& a.startable is Some ==> sound_datetime(a.startable->0)
    &&& a.deadline is Some ==> sound_datetime(a.deadline->0)
    &&& titled(a.title)
}

/// A number that is read is not negative.
pub proof fn lemma_number_sound(s: Seq<char>, at: int)
    requires
        0 <= at <= s.len(),
    ensures
        match non_nega_i(s, at) {
            Ok((n, next)) => 0 <= n && at < next <= s.len(),
            Err(_) => true,
        },
        match opt_number(s, at) {
            Some((n, next)) => sound_number(n) && at <= next <= s.len(),
            None => true,
        },
{
    lemma_span(s, at, Class::Digit);
    let e = span(s, at, Class::Digit);
    if e > at {
        lemma_digits_nonnegative(s, at, e);
    }
}

/// A date or time that is read has a date, a time or both, and no part is negative.
pub proof fn lemma_datetime_sound(s: Seq<char>, at: int)
    requires
        0 <= at <= s.len(),
    ensures
        match datetime(s, at) {
            Some((dt, next)) => sound_datetime(dt) && at < next <= s.len(),
            None => true,
        },
{
    lemma_date_sound(s, at);
    lemma_time_sound(s, at);
    match date(s, at) {
        Some((d, a)) => {
            if is_at(s, a, 'T') {
                lemma_time_sound(s, a + 1);
            }
        },
        None => {},
    }
}

proof fn lemma_date_sound(s: Seq<char>, at: int)
    requires
        0 <= at <= s.len(),
    ensures
        match date(s, at) {
            Some((d, next)) => sound_number(d.y) && sound_number(d.m) && sound_number(d.d) && at < next
                <= s.len(),
            None => true,
        },
{
    lemma_number_sound(s, at);
    match opt_number(s, at) {
        Some((y, a)) => {
            if is_at(s, a, '/') {
                lemma_number_sound(s, a + 1);
                match opt_number(s, a + 1) {
                    Some((m, b)) => {
                        if is_at(s, b, '/') {
                            lemma_number_sound(s, b + 1);
                        }
                    },
                    None => {},
                }
            }
        },
        None => {},
    }
}

proof fn lemma_time_sound(s: Seq<char>, at: int)
    requires
        0 <= at <= s.len(),
    ensures
        match time(s, at) {
            Some((t, next)) => sound_number(t.h) && sound_number(t.m) && at < next <= s.len(),
            None => true,
        },
{
    lemma_number_sound(s, at);
    match opt_number(s, at) {
        Some((h, a)) => {
            if is_at(s, a, ':') {
                lemma_number_sound(s, a + 1);
            }
        },
        None => {},
    }
}

/// A word that is read as a token, up to where no word goes on, reads
/// as that token alone.
#[verifier::rlimit(60)]
pub proof fn lemma_word_reads(s: Seq<char>, at: int, tok: TokenView, next: int)
    requires
        0 <= at < next <= s.len(),
        token(s, at) == Some((tok, next)),
        link(s, at) is None,
        word_ends(s, next),
    ensures
        reads(s.subrange(at, next), tok),
{
    let w = s.subrange(at, next);
    let n = next - at;
    assert(alike(s, at, w, 0, n));
    lemma_word_span(s, at, next);
    assert(same_word(s, at, w, 0, n));
    lemma_token_word(s, at, w, 0, n);
    lemma_link_word(s, at, w, 0, n, 0);
    reveal(tokens_as);
}

/// A token is read within one word: the characters that it takes are graphic.
#[verifier::rlimit(60)]
pub proof fn lemma_word_span(s: Seq<char>, at: int, next: int)
    requires
        0 <= at < next <= s.len(),
        token(s, at) is Some,
        next_of(token(s, at)) == next,
    ensures
        graphic(s.subrange(at, next)),
{
    lemma_span(s, at, Class::Plain);
    lemma_span(s, at, Class::Graphic);
    lemma_span(s, at + 1, Class::Plain);
    lemma_span(s, at + 1, Class::AsciiGraphic);
    lemma_span(s, at + 1, Class::Digit);
    lemma_datetime_graphic(s, at);
    lemma_datetime_graphic(s, at + 1);
    lemma_decimal_graphic(s, at + 1);
    let w = s.subrange(at, next);
    assert forall|k: int| 0 <= k < w.len() implies Class::Graphic.holds(#[trigger] w[k]) by {
        assert(w[k] == s[at + k]);
    }
}

/// What is read as a date or time is graphic.
pub proof fn lemma_datetime_graphic(s: Seq<char>, at: int)
    requires
        0 <= at,
    ensures
        match datetime(s, at) {
            Some((_, next)) => forall|k: int| at <= k < next ==> Class::Graphic.holds(#[trigger] s[k]),
            None => true,
        },
{
    if at <= s.len() {
        lemma_date_graphic(s, at);
        lemma_time_graphic(s, at);
        match date(s, at) {
            Some((d, a)) => {
                if is_at(s, a, 'T') {
                    lemma_time_graphic(s, a + 1);
                }
            },
            None => {},
        }
    } else {
        lemma_far(s, at);
    }
}

/// Behind the end of a text nothing is read.
proof fn lemma_far(s: Seq<char>, at: int)
    requires
        at > s.len(),
    ensures
        datetime(s, at) is None,
        date(s, at) is None,
        time(s, at) is None,
        opt_number(s, at) == Some((None::<i32>, at)),
{
}

proof fn lemma_number_graphic(s: Seq<char>, at: int)
    requires
        0 <= at,
    ensures
        match opt_number(s, at) {
            Some((_, next)) => at <= next && forall|k: int|
                at <= k < next ==> Class::Graphic.holds(#[trigger] s[k]),
            None => true,
        },
{
    if at <= s.len() {
        lemma_span(s, at, Class::Digit);
    }
}

proof fn lemma_date_graphic(s: Seq<char>, at: int)
    requires
        0 <= at,
    ensures
        match date(s, at) {
            Some((_, next)) => forall|k: int| at <= k < next ==> Class::Graphic.holds(#[trigger] s[k]),
            None => true,
        },
{
    lemma_number_graphic(s, at);
    match opt_number(s, at) {
        Some((y, a)) => {
            if is_at(s, a, '/') {
                lemma_number_graphic(s, a + 1);
                match opt_number(s, a + 1) {
                    Some((m, b)) => {
                        if is_at(s, b, '/') {
                            lemma_number_graphic(s, b + 1);
                        }
                    },
                    None => {},
                }
            }
        },
        None => {},
    }
}

proof fn lemma_time_graphic(s: Seq<char>, at: int)
    requires
        0 <= at,
    ensures
        match time(s, at) {
            Some((_, next)) => forall|k: int| at <= k < next ==> Class::Graphic.holds(#[trigger] s[k]),
            None => true,
        },
{
    lemma_number_graphic(s, at);
    match opt_number(s, at) {
        Some((h, a)) => {
            if is_at(s, a, ':') {
                lemma_number_graphic(s, a + 1);
            }
        },
        None => {},
    }
}

proof fn lemma_decimal_graphic(s: Seq<char>, at: int)
    requires
        0 <= at,
    ensures
        match non_nega_f(s, at) {
            Some((_, next)) => forall|k: int| at <= k < next ==> Class::Graphic.holds(#[trigger] s[k]),
            None => true,
        },
{
    if at <= s.len() {
        lemma_span(s, at, Class::Digit);
        let whole = span(s, at, Class::Digit);
        let point = if is_at(s, whole, '.') {
            whole + 1
        } else {
            whole
        };
        lemma_span(s, point, Class::Digit);
    }
}

/// The token that was read.
pub open spec fn kind_of(found: Option<(TokenView, int)>) -> TokenView {
    match found {
        Some((tok, _)) => tok,
        None => TokenView::Star,
    }
}

/// What a token says is as it has to be to be read again.
pub open spec fn valid(tok: TokenView) -> bool {
    match tok {
        TokenView::Star => true,
        TokenView::Id(n) => 0 <= n <= i32::MAX,
        TokenView::Weight(w) => reads(seq!['$'] + w, tok),
        TokenView::Head(g) => reads(g + seq![']'], tok),
        TokenView::Tail(g) => reads(seq!['['] + g, tok),
        TokenView::Assign(g) => reads(seq!['@'] + g, tok),
        TokenView::Startable(dt) => sound_datetime(dt),
        TokenView::Deadline(dt) => sound_datetime(dt),
        TokenView::Title(g) => reads(g, tok),
    }
}

/// What a line says can go on at `at`: it ends there, or white space stands there.
pub open spec fn goes_on(s: Seq<char>, at: int) -> bool {
    0 <= at <= s.len() && (stops(s, at) || Class::Blank.holds(s[at]))
}

/// A link that stands behind a cut stood there before.
proof fn lemma_link_cut(s: Seq<char>, at: int, cut: int)
    requires
        0 <= at <= cut <= s.len(),
        link(s, at) is None,
    ensures
        link(s.take(cut), at) is None,
{
    let c = s.take(cut);
    if starts_with(c, at, http()) {
        assert(c.subrange(at, at + 7) =~= s.subrange(at, at + 7));
    }
    if starts_with(c, at, https()) {
        assert(c.subrange(at, at + 8) =~= s.subrange(at, at + 8));
    }
}

/// A weight is read from a text that is cut behind it as from the whole.
#[verifier::rlimit(60)]
proof fn lemma_weight_cut(s: Seq<char>, at: int, w: Seq<char>, next: int)
    requires
        0 <= at < s.len(),
        token(s, at) == Some((TokenView::Weight(w), next)),
    ensures
        at < next <= s.len(),
        token(s.take(next), at) == Some((TokenView::Weight(w), next)),
        s.subrange(at, next) == seq!['$'] + w,
{
    lemma_span(s, at + 1, Class::Digit);
    let whole = span(s, at + 1, Class::Digit);
    let point = if is_at(s, whole, '.') {
        whole + 1
    } else {
        whole
    };
    lemma_span(s, point, Class::Digit);
    let c = s.take(next);
    lemma_span_cut(s, at + 1, next, Class::Digit);
    lemma_span_cut(s, point, next, Class::Digit);
    assert(c[at] == s[at]);
    if whole < next {
        assert(c[whole] == s[whole]);
    }
    assert(c.subrange(at + 1, next) =~= s.subrange(at + 1, next));
    assert(s.subrange(at, next) =~= seq!['$'] + w);
}

/// The head of a joint is read from a text that is cut behind it as from the whole.
#[verifier::rlimit(60)]
proof fn lemma_head_cut(s: Seq<char>, at: int, g: Seq<char>, next: int)
    requires
        0 <= at < s.len(),
        token(s, at) == Some((TokenView::Head(g), next)),
    ensures
        at < next <= s.len(),
        token(s.take(next), at) == Some((TokenView::Head(g), next)),
        s.subrange(at, next) == g + seq![']'],
{
    lemma_span(s, at, Class::Plain);
    let j = span(s, at, Class::Plain);
    let c = s.take(next);
    lemma_span_cut(s, at, next, Class::Plain);
    assert(c[at] == s[at]);
    assert(c[j] == s[j]);
    assert(c.subrange(at, j) =~= s.subrange(at, j));
    assert(s.subrange(at, next) =~= g + seq![']']);
    lemma_span(s, at + 1, Class::Digit);
    let e = span(s, at + 1, Class::Digit);
    if e > j {
        assert(Class::Digit.holds(s[j]));
    }
    lemma_span_cut(s, at + 1, next, Class::Digit);
    lemma_digits_cut(s, next, at + 1, e);
    assert(c[at + 1] == s[at + 1]);
    let point = if is_at(s, e, '.') {
        e + 1
    } else {
        e
    };
    lemma_span(s, point, Class::Digit);
    let end = span(s, point, Class::Digit);
    if end > j && point <= j {
        assert(Class::Digit.holds(s[j]));
    }
    if e < next {
        assert(c[e] == s[e]);
    }
    if point <= next && end <= next {
        lemma_span_cut(s, point, next, Class::Digit);
    }
    assert(id_token(c, at) is None);
    assert(weight_token(c, at) is None);
}

/// An id that is read is a number that can be written.
proof fn lemma_valid_id(s: Seq<char>, at: int)
    requires
        0 <= at < s.len(),
        token(s, at) is Some,
        kind_of(token(s, at)) is Id,
    ensures
        valid(kind_of(token(s, at))),
        at < next_of(token(s, at)) <= s.len(),
{
    lemma_number_sound(s, at + 1);
}

/// A start or deadline that is read is a date or time that can be written.
proof fn lemma_valid_moment(s: Seq<char>, at: int)
    requires
        0 <= at < s.len(),
        token(s, at) is Some,
        kind_of(token(s, at)) is Startable || kind_of(token(s, at)) is Deadline,
    ensures
        valid(kind_of(token(s, at))),
        at < next_of(token(s, at)) <= s.len(),
{
    lemma_datetime_sound(s, at);
    lemma_datetime_sound(s, at + 1);
}

/// A weight that is read reads again.
proof fn lemma_valid_weight(s: Seq<char>, at: int)
    requires
        0 <= at < s.len(),
        token(s, at) is Some,
        kind_of(token(s, at)) is Weight,
        link(s, at) is None,
    ensures
        valid(kind_of(token(s, at))),
        at < next_of(token(s, at)) <= s.len(),
{
    let (tok, next) = token(s, at)->0;
    let w = tok->Weight_0;
    lemma_weight_cut(s, at, w, next);
    lemma_link_cut(s, at, next);
    lemma_word_reads(s.take(next), at, tok, next);
    assert(s.take(next).subrange(at, next) =~= s.subrange(at, next));
}

/// The head of a joint that is read reads again.
proof fn lemma_valid_head(s: Seq<char>, at: int)
    requires
        0 <= at < s.len(),
        token(s, at) is Some,
        kind_of(token(s, at)) is Head,
        link(s, at) is None,
    ensures
        valid(kind_of(token(s, at))),
        at < next_of(token(s, at)) <= s.len(),
{
    let (tok, next) = token(s, at)->0;
    let g = tok->Head_0;
    lemma_head_cut(s, at, g, next);
    lemma_link_cut(s, at, next);
    lemma_word_reads(s.take(next), at, tok, next);
    assert(s.take(next).subrange(at, next) =~= s.subrange(at, next));
}

/// The tail of a joint that is read reads again.
proof fn lemma_valid_tail(s: Seq<char>, at: int)
    requires
        0 <= at < s.len(),
        token(s, at) is Some,
        kind_of(token(s, at)) is Tail,
        link(s, at) is None,
        goes_on(s, next_of(token(s, at))),
    ensures
        valid(kind_of(token(s, at))),
        at < next_of(token(s, at)) <= s.len(),
{
    let (tok, next) = token(s, at)->0;
    let g = tok->Tail_0;
    lemma_span(s, at + 1, Class::Plain);
    if next < s.len() && link(s, next) is Some {
        lemma_link_starts(s, next);
    }
    lemma_word_reads(s, at, tok, next);
    assert(s.subrange(at, next) =~= seq!['['] + g);
}

/// An assignee that is read reads again.
proof fn lemma_valid_assign(s: Seq<char>, at: int)
    requires
        0 <= at < s.len(),
        token(s, at) is Some,
        kind_of(token(s, at)) is Assign,
        link(s, at) is None,
        goes_on(s, next_of(token(s, at))),
    ensures
        valid(kind_of(token(s, at))),
        at < next_of(token(s, at)) <= s.len(),
{
    let (tok, next) = token(s, at)->0;
    let g = tok->Assign_0;
    lemma_span(s, at + 1, Class::AsciiGraphic);
    if next < s.len() && link(s, next) is Some {
        lemma_link_starts(s, next);
    }
    lemma_word_reads(s, at, tok, next);
    assert(s.subrange(at, next) =~= seq!['@'] + g);
}

/// A part of the title that is read reads again.
proof fn lemma_valid_title(s: Seq<char>, at: int)
    requires
        0 <= at < s.len(),
        token(s, at) is Some,
        kind_of(token(s, at)) is Title,
        link(s, at) is None,
    ensures
        valid(kind_of(token(s, at))),
        at < next_of(token(s, at)) <= s.len(),
{
    let (tok, next) = token(s, at)->0;
    lemma_span(s, at, Class::Graphic);
    lemma_word_reads(s, at, tok, next);
}

/// What a token that is read says is as it has to be to be read again.
pub proof fn lemma_token_valid(s: Seq<char>, at: int)
    requires
        0 <= at < s.len(),
        token(s, at) is Some,
        link(s, at) is None,
        goes_on(s, next_of(token(s, at))),
    ensures
        valid(kind_of(token(s, at))),
        at < next_of(token(s, at)) <= s.len(),
{
    let tok = kind_of(token(s, at));
    match tok {
        TokenView::Star => {},
        TokenView::Id(n) => {
            lemma_valid_id(s, at);
        },
        TokenView::Weight(w) => {
            lemma_valid_weight(s, at);
        },
        TokenView::Head(g) => {
            lemma_valid_head(s, at);
        },
        TokenView::Tail(g) => {
            lemma_valid_tail(s, at);
        },
        TokenView::Assign(g) => {
            lemma_valid_assign(s, at);
        },
        TokenView::Startable(dt) => {
            lemma_valid_moment(s, at);
        },
        TokenView::Deadline(dt) => {
            lemma_valid_moment(s, at);
        },
        TokenView::Title(g) => {
            lemma_valid_title(s, at);
        },
    }
}

/// A link starts with the letter `h`.
proof fn lemma_link_starts(s: Seq<char>, at: int)
    requires
        0 <= at < s.len(),
        link(s, at) is Some,
    ensures
        s[at] == 'h',
{
    if starts_with(s, at, http()) {
        assert(s.subrange(at, at + 7)[0] == http()[0]);
    } else {
        assert(s.subrange(at, at + 8)[0] == https()[0]);
    }
}

/// A part of the title before a title is a title.
#[verifier::rlimit(60)]
pub proof fn lemma_titled_join(g: Seq<char>, rest: Seq<char>)
    requires
        reads(g, TokenView::Title(g)),
        titled(rest),
    ensures
        titled(joined(g, rest)),
{
    let title = joined(g, rest);
    assert forall|i: int| 0 <= i < g.len() implies Class::Graphic.holds(#[trigger] title[0 + i]) by {
        assert(title[i] == g[i]);
    }
    if rest.len() > 0 {
        assert(title[g.len() as int] == ' ');
        assert(title.skip(g.len() as int + 1) =~= rest);
    }
    lemma_span_run(title, 0, g.len() as int, Class::Graphic);
    assert(title.take(g.len() as int) =~= g);
}

/// What a line says stays readable with one more token before it.
#[verifier::rlimit(60)]
pub proof fn lemma_with_token_readable(first: TokenView, rest: AttributeView)
    requires
        valid(first),
        readable(rest),
    ensures
        readable(with_token(first, rest)),
{
    match first {
        TokenView::Title(g) => {
            lemma_titled_join(g, rest.title);
        },
        _ => {},
    }
}

/// What is read of a line is readable again.
pub proof fn lemma_attribute_readable(s: Seq<char>, at: int)
    requires
        0 <= at <= s.len(),
    ensures
        match attribute(s, at) {
            Ok((a, end)) => readable(a) && at <= end <= s.len(),
            Err(_) => true,
        },
    decreases s.len() - at, 1int,
{
    if stops(s, at) {
    } else if Class::Blank.holds(s[at]) {
        let next = span(s, at, Class::Blank);
        if at < next <= s.len() {
            lemma_attribute_readable(s, next);
        }
    } else {
        match token(s, at) {
            Some((first, next)) => {
                if at < next <= s.len() {
                    lemma_attribute_more_readable(s, at, next);
                    match attribute_more(s, at, next) {
                        Ok((rest, end)) => {
                            lemma_token_valid(s, at);
                            lemma_with_token_readable(first, rest);
                        },
                        Err(_) => {},
                    }
                }
            },
            None => {},
        }
    }
}

/// What is read of the rest of a line is readable again.
pub proof fn lemma_attribute_more_readable(s: Seq<char>, from: int, at: int)
    requires
        0 <= from < at <= s.len(),
    ensures
        match attribute_more(s, from, at) {
            Ok((a, end)) => readable(a) && at <= end <= s.len() && goes_on(s, at),
            Err(_) => true,
        },
    decreases s.len() - from, 0int,
{
    if stops(s, at) || Class::Blank.holds(s[at]) {
        lemma_attribute_readable(s, at);
    }
}

/// No digit stands at `at`.
pub open spec fn no_digit(t: Seq<char>, at: int) -> bool {
    at >= t.len() || !Class::Digit.holds(t[at])
}

/// Where a text holds a number as it is written, or nothing where none
/// is, and no digit behind it, the number, or none, is read there.
pub proof fn lemma_opt_in(t: Seq<char>, p: int, n: Option<i32>)
    requires
        sound_number(n),
        holds(t, p, opt_text(n)),
        no_digit(t, p + opt_text(n).len()),
    ensures
        opt_number(t, p) == Some((n, p + opt_text(n).len())),
{
    match n {
        Some(v) => {
            lemma_number_reads(t, p, v as int);
        },
        None => {},
    }
}

/// The text of a number, or of none, is digits.
pub proof fn lemma_opt_text(n: Option<i32>)
    requires
        sound_number(n),
    ensures
        forall|k: int| 0 <= k < opt_text(n).len() ==> Class::Digit.holds(#[trigger] opt_text(n)[k]),
{
    match n {
        Some(v) => {
            lemma_numeral(v as int);
        },
        None => {},
    }
}

/// Where a text holds a date as it is written, and no digit behind it,
/// the date is read there.
pub proof fn lemma_date_in(t: Seq<char>, p: int, d: EasyDate)
    requires
        sound_number(d.y) && sound_number(d.m) && sound_number(d.d),
        holds(t, p, date_text(d)),
        no_digit(t, p + date_text(d).len()),
    ensures
        date(t, p) == Some((d, p + date_text(d).len())),
{
    let y = opt_text(d.y);
    let m = opt_text(d.m);
    let dd = opt_text(d.d);
    let slash = seq!['/'];
    assert(date_text(d) =~= y + (slash + (m + (slash + dd))));
    lemma_holds_both(t, p, y, slash + (m + (slash + dd)));
    let a = p + y.len();
    lemma_holds_both(t, a, slash, m + (slash + dd));
    lemma_holds_both(t, a + 1, m, slash + dd);
    let b = a + 1 + m.len();
    lemma_holds_both(t, b, slash, dd);
    lemma_holds_alike(t, a, slash);
    lemma_holds_alike(t, b, slash);
    assert(t[a] == '/') by {
        assert(t[a + 0] == slash[0]);
    }
    assert(t[b] == '/') by {
        assert(t[b + 0] == slash[0]);
    }
    lemma_opt_in(t, p, d.y);
    lemma_opt_in(t, a + 1, d.m);
    lemma_opt_in(t, b + 1, d.d);
}

/// Where a text holds a time of day as it is written, and no digit
/// behind it, the time is read there.
pub proof fn lemma_time_in(t: Seq<char>, p: int, time_of_day: EasyTime)
    requires
        sound_number(time_of_day.h) && sound_number(time_of_day.m),
        holds(t, p, time_text(time_of_day)),
        no_digit(t, p + time_text(time_of_day).len()),
    ensures
        time(t, p) == Some((time_of_day, p + time_text(time_of_day).len())),
        date(t, p) is None,
{
    let h = opt_text(time_of_day.h);
    let m = opt_text(time_of_day.m);
    let colon = seq![':'];
    assert(time_text(time_of_day) =~= h + (colon + m));
    lemma_holds_both(t, p, h, colon + m);
    let a = p + h.len();
    lemma_holds_both(t, a, colon, m);
    lemma_holds_alike(t, a, colon);
    assert(t[a] == ':') by {
        assert(t[a + 0] == colon[0]);
    }
    lemma_opt_in(t, p, time_of_day.h);
    lemma_opt_in(t, a + 1, time_of_day.m);
}

/// Neither a digit nor the letter `T` stands at `at`.
pub open spec fn moment_ends(t: Seq<char>, at: int) -> bool {
    at >= t.len() || (!Class::Digit.holds(t[at]) && t[at] != 'T')
}

/// Where a text holds a date or time as it is written, and neither a
/// digit nor the letter `T` behind it, the date or time is read there.
pub proof fn lemma_datetime_in(t: Seq<char>, p: int, dt: EasyDateTime)
    requires
        sound_datetime(dt),
        holds(t, p, datetime_text(dt)),
        moment_ends(t, p + datetime_text(dt).len()),
    ensures
        datetime(t, p) == Some((dt, p + datetime_text(dt).len())),
{
    match (dt.date, dt.time) {
        (Some(d), Some(tm)) => {
            let dtext = date_text(d);
            let tee = seq!['T'];
            assert(datetime_text(dt) =~= dtext + (tee + time_text(tm)));
            lemma_holds_both(t, p, dtext, tee + time_text(tm));
            let a = p + dtext.len();
            lemma_holds_both(t, a, tee, time_text(tm));
            lemma_holds_alike(t, a, tee);
            assert(t[a] == 'T') by {
                assert(t[a + 0] == tee[0]);
            }
            lemma_date_in(t, p, d);
            lemma_time_in(t, a + 1, tm);
        },
        (Some(d), None) => {
            lemma_date_in(t, p, d);
        },
        (None, Some(tm)) => {
            lemma_time_in(t, p, tm);
        },
        (None, None) => {},
    }
}

/// A date or time as it is written is not empty, holds nothing but
/// digits, slashes, colons and the letter `T`, and starts with none of the
/// marks by which a token is known.
pub proof fn lemma_datetime_text(dt: EasyDateTime)
    requires
        sound_datetime(dt),
    ensures
        datetime_text(dt).len() > 0,
        forall|k: int|
            0 <= k < datetime_text(dt).len() ==> moment_char(#[trigger] datetime_text(dt)[k]),
{
    let text = datetime_text(dt);
    if dt.date is Some {
        let d = dt.date->0;
        lemma_opt_text(d.y);
        lemma_opt_text(d.m);
        lemma_opt_text(d.d);
    }
    if dt.time is Some {
        let tm = dt.time->0;
        lemma_opt_text(tm.h);
        lemma_opt_text(tm.m);
    }
    assert forall|k: int| 0 <= k < text.len() implies moment_char(#[trigger] text[k]) by {
        match (dt.date, dt.time) {
            (Some(d), Some(tm)) => {
                lemma_date_text(d, k);
                lemma_time_text(tm, k - date_text(d).len() - 1);
            },
            (Some(d), None) => {
                lemma_date_text(d, k);
            },
            (None, Some(tm)) => {
                lemma_time_text(tm, k);
            },
            (None, None) => {},
        }
    }
}

/// A character of a date or time as it is written: a digit, a slash, a colon or the letter `T`.
pub open spec fn moment_char(c: char) -> bool {
    Class::Digit.holds(c) || c == '/' || c == ':' || c == 'T'
}

proof fn lemma_date_text(d: EasyDate, k: int)
    requires
        sound_number(d.y) && sound_number(d.m) && sound_number(d.d),
    ensures
        0 <= k < date_text(d).len() ==> moment_char(date_text(d)[k]),
        date_text(d).len() > 0,
{
    lemma_opt_text(d.y);
    lemma_opt_text(d.m);
    lemma_opt_text(d.d);
    let y = opt_text(d.y);
    let m = opt_text(d.m);
    let dd = opt_text(d.d);
    if 0 <= k < date_text(d).len() {
        if k < y.len() {
            assert(date_text(d)[k] == y[k]);
        } else if k == y.len() {
        } else if k < y.len() + 1 + m.len() {
            assert(date_text(d)[k] == m[k - y.len() - 1]);
        } else if k == y.len() + 1 + m.len() {
        } else {
            assert(date_text(d)[k] == dd[k - y.len() - m.len() - 2]);
        }
    }
}

proof fn lemma_time_text(tm: EasyTime, k: int)
    requires
        sound_number(tm.h) && sound_number(tm.m),
    ensures
        0 <= k < time_text(tm).len() ==> moment_char(time_text(tm)[k]),
        time_text(tm).len() > 0,
{
    lemma_opt_text(tm.h);
    lemma_opt_text(tm.m);
    let h = opt_text(tm.h);
    let m = opt_text(tm.m);
    if 0 <= k < time_text(tm).len() {
        if k < h.len() {
            assert(time_text(tm)[k] == h[k]);
        } else if k == h.len() {
        } else {
            assert(time_text(tm)[k] == m[k - h.len() - 1]);
        }
    }
}

/// The token `tok` is read at `bt`, from `len` characters, where no link stands.
pub open spec fn token_at(t: Seq<char>, bt: int, tok: TokenView, len: int) -> bool {
    &&& 0 <= bt < t.len()
    &&& len > 0
    &&& Class::Graphic.holds(t[bt])
    &&& link(t, bt) is None
    &&& token(t, bt) == Some((tok, bt + len))
}

/// A word that alone reads as a token reads as that token where a text holds it.
pub proof fn lemma_reads_in(w: Seq<char>, tok: TokenView, t: Seq<char>, bt: int)
    requires
        reads(w, tok),
        holds(t, bt, w),
        word_ends(t, bt + w.len()),
    ensures
        token_at(t, bt, tok, w.len() as int),
{
    reveal(tokens_as);
    lemma_holds_alike(t, bt, w);
    let n = w.len() as int;
    assert(same_word(w, 0, t, bt, n));
    lemma_token_word(w, 0, t, bt, n);
    lemma_link_word(w, 0, t, bt, n, 0);
    assert(t[bt + 0] == w[0]);
}

/// No link stands where the text does not go on with the letter `h`.
pub proof fn lemma_no_link(t: Seq<char>, bt: int)
    requires
        0 <= bt,
        bt >= t.len() || t[bt] != 'h',
    ensures
        link(t, bt) is None,
{
    if starts_with(t, bt, http()) {
        assert(t.subrange(bt, bt + 7)[0] == http()[0]);
    }
    if starts_with(t, bt, https()) {
        assert(t.subrange(bt, bt + 8)[0] == https()[0]);
    }
}

/// A star is read where a text holds one.
pub proof fn lemma_star_in(t: Seq<char>, bt: int)
    requires
        holds(t, bt, seq!['*']),
    ensures
        token_at(t, bt, TokenView::Star, 1),
{
    lemma_holds_alike(t, bt, seq!['*']);
    assert(t[bt + 0] == seq!['*'][0]);
    lemma_no_link(t, bt);
}

/// An id is read where a text holds it as it is written.
pub proof fn lemma_id_in(t: Seq<char>, bt: int, n: i64)
    requires
        0 <= n <= i32::MAX,
        holds(t, bt, seq!['#'] + numeral(n as int)),
        word_ends(t, bt + 1 + numeral(n as int).len()),
    ensures
        token_at(t, bt, TokenView::Id(n), 1 + numeral(n as int).len() as int),
{
    let mark = seq!['#'];
    lemma_holds_both(t, bt, mark, numeral(n as int));
    lemma_holds_alike(t, bt, mark);
    assert(t[bt + 0] == mark[0]);
    lemma_no_link(t, bt);
    lemma_number_reads(t, bt + 1, n as int);
}

/// A start is read where a text holds it as it is written.
#[verifier::rlimit(60)]
pub proof fn lemma_startable_in(t: Seq<char>, bt: int, dt: EasyDateTime)
    requires
        sound_datetime(dt),
        holds(t, bt, datetime_text(dt) + seq!['-']),
        word_ends(t, bt + datetime_text(dt).len() + 1),
    ensures
        token_at(t, bt, TokenView::Startable(dt), datetime_text(dt).len() as int + 1),
{
    let text = datetime_text(dt);
    let dash = seq!['-'];
    let whole = text + dash;
    lemma_datetime_text(dt);
    lemma_holds_both(t, bt, text, dash);
    lemma_holds_alike(t, bt, text);
    lemma_holds_alike(t, bt + text.len(), dash);
    lemma_holds_alike(t, bt, whole);
    let e = bt + text.len();
    assert(t[e] == '-') by {
        assert(t[e + 0] == dash[0]);
    }
    assert(moment_char(text[0]));
    assert(t[bt + 0] == text[0]);
    lemma_no_link(t, bt);
    lemma_datetime_in(t, bt, dt);
    assert forall|i: int| 0 <= i < whole.len() implies Class::Plain.holds(#[trigger] t[bt + i]) by {
        assert(t[bt + i] == whole[i]);
        if i < text.len() {
            assert(whole[i] == text[i]);
            assert(moment_char(text[i]));
        }
    }
    lemma_span_run(t, bt, whole.len() as int, Class::Plain);
}

/// A deadline is read where a text holds it as it is written.
#[verifier::rlimit(60)]
pub proof fn lemma_deadline_in(t: Seq<char>, bt: int, dt: EasyDateTime)
    requires
        sound_datetime(dt),
        holds(t, bt, seq!['-'] + datetime_text(dt)),
        word_ends(t, bt + 1 + datetime_text(dt).len()),
    ensures
        token_at(t, bt, TokenView::Deadline(dt), 1 + datetime_text(dt).len() as int),
{
    let text = datetime_text(dt);
    let dash = seq!['-'];
    let whole = dash + text;
    lemma_datetime_text(dt);
    lemma_holds_both(t, bt, dash, text);
    lemma_holds_alike(t, bt, dash);
    lemma_holds_alike(t, bt + 1, text);
    lemma_holds_alike(t, bt, whole);
    assert(t[bt] == '-') by {
        assert(t[bt + 0] == dash[0]);
    }
    lemma_no_link(t, bt);
    lemma_datetime_in(t, bt + 1, dt);
    assert forall|i: int| 0 <= i < whole.len() implies Class::Plain.holds(#[trigger] t[bt + i]) by {
        assert(t[bt + i] == whole[i]);
        if i > 0 {
            assert(whole[i] == text[i - 1]);
            assert(moment_char(text[i - 1]));
        }
    }
    lemma_span_run(t, bt, whole.len() as int, Class::Plain);
    assert(datetime(t, bt) is None);
}

/// Where what a line says ends at `e`, and what is read of it then
/// ends: with the text or before a line feed at `e`, or before a link that
/// stands behind one space.
pub open spec fn halt(t: Seq<char>, e: int) -> Option<int> {
    if e < 0 || e > t.len() {
        None
    } else if e == t.len() || t[e] == '\n' {
        Some(e)
    } else if t[e] == ' ' && link(t, e + 1) is Some {
        Some(e + 1)
    } else {
        None
    }
}

/// Where what a line says ends, nothing more is read of it.
pub proof fn lemma_halt(t: Seq<char>, e: int)
    requires
        halt(t, e) is Some,
    ensures
        attribute(t, e) == Ok::<(AttributeView, int), ParseError>((no_attribute(), halt(t, e)->0)),
        word_ends(t, e),
        goes_on(t, e),
{
    if e < t.len() && t[e] != '\n' {
        lemma_no_link(t, e);
        lemma_link_starts(t, e + 1);
        assert(span(t, e + 1, Class::Blank) == e + 1);
        assert(span(t, e, Class::Blank) == e + 1);
        assert(stops(t, e + 1));
        assert(attribute(t, e + 1) == Ok::<(AttributeView, int), ParseError>((no_attribute(), e + 1)));
        assert(!stops(t, e));
        assert(attribute(t, e) == attribute(t, e + 1));
    } else {
        assert(stops(t, e));
    }
}

/// A token and what follows it read as the token before what follows.
#[verifier::rlimit(60)]
pub proof fn lemma_step(
    t: Seq<char>,
    bt: int,
    p: Seq<char>,
    tok: TokenView,
    rest_text: Seq<char>,
    rest: AttributeView,
    stop: int,
)
    requires
        holds(t, bt, lead(Some(p), rest_text)),
        halt(t, bt + lead(Some(p), rest_text).len()) == Some(stop),
        token_at(t, bt, tok, p.len() as int),
        rest_text.len() > 0 ==> attribute(t, bt + p.len() + 1) == Ok::<(AttributeView, int), ParseError>(
            (rest, stop),
        ) && Class::Graphic.holds(rest_text[0]),
        rest_text.len() == 0 ==> rest == no_attribute(),
    ensures
        attribute(t, bt) == Ok::<(AttributeView, int), ParseError>((with_token(tok, rest), stop)),
{
    let next = bt + p.len();
    if rest_text.len() > 0 {
        let whole = p + seq![' '] + rest_text;
        lemma_holds_alike(t, bt, whole);
        assert(t[next] == ' ') by {
            assert(t[bt + p.len()] == whole[p.len() as int]);
        }
        assert(t[next + 1] == rest_text[0]) by {
            assert(t[bt + (p.len() + 1)] == whole[p.len() as int + 1]);
        }
        lemma_no_link(t, next);
        assert(span(t, next + 1, Class::Blank) == next + 1);
        assert(span(t, next, Class::Blank) == next + 1);
        assert(attribute(t, next) == attribute(t, next + 1));
    } else {
        lemma_halt(t, next);
    }
    assert(attribute_more(t, bt, next) == attribute(t, next));
}

/// The line that says its title alone.
pub open spec fn only_title(title: Seq<char>) -> AttributeView {
    AttributeView { title, ..no_attribute() }
}

/// A text that holds a piece and what follows it holds each, with a
/// space between them where something follows.
pub proof fn lemma_holds_lead(t: Seq<char>, bt: int, p: Seq<char>, rest: Seq<char>)
    requires
        holds(t, bt, lead(Some(p), rest)),
    ensures
        holds(t, bt, p),
        rest.len() > 0 ==> t[bt + p.len()] == ' ' && holds(t, bt + p.len() + 1, rest) && lead(Some(p), rest).len()
            == p.len() + 1 + rest.len() && t[bt + p.len() + 1] == rest[0],
        rest.len() == 0 ==> lead(Some(p), rest) == p,
{
    if rest.len() > 0 {
        let space = seq![' '];
        assert(lead(Some(p), rest) =~= p + (space + rest));
        lemma_holds_both(t, bt, p, space + rest);
        lemma_holds_both(t, bt + p.len(), space, rest);
        lemma_holds_alike(t, bt + p.len(), space);
        assert(t[bt + p.len() + 0] == space[0]);
        lemma_holds_alike(t, bt + p.len() + 1, rest);
        assert(t[bt + p.len() + 1 + 0] == rest[0]);
    }
}

/// A title that is not empty is a word that reads as a part of the
/// title, before a title.
#[verifier::rlimit(60)]
pub proof fn lemma_titled_parts(title: Seq<char>) -> (parts: (Seq<char>, Seq<char>))
    requires
        titled(title),
        title.len() > 0,
    ensures
        reads(parts.0, TokenView::Title(parts.0)),
        titled(parts.1),
        title == lead(Some(parts.0), parts.1),
        title == joined(parts.0, parts.1),
        parts.1.len() < title.len(),
{
    let e = span(title, 0, Class::Graphic);
    let w = title.take(e);
    if e == title.len() {
        let rest = Seq::<char>::empty();
        assert(title =~= w);
        (w, rest)
    } else {
        let rest = title.skip(e + 1);
        assert(title =~= w + seq![' '] + rest);
        (w, rest)
    }
}

/// Where a text holds a title as it is written, the title is read there.
#[verifier::rlimit(60)]
pub proof fn lemma_title_in(t: Seq<char>, bt: int, title: Seq<char>, stop: int)
    requires
        titled(title),
        holds(t, bt, title),
        halt(t, bt + title.len()) == Some(stop),
    ensures
        attribute(t, bt) == Ok::<(AttributeView, int), ParseError>((only_title(title), stop)),
        title.len() > 0 ==> Class::Graphic.holds(t[bt]) && link(t, bt) is None,
    decreases title.len(),
{
    if title.len() == 0 {
        lemma_halt(t, bt);
        assert(title =~= Seq::<char>::empty());
    } else {
        let (w, rest) = lemma_titled_parts(title);
        lemma_holds_lead(t, bt, w, rest);
        if rest.len() > 0 {
            lemma_title_in(t, bt + w.len() + 1, rest, stop);
        } else {
            lemma_halt(t, bt + w.len());
            assert(rest =~= Seq::<char>::empty());
        }
        lemma_reads_in(w, TokenView::Title(w), t, bt);
        lemma_step(t, bt, w, TokenView::Title(w), rest, only_title(rest), stop);
    }
}

/// What the line says from the `k`-th of its parts on: the star, the
/// id, the weight, the head and the tail of the joint, the assignee, the
/// start and the deadline, in this order; the title is always of it.
pub open spec fn from_stage(a: AttributeView, k: int) -> AttributeView {
    AttributeView {
        is_starred: k <= 0 && a.is_starred,
        id: if k <= 1 {
            a.id
        } else {
            None
        },
        weight: if k <= 2 {
            a.weight
        } else {
            None
        },
        joint_head: if k <= 3 {
            a.joint_head
        } else {
            None
        },
        joint_tail: if k <= 4 {
            a.joint_tail
        } else {
            None
        },
        assign: if k <= 5 {
            a.assign
        } else {
            None
        },
        startable: if k <= 6 {
            a.startable
        } else {
            None
        },
        deadline: if k <= 7 {
            a.deadline
        } else {
            None
        },
        title: a.title,
    }
}

/// A line whose text is empty says nothing.
pub proof fn lemma_empty_text(a: AttributeView)
    requires
        attribute_text(a).len() == 0,
    ensures
        a == no_attribute(),
{
    let t8 = lead(deadline_piece(a), a.title);
    let t7 = lead(startable_piece(a), t8);
    let t6 = lead(assign_piece(a), t7);
    let t5 = lead(tail_piece(a), t6);
    let t4 = lead(head_piece(a), t5);
    let t3 = lead(weight_piece(a), t4);
    let t2 = lead(id_piece(a), t3);
    let t1 = lead(star_piece(a), t2);
    lemma_lead_len(deadline_piece(a), a.title);
    lemma_lead_len(startable_piece(a), t8);
    lemma_lead_len(assign_piece(a), t7);
    lemma_lead_len(tail_piece(a), t6);
    lemma_lead_len(head_piece(a), t5);
    lemma_lead_len(weight_piece(a), t4);
    lemma_lead_len(id_piece(a), t3);
    lemma_lead_len(star_piece(a), t2);
    assert(attribute_text(a) == t1);
    assert(star_piece(a) is None) by {
        if star_piece(a) is Some {
            assert(star_piece(a)->0.len() == 1);
        }
    }
    assert(id_piece(a) is None) by {
        if id_piece(a) is Some {
            assert(id_piece(a)->0.len() >= 1);
        }
    }
    assert(weight_piece(a) is None) by {
        if weight_piece(a) is Some {
            assert(weight_piece(a)->0.len() >= 1);
        }
    }
    assert(head_piece(a) is None) by {
        if head_piece(a) is Some {
            assert(head_piece(a)->0.len() >= 1);
        }
    }
    assert(tail_piece(a) is None) by {
        if tail_piece(a) is Some {
            assert(tail_piece(a)->0.len() >= 1);
        }
    }
    assert(assign_piece(a) is None) by {
        if assign_piece(a) is Some {
            assert(assign_piece(a)->0.len() >= 1);
        }
    }
    assert(startable_piece(a) is None) by {
        if startable_piece(a) is Some {
            assert(startable_piece(a)->0.len() >= 1);
        }
    }
    assert(deadline_piece(a) is None) by {
        if deadline_piece(a) is Some {
            assert(deadline_piece(a)->0.len() >= 1);
        }
    }
    assert(a.title =~= Seq::<char>::empty());
}

/// Where a text holds the title of a line as it is written, the line is read there.
#[verifier::rlimit(60)]
pub proof fn lemma_stage_8(t: Seq<char>, bt: int, a: AttributeView, stop: int)
    requires
        readable(a),
        holds(t, bt, attribute_text(from_stage(a, 8))),
        halt(t, bt + attribute_text(from_stage(a, 8)).len()) == Some(stop),
    ensures
        attribute(t, bt) == Ok::<(AttributeView, int), ParseError>((from_stage(a, 8), stop)),
        attribute_text(from_stage(a, 8)).len() > 0 ==> Class::Graphic.holds(t[bt]) && link(t, bt) is None,
{
    assert(from_stage(a, 8) == only_title(a.title));
    lemma_title_in(t, bt, a.title, stop);
}

/// Where a text holds what a line says from its part 7 on, as it is
/// written, that is read there.
#[verifier::rlimit(60)]
pub proof fn lemma_stage_7(t: Seq<char>, bt: int, a: AttributeView, stop: int)
    requires
        readable(a),
        holds(t, bt, attribute_text(from_stage(a, 7))),
        halt(t, bt + attribute_text(from_stage(a, 7)).len()) == Some(stop),
    ensures
        attribute(t, bt) == Ok::<(AttributeView, int), ParseError>((from_stage(a, 7), stop)),
        attribute_text(from_stage(a, 7)).len() > 0 ==> Class::Graphic.holds(t[bt]) && link(t, bt) is None,
{
    let here = from_stage(a, 7);
    let next = from_stage(a, 8);
    let rest = attribute_text(next);
    if a.deadline is Some {
        let p = seq!['-'] + datetime_text(a.deadline->0);
        let tok = TokenView::Deadline(a.deadline->0);
        assert(attribute_text(here) == lead(Some(p), rest));
        lemma_holds_lead(t, bt, p, rest);
        if rest.len() > 0 {
            lemma_stage_8(t, bt + p.len() + 1, a, stop);
        } else {
            lemma_halt(t, bt + p.len());
            lemma_empty_text(next);
        }
        assert(p.len() == 1 + datetime_text(a.deadline->0).len());
        lemma_deadline_in(t, bt, a.deadline->0);
        lemma_step(t, bt, p, tok, rest, next, stop);
        assert(with_token(tok, next) == here);
    } else {
        assert(here == next);
        lemma_stage_8(t, bt, a, stop);
    }
}

/// Where a text holds what a line says from its part 6 on, as it is
/// written, that is read there.
#[verifier::rlimit(60)]
pub proof fn lemma_stage_6(t: Seq<char>, bt: int, a: AttributeView, stop: int)
    requires
        readable(a),
        holds(t, bt, attribute_text(from_stage(a, 6))),
        halt(t, bt + attribute_text(from_stage(a, 6)).len()) == Some(stop),
    ensures
        attribute(t, bt) == Ok::<(AttributeView, int), ParseError>((from_stage(a, 6), stop)),
        attribute_text(from_stage(a, 6)).len() > 0 ==> Class::Graphic.holds(t[bt]) && link(t, bt) is None,
{
    let here = from_stage(a, 6);
    let next = from_stage(a, 7);
    let rest = attribute_text(next);
    if a.startable is Some {
        let p = datetime_text(a.startable->0) + seq!['-'];
        let tok = TokenView::Startable(a.startable->0);
        assert(attribute_text(here) == lead(Some(p), rest));
        lemma_holds_lead(t, bt, p, rest);
        if rest.len() > 0 {
            lemma_stage_7(t, bt + p.len() + 1, a, stop);
        } else {
            lemma_halt(t, bt + p.len());
            lemma_empty_text(next);
        }
        assert(p.len() == datetime_text(a.startable->0).len() + 1);
        lemma_startable_in(t, bt, a.startable->0);
        lemma_step(t, bt, p, tok, rest, next, stop);
        assert(with_token(tok, next) == here);
    } else {
        assert(here == next);
        lemma_stage_7(t, bt, a, stop);
    }
}

/// Where a text holds what a line says from its part 5 on, as it is
/// written, that is read there.
#[verifier::rlimit(60)]
pub proof fn lemma_stage_5(t: Seq<char>, bt: int, a: AttributeView, stop: int)
    requires
        readable(a),
        holds(t, bt, attribute_text(from_stage(a, 5))),
        halt(t, bt + attribute_text(from_stage(a, 5)).len()) == Some(stop),
    ensures
        attribute(t, bt) == Ok::<(AttributeView, int), ParseError>((from_stage(a, 5), stop)),
        attribute_text(from_stage(a, 5)).len() > 0 ==> Class::Graphic.holds(t[bt]) && link(t, bt) is None,
{
    let here = from_stage(a, 5);
    let next = from_stage(a, 6);
    let rest = attribute_text(next);
    if a.assign is Some {
        let p = seq!['@'] + a.assign->0;
        let tok = TokenView::Assign(a.assign->0);
        assert(attribute_text(here) == lead(Some(p), rest));
        lemma_holds_lead(t, bt, p, rest);
        if rest.len() > 0 {
            lemma_stage_6(t, bt + p.len() + 1, a, stop);
        } else {
            lemma_halt(t, bt + p.len());
            lemma_empty_text(next);
        }
        lemma_reads_in(p, tok, t, bt);
        lemma_step(t, bt, p, tok, rest, next, stop);
        assert(with_token(tok, next) == here);
    } else {
        assert(here == next);
        lemma_stage_6(t, bt, a, stop);
    }
}

/// Where a text holds what a line says from its part 4 on, as it is
/// written, that is read there.
#[verifier::rlimit(60)]
pub proof fn lemma_stage_4(t: Seq<char>, bt: int, a: AttributeView, stop: int)
    requires
        readable(a),
        holds(t, bt, attribute_text(from_stage(a, 4))),
        halt(t, bt + attribute_text(from_stage(a, 4)).len()) == Some(stop),
    ensures
        attribute(t, bt) == Ok::<(AttributeView, int), ParseError>((from_stage(a, 4), stop)),
        attribute_text(from_stage(a, 4)).len() > 0 ==> Class::Graphic.holds(t[bt]) && link(t, bt) is None,
{
    let here = from_stage(a, 4);
    let next = from_stage(a, 5);
    let rest = attribute_text(next);
    if a.joint_tail is Some {
        let p = seq!['['] + a.joint_tail->0;
        let tok = TokenView::Tail(a.joint_tail->0);
        assert(attribute_text(here) == lead(Some(p), rest));
        lemma_holds_lead(t, bt, p, rest);
        if rest.len() > 0 {
            lemma_stage_5(t, bt + p.len() + 1, a, stop);
        } else {
            lemma_halt(t, bt + p.len());
            lemma_empty_text(next);
        }
        lemma_reads_in(p, tok, t, bt);
        lemma_step(t, bt, p, tok, rest, next, stop);
        assert(with_token(tok, next) == here);
    } else {
        assert(here == next);
        lemma_stage_5(t, bt, a, stop);
    }
}

/// Where a text holds what a line says from its part 3 on, as it is
/// written, that is read there.
#[verifier::rlimit(60)]
pub proof fn lemma_stage_3(t: Seq<char>, bt: int, a: AttributeView, stop: int)
    requires
        readable(a),
        holds(t, bt, attribute_text(from_stage(a, 3))),
        halt(t, bt + attribute_text(from_stage(a, 3)).len()) == Some(stop),
    ensures
        attribute(t, bt) == Ok::<(AttributeView, int), ParseError>((from_stage(a, 3), stop)),
        attribute_text(from_stage(a, 3)).len() > 0 ==> Class::Graphic.holds(t[bt]) && link(t, bt) is None,
{
    let here = from_stage(a, 3);
    let next = from_stage(a, 4);
    let rest = attribute_text(next);
    if a.joint_head is Some {
        let p = a.joint_head->0 + seq![']'];
        let tok = TokenView::Head(a.joint_head->0);
        assert(attribute_text(here) == lead(Some(p), rest));
        lemma_holds_lead(t, bt, p, rest);
        if rest.len() > 0 {
            lemma_stage_4(t, bt + p.len() + 1, a, stop);
        } else {
            lemma_halt(t, bt + p.len());
            lemma_empty_text(next);
        }
        lemma_reads_in(p, tok, t, bt);
        lemma_step(t, bt, p, tok, rest, next, stop);
        assert(with_token(tok, next) == here);
    } else {
        assert(here == next);
        lemma_stage_4(t, bt, a, stop);
    }
}

/// Where a text holds what a line says from its part 2 on, as it is
/// written, that is read there.
#[verifier::rlimit(60)]
pub proof fn lemma_stage_2(t: Seq<char>, bt: int, a: AttributeView, stop: int)
    requires
        readable(a),
        holds(t, bt, attribute_text(from_stage(a, 2))),
        halt(t, bt + attribute_text(from_stage(a, 2)).len()) == Some(stop),
    ensures
        attribute(t, bt) == Ok::<(AttributeView, int), ParseError>((from_stage(a, 2), stop)),
        attribute_text(from_stage(a, 2)).len() > 0 ==> Class::Graphic.holds(t[bt]) && link(t, bt) is None,
{
    let here = from_stage(a, 2);
    let next = from_stage(a, 3);
    let rest = attribute_text(next);
    if a.weight is Some {
        let p = seq!['$'] + a.weight->0;
        let tok = TokenView::Weight(a.weight->0);
        assert(attribute_text(here) == lead(Some(p), rest));
        lemma_holds_lead(t, bt, p, rest);
        if rest.len() > 0 {
            lemma_stage_3(t, bt + p.len() + 1, a, stop);
        } else {
            lemma_halt(t, bt + p.len());
            lemma_empty_text(next);
        }
        lemma_reads_in(p, tok, t, bt);
        lemma_step(t, bt, p, tok, rest, next, stop);
        assert(with_token(tok, next) == here);
    } else {
        assert(here == next);
        lemma_stage_3(t, bt, a, stop);
    }
}

/// Where a text holds what a line says from its part 1 on, as it is
/// written, that is read there.
#[verifier::rlimit(60)]
pub proof fn lemma_stage_1(t: Seq<char>, bt: int, a: AttributeView, stop: int)
    requires
        readable(a),
        holds(t, bt, attribute_text(from_stage(a, 1))),
        halt(t, bt + attribute_text(from_stage(a, 1)).len()) == Some(stop),
    ensures
        attribute(t, bt) == Ok::<(AttributeView, int), ParseError>((from_stage(a, 1), stop)),
        attribute_text(from_stage(a, 1)).len() > 0 ==> Class::Graphic.holds(t[bt]) && link(t, bt) is None,
{
    let here = from_stage(a, 1);
    let next = from_stage(a, 2);
    let rest = attribute_text(next);
    if a.id is Some {
        let p = seq!['#'] + numeral(a.id->0 as int);
        let tok = TokenView::Id(a.id->0);
        assert(attribute_text(here) == lead(Some(p), rest));
        lemma_holds_lead(t, bt, p, rest);
        if rest.len() > 0 {
            lemma_stage_2(t, bt + p.len() + 1, a, stop);
        } else {
            lemma_halt(t, bt + p.len());
            lemma_empty_text(next);
        }
        assert(p.len() == 1 + numeral(a.id->0 as int).len());
        lemma_id_in(t, bt, a.id->0);
        lemma_step(t, bt, p, tok, rest, next, stop);
        assert(with_token(tok, next) == here);
    } else {
        assert(here == next);
        lemma_stage_2(t, bt, a, stop);
    }
}

/// Where a text holds what a line says from its part 0 on, as it is
/// written, that is read there.
#[verifier::rlimit(60)]
pub proof fn lemma_stage_0(t: Seq<char>, bt: int, a: AttributeView, stop: int)
    requires
        readable(a),
        holds(t, bt, attribute_text(from_stage(a, 0))),
        halt(t, bt + attribute_text(from_stage(a, 0)).len()) == Some(stop),
    ensures
        attribute(t, bt) == Ok::<(AttributeView, int), ParseError>((from_stage(a, 0), stop)),
        attribute_text(from_stage(a, 0)).len() > 0 ==> Class::Graphic.holds(t[bt]) && link(t, bt) is None,
{
    let here = from_stage(a, 0);
    let next = from_stage(a, 1);
    let rest = attribute_text(next);
    if a.is_starred {
        let p = seq!['*'];
        let tok = TokenView::Star;
        assert(attribute_text(here) == lead(Some(p), rest));
        lemma_holds_lead(t, bt, p, rest);
        if rest.len() > 0 {
            lemma_stage_1(t, bt + p.len() + 1, a, stop);
        } else {
            lemma_halt(t, bt + p.len());
            lemma_empty_text(next);
        }
        lemma_star_in(t, bt);
        lemma_step(t, bt, p, tok, rest, next, stop);
        assert(with_token(tok, next) == here);
    } else {
        assert(here == next);
        lemma_stage_1(t, bt, a, stop);
    }
}

/// Where a text holds what a line says, as it is written, and the line
/// ends behind it, what the line says is read there.
pub proof fn lemma_attribute_in(t: Seq<char>, bt: int, a: AttributeView, stop: int)
    requires
        readable(a),
        holds(t, bt, attribute_text(a)),
        halt(t, bt + attribute_text(a).len()) == Some(stop),
    ensures
        attribute(t, bt) == Ok::<(AttributeView, int), ParseError>((a, stop)),
        attribute_text(a).len() > 0 ==> Class::Graphic.holds(t[bt]) && link(t, bt) is None,
{
    assert(from_stage(a, 0) == a);
    lemma_stage_0(t, bt, a, stop);
}

/// A link that was read: it alone reads as itself.
pub open spec fn linked(l: Seq<char>) -> bool {
    l.len() > 0 && graphic(l) && link(l, 0) == Some((l, l.len() as int))
}

/// A task line that was read: it is indented by no negative number of
/// units, what it says is readable, it names a title, and its link, if it
/// has one, reads as itself.
pub open spec fn line_ok(task: ReqTaskView) -> bool {
    &&& task.indent >= 0
    &&& readable(task.attribute)
    &&& task.attribute.title.len() > 0
    &&& task.link is Some ==> linked(task.link->0)
}

/// An indent as it is written is spaces, four for each unit.
pub proof fn lemma_indent_text(n: int)
    requires
        n >= 0,
    ensures
        indent_text(n).len() == 4 * n,
        forall|k: int| 0 <= k < indent_text(n).len() ==> #[trigger] indent_text(n)[k] == ' ',
    decreases n,
{
    if n > 0 {
        lemma_indent_text(n - 1);
        let before = indent_text(n - 1);
        let all = indent_text(n);
        assert forall|k: int| 0 <= k < all.len() implies #[trigger] all[k] == ' ' by {
            if k < before.len() {
                assert(all[k] == before[k]);
            }
        }
    }
}

/// Spaces, four for each unit, before something else are read as so many units of indent.
pub proof fn lemma_indent_run(t: Seq<char>, bt: int, n: int)
    requires
        n >= 0,
        0 <= bt,
        bt + 4 * n <= t.len(),
        forall|i: int| 0 <= i < 4 * n ==> #[trigger] t[bt + i] == ' ',
        bt + 4 * n < t.len() ==> t[bt + 4 * n] != ' ' && t[bt + 4 * n] != '\t',
    ensures
        indent_end(t, bt) == bt + 4 * n,
        indent_count(t, bt) == n,
    decreases n,
{
    if n > 0 {
        assert(t[bt + 0] == ' ');
        assert(t[bt + 1] == ' ');
        assert(t[bt + 2] == ' ');
        assert(t[bt + 3] == ' ');
        assert(unit(t, bt) == 4);
        assert forall|i: int| 0 <= i < 4 * (n - 1) implies #[trigger] t[bt + 4 + i] == ' ' by {
            assert(t[bt + (4 + i)] == ' ');
        }
        lemma_indent_run(t, bt + 4, n - 1);
    } else {
        assert(unit(t, bt) == 0);
    }
}

/// Units of indent are never fewer than none.
pub proof fn lemma_indent_count(s: Seq<char>, at: int)
    requires
        0 <= at,
    ensures
        indent_count(s, at) >= 0,
        at <= indent_end(s, at),
        at <= s.len() ==> indent_end(s, at) <= s.len(),
    decreases s.len() - at,
{
    if unit(s, at) != 0 {
        lemma_indent_count(s, at + unit(s, at));
    }
}

/// Where a text holds an indent as it is written, before a graphic
/// character, the indent is read there.
pub proof fn lemma_indent_in(t: Seq<char>, bt: int, n: i32)
    requires
        n >= 0,
        holds(t, bt, indent_text(n as int)),
        bt + 4 * n < t.len(),
        Class::Graphic.holds(t[bt + 4 * n]),
    ensures
        indent(t, bt) == Ok::<(i32, int), ParseError>((n, bt + 4 * n)),
        span(t, bt, Class::Blank) == bt + 4 * n,
{
    lemma_indent_text(n as int);
    lemma_holds_alike(t, bt, indent_text(n as int));
    assert forall|i: int| 0 <= i < 4 * n implies #[trigger] t[bt + i] == ' ' by {
        assert(t[bt + i] == indent_text(n as int)[i]);
    }
    lemma_indent_run(t, bt, n as int);
    assert forall|i: int| 0 <= i < 4 * n implies Class::Blank.holds(#[trigger] t[bt + i]) by {
        assert(t[bt + i] == ' ');
    }
    lemma_span_run(t, bt, 4 * n, Class::Blank);
}

/// What stands before a text makes it no shorter.
pub proof fn lemma_lead_len(piece: Option<Seq<char>>, rest: Seq<char>)
    ensures
        lead(piece, rest).len() >= rest.len(),
        piece is Some ==> lead(piece, rest).len() >= piece->0.len(),
{
}

/// What a line says, as it is written, is no shorter than its title.
pub proof fn lemma_text_len(a: AttributeView)
    ensures
        attribute_text(a).len() >= a.title.len(),
{
    let t8 = lead(deadline_piece(a), a.title);
    let t7 = lead(startable_piece(a), t8);
    let t6 = lead(assign_piece(a), t7);
    let t5 = lead(tail_piece(a), t6);
    let t4 = lead(head_piece(a), t5);
    let t3 = lead(weight_piece(a), t4);
    let t2 = lead(id_piece(a), t3);
    let t1 = lead(star_piece(a), t2);
    lemma_lead_len(deadline_piece(a), a.title);
    lemma_lead_len(startable_piece(a), t8);
    lemma_lead_len(assign_piece(a), t7);
    lemma_lead_len(tail_piece(a), t6);
    lemma_lead_len(head_piece(a), t5);
    lemma_lead_len(weight_piece(a), t4);
    lemma_lead_len(id_piece(a), t3);
    lemma_lead_len(star_piece(a), t2);
    assert(attribute_text(a) == t1);
}

/// Where a text holds a task line as it is written, and the line ends
/// behind it, the line is read there.
#[verifier::rlimit(60)]
pub proof fn lemma_task_in(t: Seq<char>, bt: int, task: ReqTaskView)
    requires
        line_ok(task),
        holds(t, bt, task_text(task)),
        bt + task_text(task).len() == t.len() || t[bt + task_text(task).len()] == '\n',
        task.link is None && bt + task_text(task).len() < t.len() ==> link(
            t,
            span(t, bt + task_text(task).len() + 1, Class::Blank),
        ) is None,
    ensures
        req_task(t, bt) == Ok::<(ReqTaskView, int), ParseError>(
            (
                task,
                if bt + task_text(task).len() < t.len() {
                    bt + task_text(task).len() + 1
                } else {
                    bt + task_text(task).len()
                },
            ),
        ),
        span(t, bt, Class::Blank) == bt + 4 * task.indent,
        link(t, bt + 4 * task.indent) is None,
        task_text(task).len() > 0,
{
    let ind = indent_text(task.indent as int);
    let said = attribute_text(task.attribute);
    let tail = match task.link {
        Some(l) => seq![' '] + l,
        None => Seq::<char>::empty(),
    };
    lemma_indent_text(task.indent as int);
    lemma_text_len(task.attribute);
    assert(task_text(task) =~= ind + (said + tail));
    lemma_holds_both(t, bt, ind, said + tail);
    let pos = bt + ind.len();
    lemma_holds_both(t, pos, said, tail);
    let e = pos + said.len();
    let m = bt + task_text(task).len();
    match task.link {
        Some(l) => {
            let space = seq![' '];
            lemma_holds_both(t, e, space, l);
            lemma_holds_alike(t, e, space);
            assert(t[e + 0] == space[0]);
            lemma_holds_alike(t, e + 1, l);
            assert(same_word(l, 0, t, e + 1, l.len() as int));
            lemma_link_word(l, 0, t, e + 1, l.len() as int, 0);
            assert(halt(t, e) == Some(e + 1));
            lemma_attribute_in(t, pos, task.attribute, e + 1);
        },
        None => {
            assert(halt(t, e) == Some(e));
            lemma_attribute_in(t, pos, task.attribute, e);
            lemma_no_link(t, e);
        },
    }
    lemma_indent_in(t, bt, task.indent);
    assert(span(t, m, Class::Blank) == m);
}

/// A link that is read is graphic.
pub proof fn lemma_link_graphic(s: Seq<char>, at: int)
    requires
        0 <= at <= s.len(),
    ensures
        match link(s, at) {
            Some((l, next)) => at < next <= s.len() && l == s.subrange(at, next) && forall|k: int|
                at <= k < next ==> Class::Graphic.holds(#[trigger] s[k]),
            None => true,
        },
{
    if starts_with(s, at, http()) {
        lemma_span(s, at + 7, Class::AsciiGraphic);
        assert forall|k: int| at <= k < at + 7 implies Class::Graphic.holds(#[trigger] s[k]) by {
            assert(s.subrange(at, at + 7)[k - at] == http()[k - at]);
        }
    } else if starts_with(s, at, https()) {
        lemma_span(s, at + 8, Class::AsciiGraphic);
        assert forall|k: int| at <= k < at + 8 implies Class::Graphic.holds(#[trigger] s[k]) by {
            assert(s.subrange(at, at + 8)[k - at] == https()[k - at]);
        }
    }
}

/// A link that is read up to where no word goes on reads as itself.
pub proof fn lemma_link_reads(s: Seq<char>, at: int)
    requires
        0 <= at <= s.len(),
        link(s, at) is Some,
        word_ends(s, next_of(link(s, at))),
    ensures
        match link(s, at) {
            Some((l, _)) => linked(l),
            None => true,
        },
{
    lemma_link_graphic(s, at);
    let (l, next) = link(s, at)->0;
    let n = next - at;
    assert(alike(s, at, l, 0, n));
    assert(same_word(s, at, l, 0, n));
    lemma_link_word(s, at, l, 0, n, 0);
    assert forall|k: int| 0 <= k < l.len() implies Class::Graphic.holds(#[trigger] l[k]) by {
        assert(l[k] == s[at + k]);
    }
}

/// A task line that is read is as it has to be to be read again.
#[verifier::rlimit(60)]
pub proof fn lemma_task_readable(s: Seq<char>, at: int)
    requires
        0 <= at <= s.len(),
    ensures
        match req_task(s, at) {
            Ok((task, next)) => line_ok(task) && at < next <= s.len(),
            Err(_) => true,
        },
{
    lemma_indent_count(s, at);
    match indent(s, at) {
        Ok((n, from)) => {
            lemma_attribute_readable(s, from);
            match attribute(s, from) {
                Ok((said, next)) => {
                    lemma_link_graphic(s, next);
                    let (l, behind) = line_link(s, next);
                    if is_at(s, next, '\n') {
                        lemma_span(s, next + 1, Class::Blank);
                        lemma_link_graphic(s, span(s, next + 1, Class::Blank));
                    }
                    lemma_span(s, behind, Class::Blank);
                    let end = span(s, behind, Class::Blank);
                    if l is Some && (end >= s.len() || s[end] == '\n') {
                        if link(s, next) is Some {
                            lemma_link_reads(s, next);
                        } else {
                            lemma_link_reads(s, span(s, next + 1, Class::Blank));
                        }
                    }
                },
                Err(_) => {},
            }
        },
        Err(_) => {},
    }
}

/// Task lines that are read are as they have to be to be read again.
pub proof fn lemma_tasks_readable(s: Seq<char>, at: int)
    requires
        0 <= at <= s.len(),
    ensures
        match req_tasks(s, at) {
            Ok((tasks, end)) => forall|i: int| 0 <= i < tasks.len() ==> line_ok(#[trigger] tasks[i]),
            Err(_) => true,
        },
    decreases s.len() - at,
{
    if at < s.len() {
        lemma_task_readable(s, at);
        match req_task(s, at) {
            Ok((first, next)) => {
                lemma_tasks_readable(s, next);
            },
            Err(e) => {
                lemma_empty_lines(s, at);
                let next = empty_lines(s, at);
                if at < next <= s.len() {
                    lemma_tasks_readable(s, next);
                }
            },
        }
    }
}

/// Empty lines end within the text.
proof fn lemma_empty_lines(s: Seq<char>, at: int)
    requires
        0 <= at <= s.len(),
    ensures
        at <= empty_lines(s, at) <= s.len(),
    decreases s.len() - at,
{
    if at < s.len() {
        lemma_span(s, at, Class::Blank);
        match crate::batch::empty_line(s, at) {
            Some(next) => {
                if at < next <= s.len() {
                    lemma_empty_lines(s, next);
                }
            },
            None => {},
        }
    }
}

/// Where a text holds task lines as they are written, up to its end,
/// the lines are read there, the last first.
#[verifier::rlimit(60)]
pub proof fn lemma_lines_in(t: Seq<char>, bt: int, tasks: Seq<ReqTaskView>, from: int)
    requires
        0 <= from <= tasks.len(),
        forall|i: int| 0 <= i < tasks.len() ==> line_ok(#[trigger] tasks[i]),
        holds(t, bt, lines_text(tasks, from)),
        bt + lines_text(tasks, from).len() == t.len(),
    ensures
        req_tasks(t, bt) == Ok::<(Seq<ReqTaskView>, int), ParseError>(
            (tasks.skip(from).reverse(), t.len() as int),
        ),
        from < tasks.len() ==> link(t, span(t, bt, Class::Blank)) is None && bt < t.len(),
    decreases tasks.len() - from,
{
    if from == tasks.len() {
        assert(tasks.skip(from).reverse() =~= Seq::<ReqTaskView>::empty());
    } else {
        let line = tasks[from];
        assert(line_ok(line));
        if from == tasks.len() - 1 {
            lemma_task_in(t, bt, line);
            assert(tasks.skip(from).reverse() =~= Seq::<ReqTaskView>::empty().push(line));
            assert(req_tasks(t, t.len() as int) == Ok::<(Seq<ReqTaskView>, int), ParseError>(
                (Seq::empty(), t.len() as int),
            ));
        } else {
            let feed = seq!['\n'];
            let rest = lines_text(tasks, from + 1);
            assert(lines_text(tasks, from) =~= task_text(line) + (feed + rest));
            lemma_holds_both(t, bt, task_text(line), feed + rest);
            let m = bt + task_text(line).len();
            lemma_holds_both(t, m, feed, rest);
            lemma_holds_alike(t, m, feed);
            assert(t[m + 0] == feed[0]);
            lemma_lines_in(t, m + 1, tasks, from + 1);
            lemma_task_in(t, bt, line);
            assert(tasks.skip(from).reverse() =~= tasks.skip(from + 1).reverse().push(line));
        }
    }
}

/// The task lines of a request are read last line first, then put in the order of the text.
proof fn lemma_req_tasks(s: Seq<char>, tasks: Seq<ReqTaskView>, end: int) -> (back: Seq<ReqTaskView>)
    requires
        req(s, 0) == Ok::<(ReqView, int), ParseError>((ReqView::Tasks(tasks), end)),
    ensures
        req_tasks(s, 0) == Ok::<(Seq<ReqTaskView>, int), ParseError>((back, end)),
        tasks == back.reverse(),
        back == tasks.reverse(),
{
    let back = match req_tasks(s, 0) {
        Ok((back, _)) => back,
        Err(_) => Seq::empty(),
    };
    assert(back.reverse().reverse() =~= back);
    back
}

/// Lines that are all as they have to be are so in the opposite order.
proof fn lemma_reverse_ok(back: Seq<ReqTaskView>)
    requires
        forall|i: int| 0 <= i < back.len() ==> line_ok(#[trigger] back[i]),
    ensures
        forall|i: int| 0 <= i < back.reverse().len() ==> line_ok(#[trigger] back.reverse()[i]),
{
    let tasks = back.reverse();
    assert forall|i: int| 0 <= i < tasks.len() implies line_ok(#[trigger] tasks[i]) by {
        assert(tasks[i] == back[back.len() - 1 - i]);
    }
}

/// The task lines of a request that was read are as they have to be to be read again.
pub proof fn lemma_read_lines_ok(s: Seq<char>, tasks: Seq<ReqTaskView>, end: int)
    requires
        req(s, 0) == Ok::<(ReqView, int), ParseError>((ReqView::Tasks(tasks), end)),
    ensures
        forall|i: int| 0 <= i < tasks.len() ==> line_ok(#[trigger] tasks[i]),
{
    let back = lemma_req_tasks(s, tasks, end);
    lemma_tasks_readable(s, 0);
    lemma_reverse_ok(back);
}

/// Task lines that were read, written down again, read as the same
/// lines, unless what is written starts with a slash: that is read as a command.
#[verifier::rlimit(60)]
pub proof fn lemma_tasks_read_again(s: Seq<char>, tasks: Seq<ReqTaskView>, end: int)
    requires
        req(s, 0) == Ok::<(ReqView, int), ParseError>((ReqView::Tasks(tasks), end)),
        lines_text(tasks, 0).len() > 0 ==> lines_text(tasks, 0)[0] != '/',
    ensures
        req(lines_text(tasks, 0), 0) == Ok::<(ReqView, int), ParseError>(
            (ReqView::Tasks(tasks), lines_text(tasks, 0).len() as int),
        ),
{
    let text = lines_text(tasks, 0);
    let back = lemma_req_tasks(s, tasks, end);
    lemma_tasks_readable(s, 0);
    lemma_reverse_ok(back);
    assert(holds(text, 0, text)) by {
        assert(text.subrange(0, text.len() as int) =~= text);
    }
    lemma_lines_in(text, 0, tasks, 0);
    assert(tasks.skip(0) =~= tasks);
    assert(req_tasks(text, 0) == Ok::<(Seq<ReqTaskView>, int), ParseError>((back, text.len() as int)));
    assert(!is_at(text, 0, '/'));
}

} // verus!
