//! The words of the request language: numbers, runs of characters, links,
//! quoted expressions, dates and times, and the flags of a search.

use vstd::prelude::*;
use vstd::string::StringExecFns;
use crate::errors::{ParseError, ParseErrorKind};
use crate::pattern::{regex_compiles, compiles};
use crate::request::{Boolean, Decimal, Expression, ExpressionView, no_boolean};
use crate::text::{Class, span, run, slice, string_of, lemma_span};
use crate::time::{EasyDate, EasyDateTime, EasyTime};

verus! {

/// That the text from `at` cannot be read, and why.
pub open spec fn failure<T>(kind: ParseErrorKind, at: int) -> Result<(T, int), ParseError> {
    Err(ParseError { kind, position: at as usize })
}

/// What was found is what the grammar gives: the same value and the same
/// place to go on from, or the same error.
pub open spec fn same<T: DeepView>(
    found: Result<(T, usize), ParseError>,
    parsed: Result<(T::V, int), ParseError>,
) -> bool {
    match (found, parsed) {
        (Ok((got, end)), Ok((value, next))) => got.deep_view() == value && end == next,
        (Err(a), Err(b)) => a == b,
        _ => false,
    }
}

/// What was found is what the grammar gives: the same value and the same
/// place to go on from, or nothing.
pub open spec fn same_opt<T: DeepView>(found: Option<(T, usize)>, parsed: Option<(T::V, int)>) -> bool {
    match (found, parsed) {
        (Some((got, end)), Some((value, next))) => got.deep_view() == value && end == next,
        (None, None) => true,
        _ => false,
    }
}

/// What was found ends after `at` and within the text.
pub open spec fn advances<T>(found: Result<(T, usize), ParseError>, at: usize, len: nat) -> bool {
    match found {
        Ok((_, end)) => at < end <= len,
        Err(_) => true,
    }
}

/// What was found ends after `at` and within the text.
pub open spec fn advances_opt<T>(found: Option<(T, usize)>, at: usize, len: nat) -> bool {
    match found {
        Some((_, end)) => at < end <= len,
        None => true,
    }
}

/// The character at `at` is `c`.
pub open spec fn is_at(s: Seq<char>, at: int, c: char) -> bool {
    0 <= at < s.len() && s[at] == c
}

/// The text goes on at `at` with `word`.
pub open spec fn starts_with(s: Seq<char>, at: int, word: Seq<char>) -> bool {
    0 <= at && at + word.len() <= s.len() && s.subrange(at, at + word.len()) == word
}

/// Whether the character at `at` is `c`.
pub fn at_is(s: &Vec<char>, at: usize, c: char) -> (yes: bool)
    ensures
        yes == is_at(s@, at as int, c),
{
    at < s.len() && s[at] == c
}

/// Whether the text goes on at `at` with `word`.
pub fn begins(s: &Vec<char>, at: usize, word: &Vec<char>) -> (yes: bool)
    ensures
        yes == starts_with(s@, at as int, word@),
{
    if at > s.len() || word.len() > s.len() - at {
        return false;
    }
    let mut j: usize = 0;
    while j < word.len()
        invariant
            j <= word.len(),
            at + word.len() <= s.len(),
            forall|k: int| 0 <= k < j ==> s@[at + k] == word@[k],
        decreases word.len() - j,
    {
        if s[at + j] != word[j] {
            assert(s@.subrange(at as int, at + word.len())[j as int] != word@[j as int]);
            return false;
        }
        j += 1;
    }
    assert(s@.subrange(at as int, at + word.len()) =~= word@);
    true
}

/// The number that the digit `c` writes.
pub open spec fn digit_value(c: char) -> int {
    c as u32 - 0x30
}

/// The number that the digits from `from` up to `to` write.
pub open spec fn digits_value(s: Seq<char>, from: int, to: int) -> int
    decreases to - from,
{
    if to <= from {
        0
    } else {
        digits_value(s, from, to - 1) * 10 + digit_value(s[to - 1])
    }
}

/// A number without sign: one digit or more. It has to fit in 32 bits.
pub open spec fn non_nega_i(s: Seq<char>, at: int) -> Result<(i32, int), ParseError> {
    let end = span(s, at, Class::Digit);
    if end <= at {
        failure(ParseErrorKind::UnexpectedChar, at)
    } else if digits_value(s, at, end) > i32::MAX {
        failure(ParseErrorKind::BadNumber, at)
    } else {
        Ok((digits_value(s, at, end) as i32, end))
    }
}

/// A decimal numeral without sign: digits, then a point or none, then
/// digits; one digit at least.
pub open spec fn non_nega_f(s: Seq<char>, at: int) -> Option<(Seq<char>, int)> {
    let whole = span(s, at, Class::Digit);
    let point = if is_at(s, whole, '.') {
        whole + 1
    } else {
        whole
    };
    let end = span(s, point, Class::Digit);
    if whole <= at && end <= point {
        None
    } else {
        Some((s.subrange(at, end), end))
    }
}

/// One character of `class` or more.
pub open spec fn word(s: Seq<char>, at: int, class: Class) -> Option<(Seq<char>, int)> {
    let end = span(s, at, class);
    if end <= at {
        None
    } else {
        Some((s.subrange(at, end), end))
    }
}

/// How a link starts, where it is not secured.
pub open spec fn http() -> Seq<char> {
    seq!['h', 't', 't', 'p', ':', '/', '/']
}

/// How a link starts, where it is secured.
pub open spec fn https() -> Seq<char> {
    seq!['h', 't', 't', 'p', 's', ':', '/', '/']
}

/// A link: one of its two starts, and the printable ASCII characters that follow.
pub open spec fn link(s: Seq<char>, at: int) -> Option<(Seq<char>, int)> {
    if starts_with(s, at, http()) {
        let end = span(s, at + 7, Class::AsciiGraphic);
        Some((s.subrange(at, end), end))
    } else if starts_with(s, at, https()) {
        let end = span(s, at + 8, Class::AsciiGraphic);
        Some((s.subrange(at, end), end))
    } else {
        None
    }
}

/// There are `depth` hash signs at `at`.
pub open spec fn hashes(s: Seq<char>, at: int, depth: int) -> bool {
    0 <= at && at + depth <= s.len() && forall|k: int| at <= k < at + depth ==> #[trigger] s[k] == '#'
}

/// A quotation of `depth` opens at `at`: so many hash signs, and a double quote.
pub open spec fn opens(s: Seq<char>, at: int, depth: int) -> bool {
    hashes(s, at, depth) && is_at(s, at + depth, '"')
}

/// A quotation of `depth` closes at `at`: a double quote, and so many hash signs.
pub open spec fn closes(s: Seq<char>, at: int, depth: int) -> bool {
    is_at(s, at, '"') && hashes(s, at + 1, depth)
}

/// Where a quotation of `depth` first closes at or after `at`; the length of the text where it never does.
pub open spec fn close_from(s: Seq<char>, at: int, depth: int) -> int
    decreases s.len() - at,
{
    if at < 0 || at >= s.len() {
        s.len() as int
    } else if closes(s, at, depth) {
        at
    } else {
        close_from(s, at + 1, depth)
    }
}

/// The quotation of `depth` that opens at `at`: what lies before the first place where it closes.
pub open spec fn quoted_deep(s: Seq<char>, at: int, depth: int) -> Result<(Seq<char>, int), ParseError> {
    let body = at + depth + 1;
    let end = close_from(s, body, depth);
    if end >= s.len() {
        failure(ParseErrorKind::UnterminatedQuote, at)
    } else {
        Ok((s.subrange(body, end), end + 1 + depth))
    }
}

/// A quotation: text between double quotes, with up to four hash signs
/// before the first and as many behind the second. Without an opening it is
/// an unexpected character; opened and never closed it is unterminated.
pub open spec fn quoted(s: Seq<char>, at: int) -> Result<(Seq<char>, int), ParseError> {
    if opens(s, at, 0) {
        quoted_deep(s, at, 0)
    } else if opens(s, at, 1) {
        quoted_deep(s, at, 1)
    } else if opens(s, at, 2) {
        quoted_deep(s, at, 2)
    } else if opens(s, at, 3) {
        quoted_deep(s, at, 3)
    } else if opens(s, at, 4) {
        quoted_deep(s, at, 4)
    } else {
        failure(ParseErrorKind::UnexpectedChar, at)
    }
}

/// The words of `s` from `at` on: its runs of characters that are not white space.
pub open spec fn words_from(s: Seq<char>, at: int) -> Seq<Seq<char>>
    decreases s.len() - at,
{
    let from = span(s, at, Class::Space);
    let to = span(s, from, Class::Solid);
    if at < 0 || from >= s.len() || to <= from || to <= at || to > s.len() {
        Seq::empty()
    } else {
        seq![s.subrange(from, to)] + words_from(s, to)
    }
}

/// An expression: a quotation, read as words; or the letter `r` and a
/// quotation, read as a regular expression, which has to compile.
pub open spec fn expression(s: Seq<char>, at: int) -> Result<(ExpressionView, int), ParseError> {
    match quoted(s, at) {
        Ok((text, next)) => Ok((ExpressionView::Words(words_from(text, 0)), next)),
        Err(e) => if e.kind == ParseErrorKind::UnterminatedQuote {
            Err(e)
        } else if is_at(s, at, 'r') {
            match quoted(s, at + 1) {
                Ok((pattern, next)) => regex_checked(pattern, regex_compiles(pattern), at, next),
                Err(_) => failure(ParseErrorKind::UnexpectedChar, at),
            }
        } else {
            failure(ParseErrorKind::UnexpectedChar, at)
        },
    }
}

/// The regular expression `pattern` that was read from `at` up to `next`,
/// where `compiles` says whether it can be compiled.
pub open spec fn regex_checked(pattern: Seq<char>, compiles: bool, at: int, next: int) -> Result<
    (ExpressionView, int),
    ParseError,
> {
    if compiles {
        Ok((ExpressionView::Regex(pattern), next))
    } else {
        failure(ParseErrorKind::BadRegex, at)
    }
}

/// A number, or nothing where no digit stands; `None` where the number is too large.
pub open spec fn opt_number(s: Seq<char>, at: int) -> Option<(Option<i32>, int)> {
    match non_nega_i(s, at) {
        Ok((n, next)) => Some((Some(n), next)),
        Err(e) => if e.kind == ParseErrorKind::BadNumber {
            None
        } else {
            Some((None, at))
        },
    }
}

/// A date: year, month and day between two slashes, each of them written or not.
pub open spec fn date(s: Seq<char>, at: int) -> Option<(EasyDate, int)> {
    match opt_number(s, at) {
        Some((y, a)) if is_at(s, a, '/') => match opt_number(s, a + 1) {
            Some((m, b)) if is_at(s, b, '/') => match opt_number(s, b + 1) {
                Some((d, c)) => Some((EasyDate { y, m, d }, c)),
                None => None,
            },
            _ => None,
        },
        _ => None,
    }
}

/// A time of day: hour and minute around a colon, each of them written or not.
pub open spec fn time(s: Seq<char>, at: int) -> Option<(EasyTime, int)> {
    match opt_number(s, at) {
        Some((h, a)) if is_at(s, a, ':') => match opt_number(s, a + 1) {
            Some((m, b)) => Some((EasyTime { h, m }, b)),
            None => None,
        },
        _ => None,
    }
}

/// A date, the letter `T` and a time; or a date; or a time.
pub open spec fn datetime(s: Seq<char>, at: int) -> Option<(EasyDateTime, int)> {
    match date(s, at) {
        Some((d, a)) => match (if is_at(s, a, 'T') {
            time(s, a + 1)
        } else {
            None
        }) {
            Some((t, b)) => Some((EasyDateTime { date: Some(d), time: Some(t) }, b)),
            None => Some((EasyDateTime { date: Some(d), time: None }, a)),
        },
        None => match time(s, at) {
            Some((t, b)) => Some((EasyDateTime { date: None, time: Some(t) }, b)),
            None => None,
        },
    }
}

/// `flags` with the flag that `letter` names set to `value`.
pub open spec fn with_flag(flags: Boolean, letter: char, value: bool) -> Boolean {
    if letter == 'a' {
        Boolean { is_archived: Some(value), ..flags }
    } else if letter == 's' {
        Boolean { is_starred: Some(value), ..flags }
    } else if letter == 'l' {
        Boolean { is_leaf: Some(value), ..flags }
    } else if letter == 'r' {
        Boolean { is_root: Some(value), ..flags }
    } else {
        flags
    }
}

/// `c` names a flag: archived, starred, leaf or root.
pub open spec fn is_flag(c: char) -> bool {
    c == 'a' || c == 's' || c == 'l' || c == 'r'
}

/// Flags, one letter each, an exclamation mark before those that are
/// ruled out. Of two that name the same property the first counts.
pub open spec fn booleans(s: Seq<char>, at: int) -> Option<(Boolean, int)>
    decreases s.len() - at,
{
    let letter = if is_at(s, at, '!') {
        at + 1
    } else {
        at
    };
    if 0 <= at <= letter < s.len() && is_flag(s[letter]) {
        match booleans(s, letter + 1) {
            Some((more, next)) => Some((with_flag(more, s[letter], letter == at), next)),
            None => Some((with_flag(no_boolean(), s[letter], letter == at), letter + 1)),
        }
    } else {
        None
    }
}

/// The digits before `to` write a number that only grows with more digits.
proof fn lemma_digits_grow(s: Seq<char>, from: int, to: int)
    requires
        0 <= from <= to < s.len(),
        forall|k: int| from <= k <= to ==> Class::Digit.holds(#[trigger] s[k]),
    ensures
        0 <= digits_value(s, from, to) <= digits_value(s, from, to + 1),
        digits_value(s, from, to + 1) == digits_value(s, from, to) * 10 + digit_value(s[to]),
        0 <= digit_value(s[to]) <= 9,
    decreases to - from,
{
    assert(Class::Digit.holds(s[to]));
    if from < to {
        lemma_digits_grow(s, from, to - 1);
    }
}

/// A number without sign (see `non_nega_i`).
pub fn a_non_nega_i(s: &Vec<char>, at: usize) -> (found: Result<(i32, usize), ParseError>)
    requires
        at <= s.len(),
    ensures
        same(found, non_nega_i(s@, at as int)),
        advances(found, at, s@.len()),
{
    let end = run(s, at, Class::Digit);
    if end == at {
        return Err(ParseError { kind: ParseErrorKind::UnexpectedChar, position: at });
    }
    proof {
        lemma_span(s@, at as int, Class::Digit);
    }
    let mut value: i64 = 0;
    let mut big = false;
    let mut k = at;
    while k < end
        invariant
            at <= k <= end <= s.len(),
            forall|j: int| at <= j < end ==> Class::Digit.holds(#[trigger] s@[j]),
            !big ==> value == digits_value(s@, at as int, k as int) && 0 <= value <= i32::MAX,
            big ==> digits_value(s@, at as int, k as int) > i32::MAX,
        decreases end - k,
    {
        proof {
            lemma_digits_grow(s@, at as int, k as int);
        }
        let digit = (s[k] as u32 - 0x30) as i64;
        if !big {
            value = value * 10 + digit;
            if value > 2_147_483_647 {
                big = true;
            }
        }
        k += 1;
    }
    if big {
        Err(ParseError { kind: ParseErrorKind::BadNumber, position: at })
    } else {
        Ok((value as i32, end))
    }
}

/// A decimal numeral without sign (see `non_nega_f`).
pub fn a_non_nega_f(s: &Vec<char>, at: usize) -> (found: Option<(Decimal, usize)>)
    requires
        at <= s.len(),
    ensures
        same_opt(found, non_nega_f(s@, at as int)),
        advances_opt(found, at, s@.len()),
{
    let whole = run(s, at, Class::Digit);
    let point = if at_is(s, whole, '.') {
        whole + 1
    } else {
        whole
    };
    let end = run(s, point, Class::Digit);
    if whole == at && end == point {
        None
    } else {
        Some((Decimal { text: string_of(&slice(s, at, end)) }, end))
    }
}

/// One character of `class` or more (see `word`).
pub fn a_word(s: &Vec<char>, at: usize, class: Class) -> (found: Option<(String, usize)>)
    requires
        at <= s.len(),
    ensures
        same_opt(found, word(s@, at as int, class)),
        advances_opt(found, at, s@.len()),
{
    let end = run(s, at, class);
    if end == at {
        None
    } else {
        Some((string_of(&slice(s, at, end)), end))
    }
}

/// One printable ASCII character or more.
pub fn a_ascii_graphics(s: &Vec<char>, at: usize) -> (found: Option<(String, usize)>)
    requires
        at <= s.len(),
    ensures
        same_opt(found, word(s@, at as int, Class::AsciiGraphic)),
        advances_opt(found, at, s@.len()),
{
    a_word(s, at, Class::AsciiGraphic)
}

/// One character or more that is neither white space nor a control character.
pub fn a_graphics(s: &Vec<char>, at: usize) -> (found: Option<(String, usize)>)
    requires
        at <= s.len(),
    ensures
        same_opt(found, word(s@, at as int, Class::Graphic)),
        advances_opt(found, at, s@.len()),
{
    a_word(s, at, Class::Graphic)
}

/// One graphic character or more, none of them a square bracket.
pub fn a_graphics_not_joint(s: &Vec<char>, at: usize) -> (found: Option<(String, usize)>)
    requires
        at <= s.len(),
    ensures
        same_opt(found, word(s@, at as int, Class::Plain)),
        advances_opt(found, at, s@.len()),
{
    a_word(s, at, Class::Plain)
}

/// The white space other than line feeds at `at`: where it ends.
pub fn a_inline_spaces(s: &Vec<char>, at: usize) -> (end: usize)
    requires
        at <= s.len(),
    ensures
        end == span(s@, at as int, Class::Blank),
        at <= end <= s.len(),
{
    run(s, at, Class::Blank)
}

/// One white space or more, none of them a line feed: where they end.
pub fn a_inline_spaces1(s: &Vec<char>, at: usize) -> (end: Option<usize>)
    requires
        at <= s.len(),
    ensures
        end == (if span(s@, at as int, Class::Blank) > at {
            Some(span(s@, at as int, Class::Blank) as usize)
        } else {
            None
        }),
        end is Some ==> at < end->0 <= s.len(),
{
    let end = run(s, at, Class::Blank);
    if end > at {
        Some(end)
    } else {
        None
    }
}

/// One white space or more: where they end.
pub fn a_spaces1(s: &Vec<char>, at: usize) -> (end: Option<usize>)
    requires
        at <= s.len(),
    ensures
        end == (if span(s@, at as int, Class::Space) > at {
            Some(span(s@, at as int, Class::Space) as usize)
        } else {
            None
        }),
        end is Some ==> at < end->0 <= s.len(),
{
    let end = run(s, at, Class::Space);
    if end > at {
        Some(end)
    } else {
        None
    }
}

/// A link (see `link`).
pub fn a_link(s: &Vec<char>, at: usize) -> (found: Option<(String, usize)>)
    requires
        at <= s.len(),
    ensures
        same_opt(found, link(s@, at as int)),
        advances_opt(found, at, s@.len()),
{
    let plain: Vec<char> = vec!['h', 't', 't', 'p', ':', '/', '/'];
    let secure: Vec<char> = vec!['h', 't', 't', 'p', 's', ':', '/', '/'];
    assert(plain@ =~= http());
    assert(secure@ =~= https());
    if begins(s, at, &plain) {
        let end = run(s, at + 7, Class::AsciiGraphic);
        Some((string_of(&slice(s, at, end)), end))
    } else if begins(s, at, &secure) {
        let end = run(s, at + 8, Class::AsciiGraphic);
        Some((string_of(&slice(s, at, end)), end))
    } else {
        None
    }
}

/// Whether there are `depth` hash signs at `at`.
fn hashes_at(s: &Vec<char>, at: usize, depth: usize) -> (yes: bool)
    requires
        depth <= 4,
    ensures
        yes == hashes(s@, at as int, depth as int),
{
    if at > s.len() || depth > s.len() - at {
        return false;
    }
    let mut k: usize = 0;
    while k < depth
        invariant
            k <= depth,
            at + depth <= s.len(),
            forall|j: int| at <= j < at + k ==> #[trigger] s@[j] == '#',
        decreases depth - k,
    {
        if s[at + k] != '#' {
            return false;
        }
        k += 1;
    }
    true
}

/// The quotation of `depth` that opens at `at`.
fn a_quoted_deep(s: &Vec<char>, at: usize, depth: usize) -> (found: Result<(String, usize), ParseError>)
    requires
        opens(s@, at as int, depth as int),
        depth <= 4,
    ensures
        same(found, quoted_deep(s@, at as int, depth as int)),
        advances(found, at, s@.len()),
{
    let total = s.len();
    let body = at + depth + 1;
    let mut end = body;
    while end < s.len()
        invariant
            body <= end <= s.len(),
            body == at + depth + 1,
            depth <= 4,
            close_from(s@, body as int, depth as int) == close_from(s@, end as int, depth as int),
        decreases s.len() - end,
    {
        if s[end] == '"' && hashes_at(s, end + 1, depth) {
            return Ok((string_of(&slice(s, body, end)), end + 1 + depth));
        }
        end += 1;
    }
    Err(ParseError { kind: ParseErrorKind::UnterminatedQuote, position: at })
}

/// A quotation (see `quoted`).
pub fn a_quoted(s: &Vec<char>, at: usize) -> (found: Result<(String, usize), ParseError>)
    requires
        at <= s.len(),
    ensures
        same(found, quoted(s@, at as int)),
        advances(found, at, s@.len()),
{
    let mut depth: usize = 0;
    while depth <= 4
        invariant
            depth <= 5,
            at <= s.len(),
            forall|d: int| 0 <= d < depth ==> !opens(s@, at as int, d),
        decreases 5 - depth,
    {
        if hashes_at(s, at, depth) && at_is(s, at + depth, '"') {
            return a_quoted_deep(s, at, depth);
        }
        depth += 1;
    }
    Err(ParseError { kind: ParseErrorKind::UnexpectedChar, position: at })
}

/// The words of `text`: its runs of characters that are not white space.
pub fn split_words(text: &Vec<char>) -> (words: Vec<String>)
    ensures
        words.deep_view() == words_from(text@, 0),
{
    let mut words: Vec<String> = Vec::new();
    let mut at: usize = 0;
    assert(words.deep_view() =~= Seq::<Seq<char>>::empty());
    loop
        invariant_except_break
            at <= text.len(),
            words_from(text@, 0) == words.deep_view() + words_from(text@, at as int),
        ensures
            words.deep_view() == words_from(text@, 0),
        decreases text.len() - at,
    {
        let from = run(text, at, Class::Space);
        let to = run(text, from, Class::Solid);
        if from >= text.len() || to <= from {
            assert(words.deep_view() + Seq::<Seq<char>>::empty() =~= words.deep_view());
            break ;
        }
        let word = string_of(&slice(text, from, to));
        let ghost before = words.deep_view();
        let ghost fresh = word@;
        words.push(word);
        proof {
            let rest = words_from(text@, to as int);
            assert(words.deep_view() =~= before + seq![fresh]);
            assert((before + seq![fresh]) + rest =~= before + (seq![fresh] + rest));
        }
        at = to;
    }
    words
}

/// The regular expression `pattern`, read from `at` up to `next`, where
/// `compiles` says whether it can be compiled: an expression where it can,
/// and a bad regular expression at `at` where it cannot.
pub fn regex_atom(pattern: String, compiles: bool, at: usize, next: usize) -> (found: Result<
    (Expression, usize),
    ParseError,
>)
    ensures
        same(found, regex_checked(pattern@, compiles, at as int, next as int)),
{
    if compiles {
        Ok((Expression::Regex(pattern), next))
    } else {
        Err(ParseError { kind: ParseErrorKind::BadRegex, position: at })
    }
}

/// An expression (see `expression`).
pub fn a_expression(s: &Vec<char>, at: usize) -> (found: Result<(Expression, usize), ParseError>)
    requires
        at <= s.len(),
    ensures
        same(found, expression(s@, at as int)),
        advances(found, at, s@.len()),
{
    match a_quoted(s, at) {
        Ok((text, next)) => {
            let words = split_words(&crate::text::chars_of(text.as_str()));
            Ok((Expression::Words(words), next))
        },
        Err(e) => {
            if e.kind == ParseErrorKind::UnterminatedQuote {
                Err(e)
            } else if at_is(s, at, 'r') {
                match a_quoted(s, at + 1) {
                    Ok((pattern, next)) => {
                        let valid = compiles(pattern.as_str());
                        regex_atom(pattern, valid, at, next)
                    },
                    Err(_) => Err(ParseError { kind: ParseErrorKind::UnexpectedChar, position: at }),
                }
            } else {
                Err(ParseError { kind: ParseErrorKind::UnexpectedChar, position: at })
            }
        },
    }
}

/// A number, or nothing where no digit stands (see `opt_number`).
fn a_opt_number(s: &Vec<char>, at: usize) -> (found: Option<(Option<i32>, usize)>)
    requires
        at <= s.len(),
    ensures
        same_opt(found, opt_number(s@, at as int)),
        match found {
            Some((_, end)) => at <= end <= s.len(),
            None => true,
        },
{
    match a_non_nega_i(s, at) {
        Ok((n, next)) => Some((Some(n), next)),
        Err(e) => {
            if e.kind == ParseErrorKind::BadNumber {
                None
            } else {
                Some((None, at))
            }
        },
    }
}

/// A date (see `date`).
pub fn a_date(s: &Vec<char>, at: usize) -> (found: Option<(EasyDate, usize)>)
    requires
        at <= s.len(),
    ensures
        same_opt(found, date(s@, at as int)),
        advances_opt(found, at, s@.len()),
{
    let (y, a) = match a_opt_number(s, at) {
        Some(found) => found,
        None => {
            return None;
        },
    };
    if !at_is(s, a, '/') {
        return None;
    }
    let (m, b) = match a_opt_number(s, a + 1) {
        Some(found) => found,
        None => {
            return None;
        },
    };
    if !at_is(s, b, '/') {
        return None;
    }
    match a_opt_number(s, b + 1) {
        Some((d, c)) => Some((EasyDate { y, m, d }, c)),
        None => None,
    }
}

/// A time of day (see `time`).
pub fn a_time(s: &Vec<char>, at: usize) -> (found: Option<(EasyTime, usize)>)
    requires
        at <= s.len(),
    ensures
        same_opt(found, time(s@, at as int)),
        advances_opt(found, at, s@.len()),
{
    let (h, a) = match a_opt_number(s, at) {
        Some(found) => found,
        None => {
            return None;
        },
    };
    if !at_is(s, a, ':') {
        return None;
    }
    match a_opt_number(s, a + 1) {
        Some((m, b)) => Some((EasyTime { h, m }, b)),
        None => None,
    }
}

/// A date and a time, a date, or a time (see `datetime`).
pub fn a_datetime(s: &Vec<char>, at: usize) -> (found: Option<(EasyDateTime, usize)>)
    requires
        at <= s.len(),
    ensures
        same_opt(found, datetime(s@, at as int)),
        advances_opt(found, at, s@.len()),
{
    match a_date(s, at) {
        Some((d, a)) => {
            let later = if at_is(s, a, 'T') {
                a_time(s, a + 1)
            } else {
                None
            };
            match later {
                Some((t, b)) => Some((EasyDateTime { date: Some(d), time: Some(t) }, b)),
                None => Some((EasyDateTime { date: Some(d), time: None }, a)),
            }
        },
        None => match a_time(s, at) {
            Some((t, b)) => Some((EasyDateTime { date: None, time: Some(t) }, b)),
            None => None,
        },
    }
}

/// Flags (see `booleans`).
pub fn a_boolean(s: &Vec<char>, at: usize) -> (found: Option<(Boolean, usize)>)
    requires
        at <= s.len(),
    ensures
        same_opt(found, booleans(s@, at as int)),
        advances_opt(found, at, s@.len()),
    decreases s.len() - at,
{
    let letter = if at_is(s, at, '!') {
        at + 1
    } else {
        at
    };
    if letter < s.len() && (s[letter] == 'a' || s[letter] == 's' || s[letter] == 'l' || s[letter] == 'r') {
        let c = s[letter];
        let value = letter == at;
        let (more, next) = match a_boolean(s, letter + 1) {
            Some(found) => found,
            None => (Boolean::default(), letter + 1),
        };
        let flags = if c == 'a' {
            Boolean { is_archived: Some(value), ..more }
        } else if c == 's' {
            Boolean { is_starred: Some(value), ..more }
        } else if c == 'l' {
            Boolean { is_leaf: Some(value), ..more }
        } else {
            Boolean { is_root: Some(value), ..more }
        };
        Some((flags, next))
    } else {
        None
    }
}

} // verus!
