//! What is written down again of a command reads as what was read: the proofs.

use vstd::prelude::*;
use crate::command::{
    allocation, allocations, ascii_word, coffee, gap, password_set, req_command, req_modify, req_user, timescale,
    tutorial,
};
use crate::errors::ParseError;
use crate::lexer::{is_at, non_nega_i, word};
use crate::parser::{parsed, req};
use crate::render::{
    allocation_text, allocations_text, command_text, condition_text, modify_text, plain_attribute, request_text,
    user_text,
};
use crate::reparse::{
    holds, lemma_holds_alike, lemma_holds_both, lemma_number_reads, lemma_number_sound, lemma_span_run,
    lemma_read_lines_ok, lemma_tasks_read_again, line_ok,
};
use crate::request::{
    ConditionView, PasswordSetView, ReqAllocation, ReqCommandView, ReqModifyView, ReqUserView, ReqView, Timescale,
};
use crate::requery::{lemma_condition_in, lemma_condition_ok, searchable};
use crate::washer::washed;
use crate::written::{plain_request, plain_window, plain_windows, writable};
use crate::text::{Class, lemma_span, numeral, span};

verus! {

/// A word of printable ASCII characters.
pub open spec fn ascii(w: Seq<char>) -> bool {
    w.len() > 0 && forall|k: int| 0 <= k < w.len() ==> Class::AsciiGraphic.holds(#[trigger] w[k])
}

/// A daily window that was read: none of its numbers is negative.
pub open spec fn window_ok(a: ReqAllocation) -> bool {
    a.open_h >= 0 && a.open_m >= 0 && a.hours >= 0
}

/// One space stands at `at`, and no white space behind it.
pub open spec fn one_space(t: Seq<char>, at: int) -> bool {
    0 <= at && at + 1 < t.len() && t[at] == ' ' && !Class::Space.holds(t[at + 1])
}

/// One space is read as a gap.
pub proof fn lemma_gap_in(t: Seq<char>, at: int)
    requires
        one_space(t, at),
    ensures
        gap(t, at) == Ok::<((), int), ParseError>(((), at + 1)),
        span(t, at, Class::Space) == at + 1,
{
    assert(span(t, at + 1, Class::Space) == at + 1);
}

/// Where a text holds a word of printable ASCII characters, and none
/// behind it, the word is read there.
pub proof fn lemma_ascii_in(t: Seq<char>, p: int, w: Seq<char>)
    requires
        ascii(w),
        holds(t, p, w),
        p + w.len() < t.len() ==> !Class::AsciiGraphic.holds(t[p + w.len()]),
    ensures
        ascii_word(t, p) == Ok::<(Seq<char>, int), ParseError>((w, p + w.len())),
        !Class::Space.holds(t[p]),
{
    lemma_holds_alike(t, p, w);
    assert forall|i: int| 0 <= i < w.len() implies Class::AsciiGraphic.holds(#[trigger] t[p + i]) by {
        assert(t[p + i] == w[i]);
    }
    lemma_span_run(t, p, w.len() as int, Class::AsciiGraphic);
    assert(t[p + 0] == w[0]);
}

/// A word of printable ASCII characters that is read is one.
pub proof fn lemma_ascii_ok(s: Seq<char>, at: int)
    requires
        0 <= at <= s.len(),
    ensures
        match ascii_word(s, at) {
            Ok((w, next)) => ascii(w) && at < next <= s.len(),
            Err(_) => true,
        },
{
    lemma_span(s, at, Class::AsciiGraphic);
    match word(s, at, Class::AsciiGraphic) {
        Some((w, next)) => {
            assert forall|k: int| 0 <= k < w.len() implies Class::AsciiGraphic.holds(#[trigger] w[k]) by {
                assert(w[k] == s[at + k]);
            }
        },
        None => {},
    }
}

/// Where a text holds a daily window as it is written, the window is read there.
pub proof fn lemma_allocation_in(t: Seq<char>, p: int, a: ReqAllocation)
    requires
        window_ok(a),
        holds(t, p, allocation_text(a)),
    ensures
        allocation(t, p) == Ok::<(ReqAllocation, int), ParseError>((a, p + allocation_text(a).len())),
        allocation_text(a).len() > 0,
        Class::Digit.holds(t[p]),
{
    let h = numeral(a.open_h as int);
    let m = numeral(a.open_m as int);
    let n = numeral(a.hours as int);
    let colon = seq![':'];
    let dash = seq!['-'];
    let hh = seq!['h'];
    assert(allocation_text(a) =~= h + (colon + (m + (dash + (n + hh)))));
    lemma_holds_both(t, p, h, colon + (m + (dash + (n + hh))));
    let x = p + h.len();
    lemma_holds_both(t, x, colon, m + (dash + (n + hh)));
    lemma_holds_both(t, x + 1, m, dash + (n + hh));
    let y = x + 1 + m.len();
    lemma_holds_both(t, y, dash, n + hh);
    lemma_holds_both(t, y + 1, n, hh);
    let z = y + 1 + n.len();
    lemma_holds_alike(t, x, colon);
    lemma_holds_alike(t, y, dash);
    lemma_holds_alike(t, z, hh);
    assert(t[x + 0] == colon[0]);
    assert(t[y + 0] == dash[0]);
    assert(t[z + 0] == hh[0]);
    lemma_number_reads(t, p, a.open_h as int);
    lemma_number_reads(t, x + 1, a.open_m as int);
    lemma_number_reads(t, y + 1, a.hours as int);
    crate::reparse::lemma_numeral(a.open_h as int);
    lemma_holds_alike(t, p, h);
    assert(t[p + 0] == h[0]);
}

/// A daily window that is read has no negative number.
pub proof fn lemma_allocation_ok(s: Seq<char>, at: int)
    requires
        0 <= at <= s.len(),
    ensures
        match allocation(s, at) {
            Ok((a, next)) => window_ok(a) && at < next <= s.len(),
            Err(_) => true,
        },
{
    lemma_number_sound(s, at);
    match non_nega_i(s, at) {
        Ok((h, a)) => {
            if is_at(s, a, ':') {
                lemma_number_sound(s, a + 1);
                match non_nega_i(s, a + 1) {
                    Ok((m, b)) => {
                        if is_at(s, b, '-') {
                            lemma_number_sound(s, b + 1);
                        }
                    },
                    Err(_) => {},
                }
            }
        },
        Err(_) => {},
    }
}

/// Where a text holds daily windows as they are written, up to its end, they are read there.
pub proof fn lemma_allocations_in(t: Seq<char>, p: int, windows: Seq<ReqAllocation>, from: int)
    requires
        0 <= from <= windows.len(),
        forall|i: int| 0 <= i < windows.len() ==> window_ok(#[trigger] windows[i]),
        holds(t, p, allocations_text(windows, from)),
        p + allocations_text(windows, from).len() == t.len(),
    ensures
        allocations(t, p) == Ok::<(Seq<ReqAllocation>, int), ParseError>((windows.skip(from), t.len() as int)),
    decreases windows.len() - from,
{
    if from == windows.len() {
        assert(windows.skip(from) =~= Seq::<ReqAllocation>::empty());
        assert(span(t, p, Class::Space) == p);
    } else {
        let w = windows[from];
        assert(window_ok(w));
        let space = seq![' '];
        let rest = allocations_text(windows, from + 1);
        assert(allocations_text(windows, from) =~= space + (allocation_text(w) + rest));
        lemma_holds_both(t, p, space, allocation_text(w) + rest);
        lemma_holds_both(t, p + 1, allocation_text(w), rest);
        lemma_holds_alike(t, p, space);
        assert(t[p + 0] == space[0]);
        lemma_allocation_in(t, p + 1, w);
        assert(one_space(t, p));
        lemma_gap_in(t, p);
        let next = p + 1 + allocation_text(w).len();
        lemma_allocations_in(t, next, windows, from + 1);
        assert(windows.skip(from) =~= seq![w] + windows.skip(from + 1));
    }
}

/// Daily windows that are read have no negative number.
pub proof fn lemma_allocations_ok(s: Seq<char>, at: int)
    requires
        0 <= at <= s.len(),
    ensures
        match allocations(s, at) {
            Ok((windows, next)) => forall|i: int| 0 <= i < windows.len() ==> window_ok(#[trigger] windows[i]),
            Err(_) => true,
        },
    decreases s.len() - at,
{
    lemma_span(s, at, Class::Space);
    let from = span(s, at, Class::Space);
    if at < from <= s.len() {
        lemma_allocation_ok(s, from);
        match allocation(s, from) {
            Ok((first, next)) => {
                if at < next <= s.len() {
                    lemma_allocations_ok(s, next);
                    match allocations(s, next) {
                        Ok((more, end)) => {
                            let all = seq![first] + more;
                            assert forall|i: int| 0 <= i < all.len() implies window_ok(#[trigger] all[i]) by {
                                if i > 0 {
                                    assert(all[i] == more[i - 1]);
                                }
                            }
                        },
                        Err(_) => {},
                    }
                }
            },
            Err(_) => {},
        }
    }
}

/// Where a text holds a scale as it is written, the scale is read there.
pub proof fn lemma_timescale_in(t: Seq<char>, p: int, scale: Timescale)
    requires
        holds(t, p, scale.text()),
    ensures
        timescale(t, p) == Ok::<(Timescale, int), ParseError>((scale, p + scale.text().len())),
        !Class::Space.holds(t[p]),
        scale.text().len() > 0,
{
    let text = scale.text();
    lemma_holds_alike(t, p, text);
    assert(t[p + 0] == text[0]);
    if text.len() > 1 {
        assert(t[p + 1] == text[1]);
    }
    if text.len() > 2 {
        assert(t[p + 2] == text[2]);
    }
}

/// A change to the account that was read.
pub open spec fn modify_ok(m: ReqModifyView) -> bool {
    match m {
        ReqModifyView::Email(address) => ascii(address),
        ReqModifyView::Password(p) => ascii(p.old) && ascii(p.new) && ascii(p.confirmation),
        ReqModifyView::Name(name) => ascii(name),
        ReqModifyView::Timescale(_) => true,
        ReqModifyView::Allocations(windows) => forall|i: int|
            0 <= i < windows.len() ==> window_ok(#[trigger] windows[i]),
    }
}

/// A change to the account that is read is as it has to be to be read again.
pub proof fn lemma_modify_ok(s: Seq<char>, at: int)
    requires
        0 <= at <= s.len(),
    ensures
        match req_modify(s, at) {
            Ok((m, next)) => modify_ok(m),
            Err(_) => true,
        },
{
    if is_at(s, at, 'a') {
        lemma_allocations_ok(s, at + 1);
    } else if at < s.len() {
        lemma_span(s, at + 1, Class::Space);
        match gap(s, at + 1) {
            Ok((_, from)) => {
                lemma_ascii_ok(s, from);
                match ascii_word(s, from) {
                    Ok((old, a)) => {
                        lemma_span(s, a, Class::Space);
                        match gap(s, a) {
                            Ok((_, b)) => {
                                lemma_ascii_ok(s, b);
                                match ascii_word(s, b) {
                                    Ok((new, c)) => {
                                        lemma_span(s, c, Class::Space);
                                        match gap(s, c) {
                                            Ok((_, d)) => {
                                                lemma_ascii_ok(s, d);
                                            },
                                            Err(_) => {},
                                        }
                                    },
                                    Err(_) => {},
                                }
                            },
                            Err(_) => {},
                        }
                    },
                    Err(_) => {},
                }
            },
            Err(_) => {},
        }
    }
}

/// Where a text holds three passwords as they are written, up to its end, they are read there.
proof fn lemma_passwords_in(t: Seq<char>, p: int, set: PasswordSetView)
    requires
        ascii(set.old) && ascii(set.new) && ascii(set.confirmation),
        holds(t, p, set.old + (seq![' '] + (set.new + (seq![' '] + set.confirmation)))),
        p + set.old.len() + 1 + set.new.len() + 1 + set.confirmation.len() == t.len(),
    ensures
        password_set(t, p) == Ok::<(PasswordSetView, int), ParseError>((set, t.len() as int)),
        !Class::Space.holds(t[p]),
{
    let space = seq![' '];
    lemma_holds_both(t, p, set.old, space + (set.new + (space + set.confirmation)));
    let a = p + set.old.len();
    lemma_holds_both(t, a, space, set.new + (space + set.confirmation));
    lemma_holds_both(t, a + 1, set.new, space + set.confirmation);
    let c = a + 1 + set.new.len();
    lemma_holds_both(t, c, space, set.confirmation);
    lemma_holds_alike(t, a, space);
    lemma_holds_alike(t, c, space);
    assert(t[a + 0] == space[0]);
    assert(t[c + 0] == space[0]);
    lemma_ascii_in(t, c + 1, set.confirmation);
    lemma_ascii_in(t, a + 1, set.new);
    lemma_ascii_in(t, p, set.old);
    lemma_gap_in(t, a);
    lemma_gap_in(t, c);
}

/// Where a text holds a change to the account as it is written, up to
/// its end, the change is read there.
pub proof fn lemma_modify_in(t: Seq<char>, p: int, m: ReqModifyView)
    requires
        modify_ok(m),
        holds(t, p, modify_text(m)),
        p + modify_text(m).len() == t.len(),
    ensures
        req_modify(t, p) == Ok::<(ReqModifyView, int), ParseError>((m, t.len() as int)),
{
    lemma_holds_alike(t, p, modify_text(m));
    assert(t[p + 0] == modify_text(m)[0]);
    match m {
        ReqModifyView::Email(address) => {
            let mark = seq!['e', ' '];
            lemma_holds_both(t, p, mark, address);
            assert(t[p + 1] == modify_text(m)[1]);
            lemma_ascii_in(t, p + 2, address);
            lemma_gap_in(t, p + 1);
        },
        ReqModifyView::Password(set) => {
            let mark = seq!['p', ' '];
            let space = seq![' '];
            assert(modify_text(m) =~= mark + (set.old + (space + (set.new + (space + set.confirmation)))));
            lemma_holds_both(t, p, mark, set.old + (space + (set.new + (space + set.confirmation))));
            assert(t[p + 1] == modify_text(m)[1]);
            lemma_passwords_in(t, p + 2, set);
            lemma_gap_in(t, p + 1);
        },
        ReqModifyView::Name(name) => {
            let mark = seq!['n', ' '];
            lemma_holds_both(t, p, mark, name);
            assert(t[p + 1] == modify_text(m)[1]);
            lemma_ascii_in(t, p + 2, name);
            lemma_gap_in(t, p + 1);
        },
        ReqModifyView::Timescale(scale) => {
            let mark = seq!['t', ' '];
            lemma_holds_both(t, p, mark, scale.text());
            assert(t[p + 1] == modify_text(m)[1]);
            lemma_timescale_in(t, p + 2, scale);
            lemma_gap_in(t, p + 1);
        },
        ReqModifyView::Allocations(windows) => {
            let mark = seq!['a'];
            lemma_holds_both(t, p, mark, allocations_text(windows, 0));
            lemma_allocations_in(t, p + 1, windows, 0);
            assert(windows.skip(0) =~= windows);
        },
    }
}

/// What is asked of the account, as it was read.
pub open spec fn user_ok(u: ReqUserView) -> bool {
    match u {
        ReqUserView::Info => true,
        ReqUserView::Modify(m) => modify_ok(m),
    }
}

/// What is asked of the account, as it is read, is as it has to be to be read again.
pub proof fn lemma_user_ok(s: Seq<char>, at: int)
    requires
        0 <= at <= s.len(),
    ensures
        match req_user(s, at) {
            Ok((u, next)) => user_ok(u),
            Err(_) => true,
        },
{
    lemma_span(s, at, Class::Space);
    let from = span(s, at, Class::Space);
    if is_at(s, from, '-') {
        lemma_modify_ok(s, from + 1);
    }
}

/// Where a text holds what is asked of the account as it is written,
/// up to its end, that is read there.
pub proof fn lemma_user_in(t: Seq<char>, p: int, u: ReqUserView)
    requires
        user_ok(u),
        holds(t, p, user_text(u)),
        p + user_text(u).len() == t.len(),
    ensures
        req_user(t, p) == Ok::<(ReqUserView, int), ParseError>((u, t.len() as int)),
{
    match u {
        ReqUserView::Info => {
            assert(span(t, p, Class::Space) == p);
        },
        ReqUserView::Modify(m) => {
            let mark = seq![' ', '-'];
            lemma_holds_both(t, p, mark, modify_text(m));
            lemma_holds_alike(t, p, mark);
            assert(t[p + 0] == mark[0]);
            assert(t[p + 1] == mark[1]);
            assert(span(t, p + 1, Class::Space) == p + 1);
            assert(span(t, p, Class::Space) == p + 1);
            lemma_modify_in(t, p + 2, m);
        },
    }
}

/// A command that was read: what it holds is as it has to be to be read again.
pub open spec fn command_ok(c: ReqCommandView) -> bool {
    match c {
        ReqCommandView::User(u) => user_ok(u),
        ReqCommandView::Search(search) => searchable(search),
        _ => true,
    }
}

/// A command that is read is as it has to be to be read again.
pub proof fn lemma_command_ok(s: Seq<char>, at: int)
    requires
        0 <= at <= s.len(),
    ensures
        match req_command(s, at) {
            Ok((c, _)) => command_ok(c),
            Err(_) => true,
        },
{
    if at >= s.len() {
    } else if is_at(s, at, 'u') {
        lemma_user_ok(s, at + 1);
    } else if is_at(s, at, 's') {
        lemma_condition_ok(s, at + 1);
    }
}

/// Where a text holds the letter `u` and what is asked of the account as
/// it is written, up to its end, that command is read there.
proof fn lemma_user_command_in(t: Seq<char>, p: int, u: ReqUserView)
    requires
        user_ok(u),
        holds(t, p, seq!['u'] + user_text(u)),
        p + 1 + user_text(u).len() == t.len(),
    ensures
        req_command(t, p) == Ok::<(ReqCommandView, int), ParseError>((ReqCommandView::User(u), t.len() as int)),
{
    let mark = seq!['u'];
    lemma_holds_both(t, p, mark, user_text(u));
    lemma_holds_alike(t, p, mark);
    assert(t[p + 0] == mark[0]);
    lemma_user_in(t, p + 1, u);
}

/// Where a text holds the letter `s` and a search as it is written, up
/// to its end, that command is read there.
proof fn lemma_search_command_in(t: Seq<char>, p: int, search: ConditionView)
    requires
        searchable(search),
        holds(t, p, seq!['s'] + condition_text(search)),
        p + 1 + condition_text(search).len() == t.len(),
    ensures
        req_command(t, p) == Ok::<(ReqCommandView, int), ParseError>(
            (ReqCommandView::Search(search), t.len() as int),
        ),
{
    let mark = seq!['s'];
    lemma_holds_both(t, p, mark, condition_text(search));
    lemma_holds_alike(t, p, mark);
    assert(t[p + 0] == mark[0]);
    lemma_condition_in(t, p + 1, search);
}

/// Where a text holds one of the words that are commands, up to its
/// end, that command is read there.
proof fn lemma_word_command_in(t: Seq<char>, p: int, c: ReqCommandView)
    requires
        c is Tutorial || c is Coffee,
        holds(t, p, command_text(c)),
        p + command_text(c).len() == t.len(),
    ensures
        req_command(t, p) == Ok::<(ReqCommandView, int), ParseError>((c, t.len() as int)),
{
    lemma_holds_alike(t, p, command_text(c));
    if c is Tutorial {
        assert(t[p + 0] == tutorial()[0]);
        assert(t.subrange(p, p + 8) =~= tutorial());
    } else {
        assert(t[p + 0] == coffee()[0]);
        assert(t.subrange(p, p + 6) =~= coffee());
    }
}

/// Where a text holds a command as it is written, up to its end, the command is read there.
pub proof fn lemma_command_in(t: Seq<char>, p: int, c: ReqCommandView)
    requires
        command_ok(c),
        holds(t, p, command_text(c)),
        p + command_text(c).len() == t.len(),
    ensures
        req_command(t, p) == Ok::<(ReqCommandView, int), ParseError>((c, t.len() as int)),
{
    match c {
        ReqCommandView::Help => {},
        ReqCommandView::User(u) => {
            lemma_user_command_in(t, p, u);
        },
        ReqCommandView::Search(search) => {
            lemma_search_command_in(t, p, search);
        },
        ReqCommandView::Tutorial => {
            lemma_word_command_in(t, p, c);
        },
        ReqCommandView::Coffee => {
            lemma_word_command_in(t, p, c);
        },
    }
}

/// A request that was read, written down again, reads as the same
/// request; only task lines that, written down, start with a slash do not:
/// they are read as a command.
pub proof fn lemma_request_read_again(s: Seq<char>, r: ReqView, end: int)
    requires
        req(s, 0) == Ok::<(ReqView, int), ParseError>((r, end)),
        r is Tasks && request_text(r).len() > 0 ==> request_text(r)[0] != '/',
    ensures
        req(request_text(r), 0) == Ok::<(ReqView, int), ParseError>((r, request_text(r).len() as int)),
{
    let text = request_text(r);
    match r {
        ReqView::Command(c) => {
            lemma_command_ok(s, 1);
            let slash = seq!['/'];
            assert(holds(text, 0, slash + command_text(c))) by {
                assert(text.subrange(0, text.len() as int) =~= text);
            }
            lemma_holds_both(text, 0, slash, command_text(c));
            assert(text[0] == '/');
            lemma_command_in(text, 1, c);
        },
        ReqView::Tasks(tasks) => {
            lemma_tasks_read_again(s, tasks, end);
        },
    }
}

/// A request that was read names no negative number.
pub proof fn lemma_read_is_plain(s: Seq<char>, r: ReqView, end: int)
    requires
        req(s, 0) == Ok::<(ReqView, int), ParseError>((r, end)),
    ensures
        plain_request(r),
{
    match r {
        ReqView::Command(c) => {
            lemma_command_ok(s, 1);
            match c {
                ReqCommandView::User(ReqUserView::Modify(ReqModifyView::Allocations(windows))) => {
                    assert(plain_windows(windows)) by {
                        assert forall|i: int| 0 <= i < windows.len() implies plain_window(#[trigger] windows[i]) by {
                            assert(window_ok(windows[i]));
                        }
                    }
                },
                _ => {},
            }
        },
        ReqView::Tasks(tasks) => {
            lemma_read_lines_ok(s, tasks, end);
            assert forall|i: int| 0 <= i < tasks.len() implies plain_attribute((#[trigger] tasks[i]).attribute)
                && tasks[i].indent >= 0 by {
                assert(line_ok(tasks[i]));
            }
        },
    }
}

/// What was asked can be written down, and what is written asks the
/// same, where washing leaves what is written as it is and task lines do
/// not start with a slash.
pub proof fn lemma_read_again(input: Seq<char>, r: ReqView)
    requires
        parsed(input) == Ok::<ReqView, ParseError>(r),
        washed(request_text(r)) == request_text(r),
        r is Tasks && request_text(r).len() > 0 ==> request_text(r)[0] != '/',
    ensures
        writable(r),
        parsed(request_text(r)) == Ok::<ReqView, ParseError>(r),
{
    match req(washed(input), 0) {
        Ok((request, end)) => {
            lemma_request_read_again(washed(input), r, end);
            lemma_read_is_plain(washed(input), r, end);
        },
        Err(_) => {},
    }
}

/// Task lines that, written down, start with a slash are not read as
/// task lines again: they cannot be written down.
pub proof fn lemma_slash_is_not_written(r: ReqView)
    requires
        r is Tasks,
        washed(request_text(r)).len() > 0,
        washed(request_text(r))[0] == '/',
    ensures
        !writable(r),
{
}

} // verus!
