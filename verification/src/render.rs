//! Writing a request down again: the canonical text of what was read.

use vstd::prelude::*;
use crate::command::{coffee, tutorial};
use crate::request::{
    Attribute, AttributeView, Boolean, ConditionView, ExpressionView, ReqAllocation, ReqCommandView, ReqModifyView,
    ReqTask, ReqTaskView, ReqTasks, ReqUserView, ReqView, Timescale, no_boolean,
};
use crate::text::{chars_of, decimal_of, joined, numeral};
use crate::time::{EasyDate, EasyDateTime, EasyTime};

verus! {

/// A number that is written or not, as text.
pub open spec fn opt_text(n: Option<i32>) -> Seq<char> {
    match n {
        Some(n) => numeral(n as int),
        None => Seq::empty(),
    }
}

/// A date as text: year, month and day between two slashes.
pub open spec fn date_text(d: EasyDate) -> Seq<char> {
    opt_text(d.y) + seq!['/'] + opt_text(d.m) + seq!['/'] + opt_text(d.d)
}

/// A time of day as text: hour and minute around a colon.
pub open spec fn time_text(t: EasyTime) -> Seq<char> {
    opt_text(t.h) + seq![':'] + opt_text(t.m)
}

/// A date and a time as text, the letter `T` between them where both are there.
pub open spec fn datetime_text(dt: EasyDateTime) -> Seq<char> {
    match (dt.date, dt.time) {
        (Some(d), Some(t)) => date_text(d) + seq!['T'] + time_text(t),
        (Some(d), None) => date_text(d),
        (None, Some(t)) => time_text(t),
        (None, None) => Seq::empty(),
    }
}

/// `piece` before `rest`, a space between them where `rest` is not
/// empty; `rest` alone where there is no piece.
pub open spec fn lead(piece: Option<Seq<char>>, rest: Seq<char>) -> Seq<char> {
    match piece {
        None => rest,
        Some(p) => if rest.len() == 0 {
            p
        } else {
            p + seq![' '] + rest
        },
    }
}

/// The star of a starred task.
pub open spec fn star_piece(a: AttributeView) -> Option<Seq<char>> {
    if a.is_starred {
        Some(seq!['*'])
    } else {
        None
    }
}

/// The id behind `#`.
pub open spec fn id_piece(a: AttributeView) -> Option<Seq<char>> {
    match a.id {
        Some(n) => Some(seq!['#'] + numeral(n as int)),
        None => None,
    }
}

/// The weight behind `$`.
pub open spec fn weight_piece(a: AttributeView) -> Option<Seq<char>> {
    match a.weight {
        Some(w) => Some(seq!['$'] + w),
        None => None,
    }
}

/// The head of the joint before `]`.
pub open spec fn head_piece(a: AttributeView) -> Option<Seq<char>> {
    match a.joint_head {
        Some(g) => Some(g + seq![']']),
        None => None,
    }
}

/// The tail of the joint behind `[`.
pub open spec fn tail_piece(a: AttributeView) -> Option<Seq<char>> {
    match a.joint_tail {
        Some(g) => Some(seq!['['] + g),
        None => None,
    }
}

/// The assignee behind `@`.
pub open spec fn assign_piece(a: AttributeView) -> Option<Seq<char>> {
    match a.assign {
        Some(g) => Some(seq!['@'] + g),
        None => None,
    }
}

/// The start before `-`.
pub open spec fn startable_piece(a: AttributeView) -> Option<Seq<char>> {
    match a.startable {
        Some(dt) => Some(datetime_text(dt) + seq!['-']),
        None => None,
    }
}

/// The deadline behind `-`.
pub open spec fn deadline_piece(a: AttributeView) -> Option<Seq<char>> {
    match a.deadline {
        Some(dt) => Some(seq!['-'] + datetime_text(dt)),
        None => None,
    }
}

/// What the line says, as text: the star, the id behind `#`, the weight
/// behind `$`, the head of the joint before `]`, its tail behind `[`, the
/// assignee behind `@`, the start before `-`, the deadline behind `-`, and
/// the title, with one space between one and the next.
pub open spec fn attribute_text(a: AttributeView) -> Seq<char> {
    lead(
        star_piece(a),
        lead(
            id_piece(a),
            lead(
                weight_piece(a),
                lead(
                    head_piece(a),
                    lead(
                        tail_piece(a),
                        lead(
                            assign_piece(a),
                            lead(startable_piece(a), lead(deadline_piece(a), a.title)),
                        ),
                    ),
                ),
            ),
        ),
    )
}

/// As many units of indent as `n`, four spaces each.
pub open spec fn indent_text(n: int) -> Seq<char>
    decreases n,
{
    if n <= 0 {
        Seq::empty()
    } else {
        indent_text(n - 1) + seq![' ', ' ', ' ', ' ']
    }
}

/// A task line as text: the indent, what the line says, and the link behind a space.
pub open spec fn task_text(t: ReqTaskView) -> Seq<char> {
    indent_text(t.indent as int) + attribute_text(t.attribute) + match t.link {
        Some(l) => seq![' '] + l,
        None => Seq::empty(),
    }
}

/// The task lines from the one at `from` on as text, a line feed between one and the next.
pub open spec fn lines_text(tasks: Seq<ReqTaskView>, from: int) -> Seq<char>
    decreases tasks.len() - from,
{
    if from < 0 || from >= tasks.len() {
        Seq::empty()
    } else if from == tasks.len() - 1 {
        task_text(tasks[from])
    } else {
        task_text(tasks[from]) + seq!['\n'] + lines_text(tasks, from + 1)
    }
}

/// A daily window as text: the hour and the minute at which it opens
/// around a colon, a dash, and its hours before the letter `h`.
pub open spec fn allocation_text(a: ReqAllocation) -> Seq<char> {
    numeral(a.open_h as int) + seq![':'] + numeral(a.open_m as int) + seq!['-'] + numeral(a.hours as int)
        + seq!['h']
}

/// The daily windows from the one at `from` on as text, a space before each.
pub open spec fn allocations_text(windows: Seq<ReqAllocation>, from: int) -> Seq<char>
    decreases windows.len() - from,
{
    if from < 0 || from >= windows.len() {
        Seq::empty()
    } else {
        seq![' '] + allocation_text(windows[from]) + allocations_text(windows, from + 1)
    }
}

/// A change to the account as text: its letter, and what it asks for behind a space.
pub open spec fn modify_text(m: ReqModifyView) -> Seq<char> {
    match m {
        ReqModifyView::Email(address) => seq!['e', ' '] + address,
        ReqModifyView::Password(p) => seq!['p', ' '] + p.old + seq![' '] + p.new + seq![' '] + p.confirmation,
        ReqModifyView::Name(name) => seq!['n', ' '] + name,
        ReqModifyView::Timescale(scale) => seq!['t', ' '] + scale.text(),
        ReqModifyView::Allocations(windows) => seq!['a'] + allocations_text(windows, 0),
    }
}

/// What is asked of the account as text: nothing, or a change behind a space and a dash.
pub open spec fn user_text(u: ReqUserView) -> Seq<char> {
    match u {
        ReqUserView::Info => Seq::empty(),
        ReqUserView::Modify(m) => seq![' ', '-'] + modify_text(m),
    }
}

/// A flag as text: its letter, behind an exclamation mark where it is
/// ruled out; nothing where it is left open.
pub open spec fn flag_text(value: Option<bool>, letter: char) -> Seq<char> {
    match value {
        Some(true) => seq![letter],
        Some(false) => seq!['!', letter],
        None => Seq::empty(),
    }
}

/// The flags as text, in the order archived, starred, leaf, root.
pub open spec fn flags_text(b: Boolean) -> Seq<char> {
    flag_text(b.is_archived, 'a') + (flag_text(b.is_starred, 's') + (flag_text(b.is_leaf, 'l') + flag_text(
        b.is_root,
        'r',
    )))
}

/// A range as text: the lower bound and `<`, the letter, `<` and the upper bound.
pub open spec fn range_text(low: Option<Seq<char>>, letter: char, high: Option<Seq<char>>) -> Seq<char> {
    (match low {
        Some(l) => l + seq!['<'],
        None => Seq::empty(),
    }) + (seq![letter] + match high {
        Some(h) => seq!['<'] + h,
        None => Seq::empty(),
    })
}

/// A range as text, where it has a bound.
pub open spec fn range_piece(low: Option<Seq<char>>, letter: char, high: Option<Seq<char>>) -> Option<Seq<char>> {
    if low is None && high is None {
        None
    } else {
        Some(range_text(low, letter, high))
    }
}

/// A number as a bound.
pub open spec fn number_bound_text(n: Option<i64>) -> Option<Seq<char>> {
    match n {
        Some(n) => Some(numeral(n as int)),
        None => None,
    }
}

/// A date or time as a bound.
pub open spec fn moment_bound_text(dt: Option<EasyDateTime>) -> Option<Seq<char>> {
    match dt {
        Some(dt) => Some(datetime_text(dt)),
        None => None,
    }
}

/// As many hash signs as `depth`.
pub open spec fn hashes_text(depth: int) -> Seq<char>
    decreases depth,
{
    if depth <= 0 {
        Seq::empty()
    } else {
        hashes_text(depth - 1).push('#')
    }
}

/// A quotation of `depth` as text.
pub open spec fn quoted_text(text: Seq<char>, depth: int) -> Seq<char> {
    hashes_text(depth) + (seq!['"'] + (text + (seq!['"'] + hashes_text(depth))))
}

/// The words from the one at `from` on, a space between one and the next.
pub open spec fn words_text(words: Seq<Seq<char>>, from: int) -> Seq<char>
    decreases words.len() - from,
{
    if from < 0 || from >= words.len() {
        Seq::empty()
    } else if from == words.len() - 1 {
        words[from]
    } else {
        words[from] + (seq![' '] + words_text(words, from + 1))
    }
}

/// An expression as text: words in a quotation of `depth`; a regular
/// expression behind the letter `r`, in a quotation of the greatest depth.
pub open spec fn expression_text(x: ExpressionView, depth: int) -> Seq<char> {
    match x {
        ExpressionView::Words(words) => quoted_text(words_text(words, 0), depth),
        ExpressionView::Regex(pattern) => seq!['r'] + quoted_text(pattern, 4),
    }
}

/// `piece` behind a space and before `rest`; `rest` alone where there is no piece.
pub open spec fn after(piece: Option<Seq<char>>, rest: Seq<char>) -> Seq<char> {
    match piece {
        None => rest,
        Some(p) => seq![' '] + (p + rest),
    }
}

/// The flags of a search as text, where one is set.
pub open spec fn search_flags(c: ConditionView) -> Option<Seq<char>> {
    if c.boolean == no_boolean() {
        None
    } else {
        Some(seq!['-'] + flags_text(c.boolean))
    }
}

/// The context of a search as text.
pub open spec fn search_context(c: ConditionView) -> Option<Seq<char>> {
    range_piece(number_bound_text(c.context.0), '#', number_bound_text(c.context.1))
}

/// The weights of a search as text.
pub open spec fn search_weight(c: ConditionView) -> Option<Seq<char>> {
    range_piece(c.weight.0, 'w', c.weight.1)
}

/// The title that a search asks for, as text.
pub open spec fn search_title(c: ConditionView) -> Option<Seq<char>> {
    match c.title {
        Some(x) => Some(expression_text(x, 0)),
        None => None,
    }
}

/// The assignee that a search asks for, as text.
pub open spec fn search_assign(c: ConditionView) -> Option<Seq<char>> {
    match c.assign {
        Some(x) => Some(seq!['@'] + expression_text(x, 4)),
        None => None,
    }
}

/// The link that a search asks for, as text.
pub open spec fn search_link(c: ConditionView) -> Option<Seq<char>> {
    match c.link {
        Some(x) => Some(seq!['&'] + expression_text(x, 4)),
        None => None,
    }
}

/// A search as text: its flags behind a dash, the ranges of context,
/// weight, start, deadline, creation and update, and what it asks of the
/// title, the assignee and the link, a space before each.
pub open spec fn condition_text(c: ConditionView) -> Seq<char> {
    after(
        search_flags(c),
        after(
            search_context(c),
            after(
                search_weight(c),
                after(
                    range_piece(moment_bound_text(c.startable.0), 's', moment_bound_text(c.startable.1)),
                    after(
                        range_piece(moment_bound_text(c.deadline.0), 'd', moment_bound_text(c.deadline.1)),
                        after(
                            range_piece(
                                moment_bound_text(c.created_at.0),
                                'c',
                                moment_bound_text(c.created_at.1),
                            ),
                            after(
                                range_piece(
                                    moment_bound_text(c.updated_at.0),
                                    'u',
                                    moment_bound_text(c.updated_at.1),
                                ),
                                after(
                                    search_title(c),
                                    after(search_assign(c), after(search_link(c), Seq::empty())),
                                ),
                            ),
                        ),
                    ),
                ),
            ),
        ),
    )
}

/// A command as text: nothing for help; `u` and what is asked of the
/// account; `s` and a search; `tutorial`; `coffee`.
pub open spec fn command_text(c: ReqCommandView) -> Seq<char> {
    match c {
        ReqCommandView::Help => Seq::empty(),
        ReqCommandView::User(u) => seq!['u'] + user_text(u),
        ReqCommandView::Search(search) => seq!['s'] + condition_text(search),
        ReqCommandView::Tutorial => tutorial(),
        ReqCommandView::Coffee => coffee(),
    }
}

/// A request as text: a command behind a slash, or task lines.
pub open spec fn request_text(r: ReqView) -> Seq<char> {
    match r {
        ReqView::Command(c) => seq!['/'] + command_text(c),
        ReqView::Tasks(tasks) => lines_text(tasks, 0),
    }
}

/// A number that is written or not, as text. Numbers that are read are never negative.
fn opt_chars(n: Option<i32>) -> (text: Vec<char>)
    requires
        n is Some ==> n->0 >= 0,
    ensures
        text@ == opt_text(n),
{
    match n {
        Some(n) => decimal_of(n as i64),
        None => Vec::new(),
    }
}

/// The one character `c`.
fn one(c: char) -> (text: Vec<char>)
    ensures
        text@ == seq![c],
{
    let mut text: Vec<char> = Vec::new();
    text.push(c);
    text
}

/// No part of the date or time is a negative number.
pub open spec fn plain_datetime(dt: EasyDateTime) -> bool {
    &&& dt.date is Some ==> {
        &&& dt.date->0.y is Some ==> dt.date->0.y->0 >= 0
        &&& dt.date->0.m is Some ==> dt.date->0.m->0 >= 0
        &&& dt.date->0.d is Some ==> dt.date->0.d->0 >= 0
    }
    &&& dt.time is Some ==> {
        &&& dt.time->0.h is Some ==> dt.time->0.h->0 >= 0
        &&& dt.time->0.m is Some ==> dt.time->0.m->0 >= 0
    }
}

/// A date and a time as text (see `datetime_text`).
pub fn datetime_chars(dt: &EasyDateTime) -> (text: Vec<char>)
    requires
        plain_datetime(*dt),
    ensures
        text@ == datetime_text(*dt),
{
    let date = match &dt.date {
        Some(d) => Some(
            joined(
                &joined(&joined(&joined(&opt_chars(d.y), &one('/')), &opt_chars(d.m)), &one('/')),
                &opt_chars(d.d),
            ),
        ),
        None => None,
    };
    let time = match &dt.time {
        Some(t) => Some(joined(&joined(&opt_chars(t.h), &one(':')), &opt_chars(t.m))),
        None => None,
    };
    match (date, time) {
        (Some(d), Some(t)) => joined(&joined(&d, &one('T')), &t),
        (Some(d), None) => d,
        (None, Some(t)) => t,
        (None, None) => Vec::new(),
    }
}

/// `piece` before `rest`, a space between them where `rest` is not empty.
fn put(piece: &Vec<char>, rest: Vec<char>) -> (both: Vec<char>)
    ensures
        both@ == lead(Some(piece@), rest@),
{
    if rest.len() == 0 {
        assert(piece@ + rest@ =~= piece@);
        joined(piece, &rest)
    } else {
        joined(&joined(piece, &one(' ')), &rest)
    }
}

/// No number that the line names is negative.
pub open spec fn plain_attribute(a: AttributeView) -> bool {
    &&& a.id is Some ==> a.id->0 >= 0
    &&& a.startable is Some ==> plain_datetime(a.startable->0)
    &&& a.deadline is Some ==> plain_datetime(a.deadline->0)
}

/// What the line says, as text (see `attribute_text`).
pub fn attribute_chars(a: &Attribute) -> (text: Vec<char>)
    requires
        plain_attribute(a.deep_view()),
    ensures
        text@ == attribute_text(a.deep_view()),
{
    let ghost v = a.deep_view();
    let mut text = chars_of(a.title.as_str());
    match &a.deadline {
        Some(dt) => {
            text = put(&joined(&one('-'), &datetime_chars(dt)), text);
        },
        None => {},
    }
    assert(text@ == lead(deadline_piece(v), v.title));
    match &a.startable {
        Some(dt) => {
            text = put(&joined(&datetime_chars(dt), &one('-')), text);
        },
        None => {},
    }
    assert(text@ == lead(startable_piece(v), lead(deadline_piece(v), v.title)));
    match &a.assign {
        Some(g) => {
            text = put(&joined(&one('@'), &chars_of(g.as_str())), text);
        },
        None => {},
    }
    match &a.joint_tail {
        Some(g) => {
            text = put(&joined(&one('['), &chars_of(g.as_str())), text);
        },
        None => {},
    }
    match &a.joint_head {
        Some(g) => {
            text = put(&joined(&chars_of(g.as_str()), &one(']')), text);
        },
        None => {},
    }
    match &a.weight {
        Some(w) => {
            text = put(&joined(&one('$'), &chars_of(w.text.as_str())), text);
        },
        None => {},
    }
    match a.id {
        Some(n) => {
            text = put(&joined(&one('#'), &decimal_of(n)), text);
        },
        None => {},
    }
    if a.is_starred {
        text = put(&one('*'), text);
    }
    text
}

/// A task line as text (see `task_text`).
pub fn task_chars(t: &ReqTask) -> (text: Vec<char>)
    requires
        plain_attribute(t.attribute.deep_view()),
        t.indent >= 0,
    ensures
        text@ == task_text(t.deep_view()),
{
    let mut text: Vec<char> = Vec::new();
    let mut i: i32 = 0;
    while i < t.indent
        invariant
            0 <= i <= t.indent,
            text@ == indent_text(i as int),
        decreases t.indent - i,
    {
        text.push(' ');
        text.push(' ');
        text.push(' ');
        text.push(' ');
        assert(text@ =~= indent_text(i as int) + seq![' ', ' ', ' ', ' ']);
        i += 1;
    }
    let said = joined(&text, &attribute_chars(&t.attribute));
    match &t.link {
        Some(l) => joined(&said, &joined(&one(' '), &chars_of(l.as_str()))),
        None => {
            assert(said@ + Seq::<char>::empty() =~= said@);
            said
        },
    }
}

/// The task lines as text, a line feed between one and the next (see `lines_text`).
pub fn tasks_chars(tasks: &ReqTasks) -> (text: Vec<char>)
    requires
        forall|i: int|
            0 <= i < tasks.tasks@.len() ==> plain_attribute((#[trigger] tasks.deep_view()[i]).attribute)
                && tasks.deep_view()[i].indent >= 0,
    ensures
        text@ == lines_text(tasks.deep_view(), 0),
{
    let mut text: Vec<char> = Vec::new();
    let mut i: usize = tasks.tasks.len();
    while i > 0
        invariant
            i <= tasks.tasks.len(),
            forall|k: int|
                0 <= k < tasks.tasks@.len() ==> plain_attribute((#[trigger] tasks.deep_view()[k]).attribute)
                    && tasks.deep_view()[k].indent >= 0,
            text@ == lines_text(tasks.deep_view(), i as int),
        decreases i,
    {
        i -= 1;
        assert(tasks.deep_view()[i as int] == tasks.tasks@[i as int].deep_view());
        let line = task_chars(&tasks.tasks[i]);
        if i + 1 == tasks.tasks.len() {
            assert(line@ + text@ =~= line@);
            text = joined(&line, &text);
        } else {
            text = joined(&joined(&line, &one('\n')), &text);
        }
    }
    text
}

/// Whether no part of the date or time is a negative number.
pub fn is_plain_datetime(dt: &EasyDateTime) -> (yes: bool)
    ensures
        yes == plain_datetime(*dt),
{
    let date = match &dt.date {
        Some(d) => (match d.y {
            Some(n) => n >= 0,
            None => true,
        }) && (match d.m {
            Some(n) => n >= 0,
            None => true,
        }) && (match d.d {
            Some(n) => n >= 0,
            None => true,
        }),
        None => true,
    };
    let time = match &dt.time {
        Some(t) => (match t.h {
            Some(n) => n >= 0,
            None => true,
        }) && (match t.m {
            Some(n) => n >= 0,
            None => true,
        }),
        None => true,
    };
    date && time
}

/// Whether no number that the line names is negative.
fn is_plain(a: &Attribute) -> (yes: bool)
    ensures
        yes == plain_attribute(a.deep_view()),
{
    (match a.id {
        Some(n) => n >= 0,
        None => true,
    }) && (match &a.startable {
        Some(dt) => is_plain_datetime(dt),
        None => true,
    }) && (match &a.deadline {
        Some(dt) => is_plain_datetime(dt),
        None => true,
    })
}

/// No number that the task lines name is negative.
pub open spec fn plain_lines(tasks: Seq<ReqTaskView>) -> bool {
    forall|i: int| 0 <= i < tasks.len() ==> plain_attribute((#[trigger] tasks[i]).attribute) && tasks[i].indent >= 0
}

impl ReqTasks {
    /// No number that the task lines name is negative.
    pub open spec fn plain(self) -> bool {
        plain_lines(self.deep_view())
    }

    /// Whether no number that the task lines name is negative.
    pub fn is_plain(&self) -> (yes: bool)
        ensures
            yes == self.plain(),
    {
        let mut i: usize = 0;
        while i < self.tasks.len()
            invariant
                i <= self.tasks.len(),
                forall|k: int|
                    0 <= k < i ==> plain_attribute((#[trigger] self.deep_view()[k]).attribute)
                        && self.deep_view()[k].indent >= 0,
            decreases self.tasks.len() - i,
        {
            assert(self.deep_view()[i as int] == self.tasks@[i as int].deep_view());
            if !is_plain(&self.tasks[i].attribute) || self.tasks[i].indent < 0 {
                return false;
            }
            i += 1;
        }
        true
    }
}

} // verus!
