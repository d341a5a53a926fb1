//! Whether two commands, or two batches of task lines, say the same.

use vstd::prelude::*;
use crate::request::{
    Attribute, Condition, Decimal, Expression, PasswordSet, ReqAllocation, ReqCommand, ReqModify, ReqTask,
    ReqTasks, ReqUser,
};
use crate::time::EasyDateTime;

verus! {

/// Whether two texts, each there or not, are the same.
fn same_text(a: &Option<String>, b: &Option<String>) -> (yes: bool)
    ensures
        yes == (a.deep_view() == b.deep_view()),
{
    match (a, b) {
        (Some(x), Some(y)) => *x == *y,
        (None, None) => true,
        _ => false,
    }
}

/// Whether two numerals, each there or not, are the same.
fn same_numeral(a: &Option<Decimal>, b: &Option<Decimal>) -> (yes: bool)
    ensures
        yes == (a.deep_view() == b.deep_view()),
{
    match (a, b) {
        (Some(x), Some(y)) => x.text == y.text,
        (None, None) => true,
        _ => false,
    }
}

/// Whether two numbers, each there or not, are the same.
fn same_number(a: Option<i64>, b: Option<i64>) -> (yes: bool)
    ensures
        yes == (a == b),
{
    match (a, b) {
        (Some(x), Some(y)) => x == y,
        (None, None) => true,
        _ => false,
    }
}

/// Whether two dates or times, each there or not, are the same.
fn same_moment(a: &Option<EasyDateTime>, b: &Option<EasyDateTime>) -> (yes: bool)
    ensures
        yes == (*a == *b),
{
    match (a, b) {
        (Some(x), Some(y)) => *x == *y,
        (None, None) => true,
        _ => false,
    }
}

/// Whether two ranges of dates and times are the same.
fn same_moments(a: &(Option<EasyDateTime>, Option<EasyDateTime>), b: &(Option<EasyDateTime>, Option<EasyDateTime>)) -> (yes:
    bool)
    ensures
        yes == (*a == *b),
{
    same_moment(&a.0, &b.0) && same_moment(&a.1, &b.1)
}

/// Whether two lists of words are the same.
fn same_words(a: &Vec<String>, b: &Vec<String>) -> (yes: bool)
    ensures
        yes == (a.deep_view() == b.deep_view()),
{
    if a.len() != b.len() {
        assert(a.deep_view().len() != b.deep_view().len());
        return false;
    }
    let mut i: usize = 0;
    while i < a.len()
        invariant
            i <= a.len() == b.len(),
            forall|k: int| 0 <= k < i ==> a@[k]@ == b@[k]@,
        decreases a.len() - i,
    {
        if a[i] != b[i] {
            assert(a.deep_view()[i as int] != b.deep_view()[i as int]);
            return false;
        }
        i += 1;
    }
    assert(a.deep_view() =~= b.deep_view());
    true
}

/// Whether two expressions, each there or not, are the same.
fn same_expression(a: &Option<Expression>, b: &Option<Expression>) -> (yes: bool)
    ensures
        yes == (a.deep_view() == b.deep_view()),
{
    match (a, b) {
        (Some(Expression::Words(x)), Some(Expression::Words(y))) => same_words(x, y),
        (Some(Expression::Regex(x)), Some(Expression::Regex(y))) => *x == *y,
        (None, None) => true,
        _ => false,
    }
}

/// Whether two searches are the same.
fn same_condition(a: &Condition, b: &Condition) -> (yes: bool)
    ensures
        yes == (a.deep_view() == b.deep_view()),
{
    a.boolean == b.boolean && same_number(a.context.0, b.context.0) && same_number(a.context.1, b.context.1)
        && same_numeral(&a.weight.0, &b.weight.0) && same_numeral(&a.weight.1, &b.weight.1) && same_moments(
        &a.startable,
        &b.startable,
    ) && same_moments(&a.deadline, &b.deadline) && same_moments(&a.created_at, &b.created_at) && same_moments(
        &a.updated_at,
        &b.updated_at,
    ) && same_expression(&a.title, &b.title) && same_expression(&a.assign, &b.assign) && same_expression(
        &a.link,
        &b.link,
    )
}

/// Whether two lists of daily windows are the same.
fn same_windows(a: &Vec<ReqAllocation>, b: &Vec<ReqAllocation>) -> (yes: bool)
    ensures
        yes == (a@ == b@),
{
    if a.len() != b.len() {
        return false;
    }
    let mut i: usize = 0;
    while i < a.len()
        invariant
            i <= a.len() == b.len(),
            forall|k: int| 0 <= k < i ==> a@[k] == b@[k],
        decreases a.len() - i,
    {
        if a[i] != b[i] {
            return false;
        }
        i += 1;
    }
    assert(a@ =~= b@);
    true
}

/// Whether two sets of passwords are the same.
fn same_passwords(a: &PasswordSet, b: &PasswordSet) -> (yes: bool)
    ensures
        yes == (a.deep_view() == b.deep_view()),
{
    a.old == b.old && a.new == b.new && a.confirmation == b.confirmation
}

/// Whether two changes to the account are the same.
fn same_modify(a: &ReqModify, b: &ReqModify) -> (yes: bool)
    ensures
        yes == (a.deep_view() == b.deep_view()),
{
    match (a, b) {
        (ReqModify::Email(x), ReqModify::Email(y)) => *x == *y,
        (ReqModify::Password(x), ReqModify::Password(y)) => same_passwords(x, y),
        (ReqModify::Name(x), ReqModify::Name(y)) => *x == *y,
        (ReqModify::Timescale(x), ReqModify::Timescale(y)) => *x == *y,
        (ReqModify::Allocations(x), ReqModify::Allocations(y)) => same_windows(x, y),
        _ => false,
    }
}

/// Whether two commands are the same.
pub fn same_command(a: &ReqCommand, b: &ReqCommand) -> (yes: bool)
    ensures
        yes == (a.deep_view() == b.deep_view()),
{
    match (a, b) {
        (ReqCommand::Help, ReqCommand::Help) => true,
        (ReqCommand::User(ReqUser::Info), ReqCommand::User(ReqUser::Info)) => true,
        (ReqCommand::User(ReqUser::Modify(x)), ReqCommand::User(ReqUser::Modify(y))) => same_modify(x, y),
        (ReqCommand::Search(x), ReqCommand::Search(y)) => same_condition(x, y),
        (ReqCommand::Tutorial, ReqCommand::Tutorial) => true,
        (ReqCommand::Coffee, ReqCommand::Coffee) => true,
        _ => false,
    }
}

/// Whether two task lines say the same of their tasks.
fn same_attribute(a: &Attribute, b: &Attribute) -> (yes: bool)
    ensures
        yes == (a.deep_view() == b.deep_view()),
{
    a.is_starred == b.is_starred && same_number(a.id, b.id) && same_numeral(&a.weight, &b.weight) && same_text(
        &a.joint_head,
        &b.joint_head,
    ) && same_text(&a.joint_tail, &b.joint_tail) && same_text(&a.assign, &b.assign) && same_moment(
        &a.startable,
        &b.startable,
    ) && same_moment(&a.deadline, &b.deadline) && a.title == b.title
}

/// Whether two task lines are the same.
fn same_task(a: &ReqTask, b: &ReqTask) -> (yes: bool)
    ensures
        yes == (a.deep_view() == b.deep_view()),
{
    a.indent == b.indent && same_attribute(&a.attribute, &b.attribute) && same_text(&a.link, &b.link)
}

/// Whether the task lines are the same.
pub fn same_tasks(a: &ReqTasks, b: &ReqTasks) -> (yes: bool)
    ensures
        yes == (a.deep_view() == b.deep_view()),
{
    if a.tasks.len() != b.tasks.len() {
        assert(a.deep_view().len() != b.deep_view().len());
        return false;
    }
    let mut i: usize = 0;
    while i < a.tasks.len()
        invariant
            i <= a.tasks.len() == b.tasks.len(),
            forall|k: int| 0 <= k < i ==> a.tasks@[k].deep_view() == b.tasks@[k].deep_view(),
        decreases a.tasks.len() - i,
    {
        if !same_task(&a.tasks[i], &b.tasks[i]) {
            assert(a.deep_view()[i as int] != b.deep_view()[i as int]);
            return false;
        }
        i += 1;
    }
    assert(a.deep_view() =~= b.deep_view());
    true
}

} // verus!
