//! Reading a request: the text is washed, then read as a command where it
//! starts with a slash, and as task lines where it does not.

use vstd::prelude::*;
use crate::batch::{req_tasks, a_req_tasks};
use crate::command::{req_command, a_req_command};
use crate::errors::{ParseError, ServiceError, syntax_message};
use crate::lexer::{same, is_at, at_is};
use crate::request::{Req, ReqTask, ReqTaskView, ReqTasks, ReqView};
use crate::text::{chars_of, trimmed};
use crate::washer::{strip, washed};

verus! {

/// The request that the washed text `s` writes from `at` on, and where it
/// ends: a command behind a slash, else task lines, in the order of the text.
pub open spec fn req(s: Seq<char>, at: int) -> Result<(ReqView, int), ParseError> {
    if is_at(s, at, '/') {
        match req_command(s, at + 1) {
            Ok((command, end)) => Ok((ReqView::Command(command), end)),
            Err(e) => Err(e),
        }
    } else {
        match req_tasks(s, at) {
            Ok((tasks, end)) => Ok((ReqView::Tasks(tasks.reverse()), end)),
            Err(e) => Err(e),
        }
    }
}

/// The request that `input` writes, once it is washed; what follows a
/// command that is complete counts for nothing.
pub open spec fn parsed(input: Seq<char>) -> Result<ReqView, ParseError> {
    match req(washed(input), 0) {
        Ok((request, _)) => Ok(request),
        Err(e) => Err(e),
    }
}

/// `tasks` in the opposite order.
fn reversed(tasks: Vec<ReqTask>) -> (back: Vec<ReqTask>)
    ensures
        back.deep_view() == tasks.deep_view().reverse(),
{
    let mut tasks = tasks;
    let ghost all = tasks.deep_view();
    let mut back: Vec<ReqTask> = Vec::new();
    assert(back.deep_view() =~= Seq::<ReqTaskView>::empty());
    while tasks.len() > 0
        invariant
            tasks.deep_view() == all.take(tasks@.len() as int),
            tasks@.len() <= all.len(),
            back@.len() == all.len() - tasks@.len(),
            forall|i: int| 0 <= i < back@.len() ==> #[trigger] back.deep_view()[i] == all[all.len() - 1 - i],
        decreases tasks@.len(),
    {
        let ghost before = back.deep_view();
        let ghost left = tasks.deep_view();
        let last = tasks.pop().unwrap();
        assert(last.deep_view() == left[left.len() - 1]);
        assert(tasks.deep_view() =~= all.take(tasks@.len() as int));
        back.push(last);
        assert(back.deep_view() =~= before.push(last.deep_view()));
    }
    assert(back.deep_view() =~= all.reverse());
    back
}

/// The request that the washed text `s` writes from `at` on (see `req`).
pub fn a_req(s: &Vec<char>, at: usize) -> (found: Result<(Req, usize), ParseError>)
    requires
        at <= s.len(),
    ensures
        same(found, req(s@, at as int)),
{
    if at_is(s, at, '/') {
        let (command, end) = a_req_command(s, at + 1)?;
        Ok((Req::Command(command), end))
    } else {
        let (tasks, end) = a_req_tasks(s, at)?;
        Ok((Req::Tasks(ReqTasks { tasks: reversed(tasks.tasks) }), end))
    }
}

/// The request that `input` writes. The text is washed first: comments go,
/// then the white space at the two ends. Any text gives a request or an
/// error that says what went wrong and where.
pub fn parse(input: &str) -> (found: Result<Req, ParseError>)
    ensures
        match (found, parsed(input@)) {
            (Ok(request), Ok(value)) => request.deep_view() == value,
            (Err(a), Err(b)) => a == b,
            _ => false,
        },
{
    let text = trimmed(&strip(&chars_of(input)));
    match a_req(&text, 0) {
        Ok((request, _)) => Ok(request),
        Err(e) => Err(e),
    }
}

impl Req {
    /// The request that `s` writes, or a bad request where it writes none.
    pub fn from_str(s: &str) -> (found: Result<Req, ServiceError>)
        ensures
            match (found, parsed(s@)) {
                (Ok(request), Ok(value)) => request.deep_view() == value,
                (Err(e), Err(_)) => e is BadRequest && e.message() == syntax_message(),
                _ => false,
            },
    {
        match parse(s) {
            Ok(request) => Ok(request),
            Err(e) => Err(e.to_service()),
        }
    }
}

} // verus!
