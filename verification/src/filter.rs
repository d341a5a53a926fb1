//! What a search leaves of the tasks that the store has found, and what
//! is asked of a password and of a daily window before they are stored.

use vstd::prelude::*;
use vstd::string::StrSliceExecFns;
use crate::clock::AuthedUser;
use crate::errors::ServiceError;
use crate::graph::{Arrow, Arrows, LR, Tid, on_paths, paths_from};
use crate::pattern::{
    Compiled, RegexFault, compiled, fault_message, fault_of, pattern_of, refused, regex_matches, regex_refusal,
};
use crate::request::{Condition, Expression, ExpressionView, PasswordSet, ReqAllocation};
use crate::sorted::contains_id;
use crate::sorter::Allocation;
use crate::tasks::{ResTask, kept, task_copy};

verus! {

/// The regular expression that is looked for, if one is.
pub open spec fn regex_of(expression: Option<ExpressionView>) -> Option<Seq<char>> {
    match expression {
        Some(ExpressionView::Regex(p)) => Some(p),
        _ => None,
    }
}

/// Why the regular expression does not compile, if one is looked for and does not.
pub open spec fn refusal_of(pattern: Option<Seq<char>>) -> Option<(nat, Seq<char>)> {
    match pattern {
        Some(p) => regex_refusal(p),
        None => None,
    }
}

/// The text is taken: no regular expression is looked for, or it finds a match in the text.
pub open spec fn taken(pattern: Option<Seq<char>>, text: Seq<char>) -> bool {
    match pattern {
        Some(p) => regex_matches(p, text),
        None => true,
    }
}

/// The link of a task, empty where it has none.
pub open spec fn link_text(task: ResTask) -> Seq<char> {
    match task.link {
        Some(l) => l@,
        None => Seq::empty(),
    }
}

/// The first of three refusals that is there.
pub open spec fn first_refusal(
    a: Option<(nat, Seq<char>)>,
    b: Option<(nat, Seq<char>)>,
    c: Option<(nat, Seq<char>)>,
) -> Option<(nat, Seq<char>)> {
    if a is Some {
        a
    } else if b is Some {
        b
    } else {
        c
    }
}

/// The minimum length of a password.
pub const MIN_PASSWORD_LEN: usize = 8;

/// What is said of a present password that is wrong.
pub open spec fn wrong_password() -> Seq<char> {
    "current password seems to be wrong."@
}

/// What is said of a new password that is too short.
pub open spec fn short_password() -> Seq<char> {
    "password should be at least 8 length."@
}

/// What is said of a new password that is not confirmed.
pub open spec fn unconfirmed_password() -> Seq<char> {
    "new password mismatched with confirmation."@
}

/// What is said of a window that opens at no time of the day.
pub open spec fn no_time() -> Seq<char> {
    "time notation invalid."@
}

/// What is said of a window that lasts less than an hour or more than a day.
pub open spec fn no_hours() -> Seq<char> {
    "please specify 1 to 24 hours."@
}

/// A regular expression that is looked for, compiled.
fn prepared(expression: &Option<Expression>) -> (found: Result<Option<Compiled>, RegexFault>)
    ensures
        match refusal_of(regex_of(expression.deep_view())) {
            Some(refusal) => found is Err && found->Err_0.deep_view() == fault_of(refusal),
            None => found is Ok && match regex_of(expression.deep_view()) {
                Some(p) => found->Ok_0 is Some && pattern_of(found->Ok_0->0) == p,
                None => found->Ok_0 is None,
            },
        },
{
    match expression {
        Some(Expression::Regex(pattern)) => match compiled(pattern.as_str()) {
            Ok(c) => Ok(Some(c)),
            Err(fault) => Err(fault),
        },
        _ => Ok(None),
    }
}

/// Whether the text is taken (see `taken`).
fn takes(expression: &Option<Compiled>, text: &str) -> (yes: bool)
    ensures
        yes == taken(
            match expression {
                Some(c) => Some(pattern_of(*c)),
                None => None,
            },
            text@,
        ),
{
    match expression {
        Some(c) => c.matches(text),
        None => true,
    }
}

impl Condition {
    /// The task passes the regular expressions of the search: each one
    /// that is looked for finds a match, in the title, in the name of the
    /// assignee, and in the link, which is empty where the task has none.
    pub open spec fn passes(self, task: ResTask) -> bool {
        &&& taken(regex_of(self.title.deep_view()), task.title@)
        &&& taken(regex_of(self.assign.deep_view()), task.assign@)
        &&& taken(regex_of(self.link.deep_view()), link_text(task))
    }

    /// Why the search is refused, if one of its regular expressions does
    /// not compile: that of the title first, then that of the assignee, then
    /// that of the link.
    pub open spec fn regex_refusal(self) -> Option<(nat, Seq<char>)> {
        first_refusal(
            refusal_of(regex_of(self.title.deep_view())),
            refusal_of(regex_of(self.assign.deep_view())),
            refusal_of(regex_of(self.link.deep_view())),
        )
    }

    /// Leaves of the tasks those that pass the regular expressions of the
    /// search (see `passes`). Where one of them does not compile the tasks
    /// stay as they are, and the request is bad.
    pub fn filter_regex(&self, tasks: &mut Vec<ResTask>) -> (done: Result<(), ServiceError>)
        ensures
            match self.regex_refusal() {
                Some(refusal) => done is Err && final(tasks)@ == old(tasks)@ && match fault_message(
                    fault_of(refusal),
                ) {
                    Some(m) => done->Err_0 is BadRequest && done->Err_0.message() == m,
                    None => done->Err_0 is InternalServerError,
                },
                None => done is Ok && final(tasks)@ == kept(
                    old(tasks)@,
                    |task: ResTask| self.passes(task),
                    old(tasks)@.len() as int,
                ),
            },
    {
        let title = match prepared(&self.title) {
            Ok(c) => c,
            Err(fault) => {
                return Err(refused(fault));
            },
        };
        let assign = match prepared(&self.assign) {
            Ok(c) => c,
            Err(fault) => {
                return Err(refused(fault));
            },
        };
        let link = match prepared(&self.link) {
            Ok(c) => c,
            Err(fault) => {
                return Err(refused(fault));
            },
        };
        let ghost keep = |task: ResTask| self.passes(task);
        let mut left: Vec<ResTask> = Vec::new();
        let mut i: usize = 0;
        while i < tasks.len()
            invariant
                i <= tasks.len(),
                tasks@ == old(tasks)@,
                keep == |task: ResTask| self.passes(task),
                regex_of(self.title.deep_view()) == match title {
                    Some(c) => Some(pattern_of(c)),
                    None => None,
                },
                regex_of(self.assign.deep_view()) == match assign {
                    Some(c) => Some(pattern_of(c)),
                    None => None,
                },
                regex_of(self.link.deep_view()) == match link {
                    Some(c) => Some(pattern_of(c)),
                    None => None,
                },
                left@ == kept(tasks@, keep, i as int),
            decreases tasks.len() - i,
        {
            let task = &tasks[i];
            let passes = takes(&title, task.title.as_str()) && takes(&assign, task.assign.as_str()) && match &task.link
            {
                Some(l) => takes(&link, l.as_str()),
                None => {
                    let none = String::new();
                    takes(&link, none.as_str())
                },
            };
            assert(passes == keep(tasks@[i as int]));
            if passes {
                left.push(task_copy(task));
            }
            i += 1;
        }
        *tasks = left;
        Ok(())
    }

    /// The task lies in the context of the search: on a path from the
    /// first task of the context towards the roots, if one is named, and on a
    /// path from the second towards the leaves, if one is named.
    pub open spec fn in_context(self, arrows: Seq<Arrow>, task: ResTask) -> bool {
        &&& self.context.0 is Some ==> on_paths(paths_from(arrows, LR::Root, self.context.0->0), task.id)
        &&& self.context.1 is Some ==> on_paths(paths_from(arrows, LR::Leaf, self.context.1->0), task.id)
    }

    /// Leaves of the tasks those that lie in the context of the search (see `in_context`).
    pub fn filter_context(&self, tasks: &mut Vec<ResTask>, arrows: &Arrows)
        ensures
            final(tasks)@ == kept(
                old(tasks)@,
                |task: ResTask| self.in_context(arrows@, task),
                old(tasks)@.len() as int,
            ),
    {
        let above = match self.context.0 {
            Some(id) => Some(Tid::from(id).nodes_to(LR::Root, arrows)),
            None => None,
        };
        let below = match self.context.1 {
            Some(id) => Some(Tid::from(id).nodes_to(LR::Leaf, arrows)),
            None => None,
        };
        let ghost keep = |task: ResTask| self.in_context(arrows@, task);
        let mut left: Vec<ResTask> = Vec::new();
        let mut i: usize = 0;
        while i < tasks.len()
            invariant
                i <= tasks.len(),
                tasks@ == old(tasks)@,
                keep == |task: ResTask| self.in_context(arrows@, task),
                match above {
                    Some(ids) => self.context.0 is Some && forall|id: i64|
                        ids@.contains(id) <==> on_paths(paths_from(arrows@, LR::Root, self.context.0->0), id),
                    None => self.context.0 is None,
                },
                match below {
                    Some(ids) => self.context.1 is Some && forall|id: i64|
                        ids@.contains(id) <==> on_paths(paths_from(arrows@, LR::Leaf, self.context.1->0), id),
                    None => self.context.1 is None,
                },
                left@ == kept(tasks@, keep, i as int),
            decreases tasks.len() - i,
        {
            let task = &tasks[i];
            let high = match &above {
                Some(ids) => contains_id(ids, task.id),
                None => true,
            };
            let low = match &below {
                Some(ids) => contains_id(ids, task.id),
                None => true,
            };
            assert((high && low) == keep(tasks@[i as int]));
            if high && low {
                left.push(task_copy(task));
            }
            i += 1;
        }
        *tasks = left;
    }
}

impl PasswordSet {
    /// Whether the new password may be set, where `old_is_right` says
    /// whether the present password is the user's: the present password is
    /// right, the new one has eight characters at least, and it is
    /// confirmed; or the request is bad, for the first of these reasons.
    pub fn verify(&self, old_is_right: bool) -> (done: Result<(), ServiceError>)
        ensures
            match done {
                Ok(_) => old_is_right && self.new@.len() >= MIN_PASSWORD_LEN && self.new@ == self.confirmation@,
                Err(e) => e is BadRequest && e.message() == (if !old_is_right {
                    wrong_password()
                } else if self.new@.len() < MIN_PASSWORD_LEN {
                    short_password()
                } else {
                    unconfirmed_password()
                }) && !(old_is_right && self.new@.len() >= MIN_PASSWORD_LEN && self.new@ == self.confirmation@),
            },
    {
        if !old_is_right {
            return Err(ServiceError::BadRequest("current password seems to be wrong.".to_string()));
        }
        if self.new.as_str().unicode_len() < MIN_PASSWORD_LEN {
            return Err(ServiceError::BadRequest("password should be at least 8 length.".to_string()));
        }
        if self.new != self.confirmation {
            return Err(ServiceError::BadRequest("new password mismatched with confirmation.".to_string()));
        }
        Ok(())
    }
}

impl ReqAllocation {
    /// The window as it is stored for `user`: it has to open at a time of
    /// the day, and to last for one hour at least and twenty-four at most;
    /// or the request is bad, for the first of these reasons.
    pub fn verify(&self, user: &AuthedUser) -> (window: Result<Allocation, ServiceError>)
        ensures
            match window {
                Ok(w) => 0 <= self.open_h < 24 && 0 <= self.open_m < 60 && 1 <= self.hours <= 24 && w == (Allocation {
                    owner: user.id,
                    open_h: self.open_h as u32,
                    open_m: self.open_m as u32,
                    hours: self.hours,
                }),
                Err(e) => e is BadRequest && e.message() == (if !(0 <= self.open_h < 24 && 0 <= self.open_m < 60) {
                    no_time()
                } else {
                    no_hours()
                }) && !(0 <= self.open_h < 24 && 0 <= self.open_m < 60 && 1 <= self.hours <= 24),
            },
    {
        if self.open_h < 0 || self.open_h >= 24 || self.open_m < 0 || self.open_m >= 60 {
            return Err(ServiceError::BadRequest("time notation invalid.".to_string()));
        }
        if self.hours < 1 || self.hours > 24 {
            return Err(ServiceError::BadRequest("please specify 1 to 24 hours.".to_string()));
        }
        Ok(Allocation { owner: user.id, open_h: self.open_h as u32, open_m: self.open_m as u32, hours: self.hours })
    }
}

} // verus!
