//! Tasks as they are stored and shown.

use vstd::prelude::*;
use crate::graph::{Arrows, LR, Tid, is_end};

verus! {

/// When a task is to be worked on: from `l` to `r`, in seconds since the epoch.
#[derive(Debug, Clone, Copy, PartialEq, Eq, Structural)]
pub struct Schedule {
    pub l: i64,
    pub r: i64,
}

/// A task as it is shown. Instants are seconds since the epoch; the
/// weight and the priority are seconds of work.
#[derive(Debug, Clone, PartialEq, Eq)]
pub struct ResTask {
    pub id: i64,
    pub title: String,
    pub assign: String,
    pub is_archived: bool,
    pub is_starred: bool,
    pub startable: Option<i64>,
    pub deadline: Option<i64>,
    pub priority: Option<i64>,
    pub weight: Option<i64>,
    pub link: Option<String>,
    pub is_leaf: bool,
    pub is_root: bool,
    pub schedule: Option<Schedule>,
}

/// A task as it is selected from the store, with the name of its assignee.
#[derive(Debug, Clone, PartialEq, Eq)]
pub struct SelTask {
    pub id: i64,
    pub title: String,
    pub assign: String,
    pub is_archived: bool,
    pub is_starred: bool,
    pub startable: Option<i64>,
    pub deadline: Option<i64>,
    pub weight: Option<i64>,
    pub link: Option<String>,
}

/// Which tasks the home view shows.
#[derive(Debug, Clone, Copy, PartialEq, Eq, Structural)]
pub enum Config {
    Home,
    Leaves,
    Roots,
    Archives,
}

/// What the home view is asked for.
#[derive(Debug, Clone, PartialEq, Eq)]
pub struct Q {
    pub option: Option<String>,
}

impl SelTask {
    /// The task as it is shown: what was selected, without priority or
    /// schedule, and neither leaf nor root as yet.
    pub fn to_res(self) -> (task: ResTask)
        ensures
            task == (ResTask {
                id: self.id,
                title: self.title,
                assign: self.assign,
                is_archived: self.is_archived,
                is_starred: self.is_starred,
                startable: self.startable,
                deadline: self.deadline,
                priority: None,
                weight: self.weight,
                link: self.link,
                is_leaf: false,
                is_root: false,
                schedule: None,
            }),
    {
        ResTask {
            id: self.id,
            title: self.title,
            assign: self.assign,
            is_archived: self.is_archived,
            is_starred: self.is_starred,
            startable: self.startable,
            deadline: self.deadline,
            priority: None,
            weight: self.weight,
            link: self.link,
            is_leaf: false,
            is_root: false,
            schedule: None,
        }
    }
}

/// The task, once more.
pub fn task_copy(task: &ResTask) -> (copy: ResTask)
    ensures
        copy == *task,
{
    ResTask {
        id: task.id,
        title: task.title.clone(),
        assign: task.assign.clone(),
        is_archived: task.is_archived,
        is_starred: task.is_starred,
        startable: task.startable,
        deadline: task.deadline,
        priority: task.priority,
        weight: task.weight,
        link: match &task.link {
            Some(l) => Some(l.clone()),
            None => None,
        },
        is_leaf: task.is_leaf,
        is_root: task.is_root,
        schedule: task.schedule,
    }
}

/// The words by which the home view is asked for something else than the tasks at work.
pub open spec fn config_of(option: Option<Seq<char>>) -> Config {
    match option {
        Some(word) => if word == "archives"@ {
            Config::Archives
        } else if word == "roots"@ {
            Config::Roots
        } else if word == "leaves"@ {
            Config::Leaves
        } else {
            Config::Home
        },
        None => Config::Home,
    }
}

/// Whether the two texts are the same.
fn same_text(a: &str, b: &str) -> (same: bool)
    ensures
        same == (a@ == b@),
{
    let x = crate::text::chars_of(a);
    let y = crate::text::chars_of(b);
    if x.len() != y.len() {
        return false;
    }
    let mut i: usize = 0;
    while i < x.len()
        invariant
            i <= x.len() == y.len(),
            x@ == a@,
            y@ == b@,
            forall|k: int| 0 <= k < i ==> x@[k] == y@[k],
        decreases x.len() - i,
    {
        if x[i] != y[i] {
            return false;
        }
        i += 1;
    }
    assert(x@ =~= y@);
    true
}

impl Q {
    /// Which tasks are asked for: the archives, the roots or the leaves
    /// where the option says so, else those at work.
    pub fn config(&self) -> (config: Config)
        ensures
            config == config_of(self.option.deep_view()),
    {
        match &self.option {
            Some(word) => {
                if same_text(word.as_str(), "archives") {
                    Config::Archives
                } else if same_text(word.as_str(), "roots") {
                    Config::Roots
                } else if same_text(word.as_str(), "leaves") {
                    Config::Leaves
                } else {
                    Config::Home
                }
            },
            None => Config::Home,
        }
    }
}

/// The first `n` of the tasks that `keep` holds for, in their order.
pub open spec fn kept(tasks: Seq<ResTask>, keep: spec_fn(ResTask) -> bool, n: int) -> Seq<ResTask>
    decreases n,
{
    if n <= 0 || n > tasks.len() {
        Seq::empty()
    } else if keep(tasks[n - 1]) {
        kept(tasks, keep, n - 1).push(tasks[n - 1])
    } else {
        kept(tasks, keep, n - 1)
    }
}

impl Config {
    /// Which of the tasks the view shows: the leaves alone, the roots alone, or all.
    pub open spec fn shows(self, arrows: Seq<crate::graph::Arrow>, task: ResTask) -> bool {
        match self {
            Config::Leaves => is_end(arrows, LR::Leaf, task.id),
            Config::Roots => is_end(arrows, LR::Root, task.id),
            _ => true,
        }
    }

    /// Leaves of the tasks only what the view shows: the leaves of
    /// `arrows`, its roots, or all of them.
    pub fn filter(&self, tasks: &mut Vec<ResTask>, arrows: &Arrows)
        ensures
            final(tasks)@ == kept(
                old(tasks)@,
                |task: ResTask| self.shows(arrows@, task),
                old(tasks)@.len() as int,
            ),
    {
        let ghost keep = |task: ResTask| self.shows(arrows@, task);
        let mut shown: Vec<ResTask> = Vec::new();
        let mut i: usize = 0;
        while i < tasks.len()
            invariant
                i <= tasks.len(),
                tasks@ == old(tasks)@,
                keep == |task: ResTask| self.shows(arrows@, task),
                shown@ == kept(tasks@, keep, i as int),
            decreases tasks.len() - i,
        {
            let show = match self {
                Config::Leaves => Tid::from(tasks[i].id).is(LR::Leaf, arrows),
                Config::Roots => Tid::from(tasks[i].id).is(LR::Root, arrows),
                _ => true,
            };
            assert(show == keep(tasks@[i as int]));
            if show {
                shown.push(task_copy(&tasks[i]));
            }
            i += 1;
        }
        *tasks = shown;
    }
}

impl Arrows {
    /// Marks each task as a leaf, a root, both or neither of the arrows.
    pub fn set_lr(&self, tasks: &mut Vec<ResTask>)
        ensures
            final(tasks)@.len() == old(tasks)@.len(),
            forall|i: int|
                0 <= i < old(tasks)@.len() ==> #[trigger] final(tasks)@[i] == (ResTask {
                    is_leaf: is_end(self@, LR::Leaf, old(tasks)@[i].id),
                    is_root: is_end(self@, LR::Root, old(tasks)@[i].id),
                    ..old(tasks)@[i]
                }),
    {
        let mut marked: Vec<ResTask> = Vec::new();
        let mut i: usize = 0;
        while i < tasks.len()
            invariant
                i <= tasks.len(),
                tasks@ == old(tasks)@,
                marked@.len() == i,
                forall|k: int|
                    0 <= k < i ==> #[trigger] marked@[k] == (ResTask {
                        is_leaf: is_end(self@, LR::Leaf, tasks@[k].id),
                        is_root: is_end(self@, LR::Root, tasks@[k].id),
                        ..tasks@[k]
                    }),
            decreases tasks.len() - i,
        {
            let mut task = task_copy(&tasks[i]);
            task.is_leaf = Tid::from(task.id).is(LR::Leaf, self);
            task.is_root = Tid::from(task.id).is(LR::Root, self);
            marked.push(task);
            i += 1;
        }
        *tasks = marked;
    }
}

} // verus!
