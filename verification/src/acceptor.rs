//! From the tasks of a request to what is stored: the lines are taken
//! apart into tasks and arrows, the batch is checked, and the arrows are put
//! on the ids that the store has given.

use vstd::prelude::*;
use crate::clock::{AuthedUser, unplaced};
use crate::errors::ServiceError;
use crate::graph::{Arrow, Arrows, cyclic, ends, paths_of, paths_view, LR};
use crate::request::{Decimal, ReqTaskView, ReqTasks};
use crate::text::{chars_of, string_of, decimal, decimal_of, joined, slice};
use crate::time::EasyDateTime;

verus! {

/// A task of a batch, its dates and times placed.
#[derive(Debug, Clone, PartialEq, Eq)]
pub struct TmpTask {
    pub id: Option<i64>,
    pub title: String,
    pub assign: Option<String>,
    pub is_starred: bool,
    pub startable: Option<i64>,
    pub deadline: Option<i64>,
    pub weight: Option<Decimal>,
    pub link: Option<String>,
}

/// A task of a batch that has been accepted: its assignee is known.
#[derive(Debug, Clone, PartialEq, Eq)]
pub struct TmpTaskOk {
    pub id: Option<i64>,
    pub title: String,
    pub assign: i64,
    pub is_starred: bool,
    pub startable: Option<i64>,
    pub deadline: Option<i64>,
    pub weight: Option<Decimal>,
    pub link: Option<String>,
}

/// A batch to be checked: its tasks, and the arrows between their places in the batch.
#[derive(Debug, PartialEq, Eq)]
pub struct Acceptor {
    pub tasks: Vec<TmpTask>,
    pub arrows: Arrows,
}

/// A batch to be stored: its tasks, and the arrows between their places in the batch.
#[derive(Debug, PartialEq, Eq)]
pub struct Upserter {
    pub tasks: Vec<TmpTaskOk>,
    pub arrows: Arrows,
}

/// A `TmpTask` as plain values.
pub struct TmpTaskView {
    pub id: Option<i64>,
    pub title: Seq<char>,
    pub assign: Option<Seq<char>>,
    pub is_starred: bool,
    pub startable: Option<i64>,
    pub deadline: Option<i64>,
    pub weight: Option<Seq<char>>,
    pub link: Option<Seq<char>>,
}

/// A `TmpTaskOk` as plain values.
pub struct TmpTaskOkView {
    pub id: Option<i64>,
    pub title: Seq<char>,
    pub assign: i64,
    pub is_starred: bool,
    pub startable: Option<i64>,
    pub deadline: Option<i64>,
    pub weight: Option<Seq<char>>,
    pub link: Option<Seq<char>>,
}

impl DeepView for TmpTask {
    type V = TmpTaskView;

    open spec fn deep_view(&self) -> TmpTaskView {
        TmpTaskView {
            id: self.id,
            title: self.title@,
            assign: self.assign.deep_view(),
            is_starred: self.is_starred,
            startable: self.startable,
            deadline: self.deadline,
            weight: self.weight.deep_view(),
            link: self.link.deep_view(),
        }
    }
}

impl DeepView for TmpTaskOk {
    type V = TmpTaskOkView;

    open spec fn deep_view(&self) -> TmpTaskOkView {
        TmpTaskOkView {
            id: self.id,
            title: self.title@,
            assign: self.assign,
            is_starred: self.is_starred,
            startable: self.startable,
            deadline: self.deadline,
            weight: self.weight.deep_view(),
            link: self.link.deep_view(),
        }
    }
}

/// The tail of one joint is the head of another: both are named, and by the same name.
pub open spec fn joint(tail: Option<Seq<char>>, head: Option<Seq<char>>) -> bool {
    tail is Some && head is Some && tail->0 == head->0
}

/// The place of the last task before `below` whose indent is smaller than `indent`.
pub open spec fn shallower(tasks: Seq<ReqTaskView>, indent: i32, below: int) -> Option<int>
    decreases below,
{
    if below <= 0 || below > tasks.len() {
        None
    } else if tasks[below - 1].indent < indent {
        Some(below - 1)
    } else {
        shallower(tasks, indent, below - 1)
    }
}

/// The arrows from the task at `src` to the tasks before `below` whose
/// joint ends where that of `src` begins, the nearest of them first.
pub open spec fn jointed(tasks: Seq<ReqTaskView>, src: int, below: int) -> Seq<Arrow>
    decreases below,
{
    if below <= 0 || below > tasks.len() || src < 0 || src >= tasks.len() {
        Seq::empty()
    } else if joint(tasks[below - 1].attribute.joint_tail, tasks[src].attribute.joint_head) {
        seq![Arrow { source: src as i64, target: (below - 1) as i64 }] + jointed(tasks, src, below - 1)
    } else {
        jointed(tasks, src, below - 1)
    }
}

/// The arrows that start from the task at `src`: one to the nearest task
/// before it that is less indented, if there is one, then those of its joint.
pub open spec fn arrows_from(tasks: Seq<ReqTaskView>, src: int) -> Seq<Arrow> {
    (match shallower(tasks, tasks[src].indent, src) {
        Some(target) => seq![Arrow { source: src as i64, target: target as i64 }],
        None => Seq::empty(),
    }) + jointed(tasks, src, src)
}

/// The arrows that start from the tasks at `from` and after it, those of the last task first.
pub open spec fn dissembled(tasks: Seq<ReqTaskView>, from: int) -> Seq<Arrow>
    decreases tasks.len() - from,
{
    if from < 0 || from >= tasks.len() {
        Seq::empty()
    } else {
        dissembled(tasks, from + 1) + arrows_from(tasks, from)
    }
}

/// A date or time that is written is placed, one that is not stays away;
/// `None` where one is written and cannot be placed.
pub open spec fn placed_or_absent(user: AuthedUser, easy: Option<EasyDateTime>, now: i64) -> Option<Option<i64>> {
    match easy {
        None => Some(None),
        Some(e) => match user.instant(e, now) {
            Some(t) => Some(Some(t)),
            None => None,
        },
    }
}

/// The task that a line writes, its dates and times placed; `None` where one cannot be.
pub open spec fn tmp_task(user: AuthedUser, line: ReqTaskView, now: i64) -> Option<TmpTaskView> {
    match (
        placed_or_absent(user, line.attribute.startable, now),
        placed_or_absent(user, line.attribute.deadline, now),
    ) {
        (Some(startable), Some(deadline)) => Some(
            TmpTaskView {
                id: line.attribute.id,
                title: line.attribute.title,
                assign: line.attribute.assign,
                is_starred: line.attribute.is_starred,
                startable,
                deadline,
                weight: line.attribute.weight,
                link: line.link,
            },
        ),
        _ => None,
    }
}

/// The tasks that the first `n` lines write; `None` where a date or time cannot be placed.
pub open spec fn tmp_tasks(user: AuthedUser, lines: Seq<ReqTaskView>, now: i64, n: int) -> Option<Seq<TmpTaskView>>
    decreases n,
{
    if n <= 0 || n > lines.len() {
        Some(Seq::empty())
    } else {
        match (tmp_tasks(user, lines, now, n - 1), tmp_task(user, lines[n - 1], now)) {
            (Some(before), Some(task)) => Some(before.push(task)),
            _ => None,
        }
    }
}

/// Every arrow leads from a task of the batch to one that stands before it.
pub open spec fn backward(arrows: Seq<Arrow>, len: int) -> bool {
    forall|k: int| 0 <= k < arrows.len() ==> 0 <= (#[trigger] arrows[k]).target < arrows[k].source < len
}

proof fn lemma_jointed_backward(tasks: Seq<ReqTaskView>, src: int, below: int)
    requires
        0 <= below <= src < tasks.len(),
        tasks.len() <= i64::MAX,
    ensures
        backward(jointed(tasks, src, below), src + 1),
    decreases below,
{
    if below > 0 {
        lemma_jointed_backward(tasks, src, below - 1);
        let all = jointed(tasks, src, below);
        let rest = jointed(tasks, src, below - 1);
        assert forall|k: int| 0 <= k < all.len() implies 0 <= (#[trigger] all[k]).target < all[k].source < src
            + 1 by {
            if joint(tasks[below - 1].attribute.joint_tail, tasks[src].attribute.joint_head) {
                if k > 0 {
                    assert(all[k] == rest[k - 1]);
                }
            }
        }
    }
}

proof fn lemma_shallower(tasks: Seq<ReqTaskView>, indent: i32, below: int)
    requires
        0 <= below <= tasks.len(),
    ensures
        shallower(tasks, indent, below) is Some ==> 0 <= shallower(tasks, indent, below)->0 < below,
    decreases below,
{
    if below > 0 {
        lemma_shallower(tasks, indent, below - 1);
    }
}

/// The arrows that the lines give lead backwards, each from a line to an earlier one.
pub proof fn lemma_dissembled_backward(tasks: Seq<ReqTaskView>, from: int)
    requires
        0 <= from <= tasks.len(),
        tasks.len() <= i64::MAX,
    ensures
        backward(dissembled(tasks, from), tasks.len() as int),
    decreases tasks.len() - from,
{
    if from < tasks.len() {
        lemma_dissembled_backward(tasks, from + 1);
        lemma_jointed_backward(tasks, from, from);
        lemma_shallower(tasks, tasks[from].indent, from);
        let later = dissembled(tasks, from + 1);
        let own = arrows_from(tasks, from);
        let all = dissembled(tasks, from);
        let joints = jointed(tasks, from, from);
        assert forall|k: int| 0 <= k < all.len() implies 0 <= (#[trigger] all[k]).target < all[k].source
            < tasks.len() by {
            if k < later.len() {
                assert(all[k] == later[k]);
            } else {
                let i = k - later.len();
                assert(all[k] == own[i]);
                if shallower(tasks, tasks[from].indent, from) is Some {
                    if i > 0 {
                        assert(own[i] == joints[i - 1]);
                    }
                } else {
                    assert(own[i] == joints[i]);
                }
            }
        }
    }
}

/// Once a date or time cannot be placed, no longer batch can be read.
proof fn lemma_tmp_tasks_none(user: AuthedUser, lines: Seq<ReqTaskView>, now: i64, n: int, m: int)
    requires
        0 <= n <= m <= lines.len(),
        tmp_tasks(user, lines, now, n) is None,
    ensures
        tmp_tasks(user, lines, now, m) is None,
    decreases m - n,
{
    if n < m {
        lemma_tmp_tasks_none(user, lines, now, n, m - 1);
    }
}

/// Text that is written or not, once more.
fn copied(text: &Option<String>) -> (copy: Option<String>)
    ensures
        copy.deep_view() == text.deep_view(),
{
    match text {
        Some(t) => Some(t.clone()),
        None => None,
    }
}

/// A numeral that is written or not, once more.
fn copied_decimal(number: &Option<Decimal>) -> (copy: Option<Decimal>)
    ensures
        copy.deep_view() == number.deep_view(),
{
    match number {
        Some(d) => Some(Decimal { text: d.text.clone() }),
        None => None,
    }
}

impl ReqTasks {
    /// The arrows between the lines, by their places. From each line,
    /// the last line first, an arrow leads to the nearest line before it that
    /// is less indented, if there is one; then one to each line before it whose
    /// joint ends where its own begins, the nearest first.
    pub fn dissemble(&self) -> (arrows: Arrows)
        requires
            self.tasks@.len() <= i64::MAX,
        ensures
            arrows@ == dissembled(self.deep_view(), 0),
            backward(arrows@, self.tasks@.len() as int),
    {
        let ghost lines = self.deep_view();
        let mut arrows: Vec<Arrow> = Vec::new();
        let mut k: usize = self.tasks.len();
        while k > 0
            invariant
                k <= self.tasks.len(),
                self.tasks@.len() <= i64::MAX,
                lines == self.deep_view(),
                arrows@ == dissembled(lines, k as int),
            decreases k,
        {
            let src = k - 1;
            let ghost before = arrows@;
            let mut j: usize = src;
            let mut found: Option<usize> = None;
            while j > 0 && found.is_none()
                invariant
                    j <= src < self.tasks.len(),
                    lines == self.deep_view(),
                    match found {
                        Some(target) => shallower(lines, lines[src as int].indent, src as int) == Some(target as int)
                            && target < src,
                        None => shallower(lines, lines[src as int].indent, src as int) == shallower(
                            lines,
                            lines[src as int].indent,
                            j as int,
                        ),
                    },
                decreases j, if found is None { 1int } else { 0int },
            {
                assert(lines[j - 1] == self.tasks@[j - 1].deep_view());
                assert(lines[src as int] == self.tasks@[src as int].deep_view());
                if self.tasks[j - 1].indent < self.tasks[src].indent {
                    found = Some(j - 1);
                } else {
                    j -= 1;
                }
            }
            match found {
                Some(target) => {
                    arrows.push(Arrow { source: src as i64, target: target as i64 });
                },
                None => {},
            }
            let ghost first = arrows@;
            let mut j: usize = src;
            while j > 0
                invariant
                    j <= src < self.tasks.len(),
                    self.tasks@.len() <= i64::MAX,
                    lines == self.deep_view(),
                    first + jointed(lines, src as int, src as int) == arrows@ + jointed(lines, src as int, j as int),
                decreases j,
            {
                assert(lines[j - 1] == self.tasks@[j - 1].deep_view());
                assert(lines[src as int] == self.tasks@[src as int].deep_view());
                let fits = match (&self.tasks[j - 1].attribute.joint_tail, &self.tasks[src].attribute.joint_head) {
                    (Some(tail), Some(head)) => *tail == *head,
                    _ => false,
                };
                if fits {
                    let ghost sofar = arrows@;
                    let arrow = Arrow { source: src as i64, target: (j - 1) as i64 };
                    arrows.push(arrow);
                    assert(sofar + (seq![arrow] + jointed(lines, src as int, j - 1)) =~= sofar.push(arrow) + jointed(
                        lines,
                        src as int,
                        j - 1,
                    ));
                }
                j -= 1;
            }
            proof {
                assert(arrows@ + jointed(lines, src as int, 0) =~= arrows@);
                assert(first =~= before + (match shallower(lines, lines[src as int].indent, src as int) {
                    Some(target) => seq![Arrow { source: src as i64, target: target as i64 }],
                    None => Seq::empty(),
                }));
                assert(before + arrows_from(lines, src as int) =~= first + jointed(lines, src as int, src as int));
            }
            k -= 1;
        }
        proof {
            lemma_dissembled_backward(lines, 0);
        }
        Arrows { arrows }
    }

    /// The batch that the lines write for `user` at the instant `now`:
    /// the tasks in the order of the lines, each date and time placed in the
    /// user's time zone, and the arrows between them (see `dissemble`). The
    /// request is bad where a date or time cannot be placed.
    pub fn read(self, user: &AuthedUser, now: i64) -> (batch: Result<Acceptor, ServiceError>)
        requires
            self.tasks@.len() <= i64::MAX,
        ensures
            match tmp_tasks(*user, self.deep_view(), now, self.tasks@.len() as int) {
                Some(tasks) => batch is Ok && batch->Ok_0.tasks.deep_view() == tasks && batch->Ok_0.arrows@
                    == dissembled(self.deep_view(), 0),
                None => batch is Err && batch->Err_0 is BadRequest && batch->Err_0.message() == unplaced(),
            },
    {
        let arrows = self.dissemble();
        let ghost lines = self.deep_view();
        let mut tasks: Vec<TmpTask> = Vec::new();
        let mut i: usize = 0;
        assert(tasks.deep_view() =~= Seq::<TmpTaskView>::empty());
        while i < self.tasks.len()
            invariant
                i <= self.tasks.len(),
                lines == self.deep_view(),
                tmp_tasks(*user, lines, now, i as int) == Some(tasks.deep_view()),
            decreases self.tasks.len() - i,
        {
            let line = &self.tasks[i];
            assert(lines[i as int] == line.deep_view());
            let startable = match &line.attribute.startable {
                Some(easy) => match user.globalize(easy, now) {
                    Ok(t) => Some(t),
                    Err(e) => {
                        proof {
                            lemma_tmp_tasks_none(*user, lines, now, i + 1, self.tasks@.len() as int);
                        }
                        return Err(e);
                    },
                },
                None => None,
            };
            let deadline = match &line.attribute.deadline {
                Some(easy) => match user.globalize(easy, now) {
                    Ok(t) => Some(t),
                    Err(e) => {
                        proof {
                            lemma_tmp_tasks_none(*user, lines, now, i + 1, self.tasks@.len() as int);
                        }
                        return Err(e);
                    },
                },
                None => None,
            };
            let task = TmpTask {
                id: line.attribute.id,
                title: line.attribute.title.clone(),
                assign: copied(&line.attribute.assign),
                is_starred: line.attribute.is_starred,
                startable,
                deadline,
                weight: copied_decimal(&line.attribute.weight),
                link: copied(&line.link),
            };
            let ghost before = tasks.deep_view();
            let ghost fresh = task.deep_view();
            tasks.push(task);
            assert(tasks.deep_view() =~= before.push(fresh));
            i += 1;
        }
        Ok(Acceptor { tasks, arrows })
    }
}

/// A user whom tasks may be assigned to, by name.
#[derive(Debug, Clone, PartialEq, Eq)]
pub struct Colleague {
    pub name: String,
    pub id: i64,
}

/// A `Colleague` as plain values.
pub struct ColleagueView {
    pub name: Seq<char>,
    pub id: i64,
}

impl DeepView for Colleague {
    type V = ColleagueView;

    open spec fn deep_view(&self) -> ColleagueView {
        ColleagueView { name: self.name@, id: self.id }
    }
}

/// What the tasks were stored as: the arrows between their ids, and how many
/// tasks were created and how many updated.
#[derive(Debug, PartialEq, Eq)]
pub struct Stored {
    pub arrows: Vec<Arrow>,
    pub created: u32,
    pub updated: u32,
}

/// What is said of a batch with a cycle.
pub open spec fn loop_message() -> Seq<char> {
    "loop found."@
}

/// What is said of a task that is due before it may start.
pub open spec fn sd_message(title: Seq<char>) -> Seq<char> {
    (if title.len() > 8 {
        title.take(8)
    } else {
        title
    }) + "... deadline then startable."@
}

/// What is said of an id that the batch names twice.
pub open spec fn twice_message(id: i64) -> Seq<char> {
    seq!['#'] + decimal(id as int) + " appears multiple times."@
}

/// What is said of two stored tasks that the batch puts on one path.
pub open spec fn wiring_message(first: i64, second: i64) -> Seq<char> {
    seq!['#'] + decimal(first as int) + " -> #"@ + decimal(second as int) + " existing nodes wiring."@
}

/// What is said of an id that is unknown, or not the user's to edit.
pub open spec fn missing_message(id: i64) -> Seq<char> {
    seq!['#'] + decimal(id as int) + ": item not found, or no edit permission."@
}

/// What is said of an assignee who is unknown.
pub open spec fn stranger_message(name: Seq<char>) -> Seq<char> {
    seq!['@'] + name + ": user not found."@
}

/// The task is due before it may start.
pub open spec fn upside_down(task: TmpTaskView) -> bool {
    task.startable is Some && task.deadline is Some && task.deadline->0 < task.startable->0
}

/// What is said of the first task from `from` on that is due before it may start.
pub open spec fn sd_error(tasks: Seq<TmpTaskView>, from: int) -> Option<Seq<char>>
    decreases tasks.len() - from,
{
    if from < 0 || from >= tasks.len() {
        None
    } else if upside_down(tasks[from]) {
        Some(sd_message(tasks[from].title))
    } else {
        sd_error(tasks, from + 1)
    }
}

/// The ids that the first `n` tasks name, in their order.
pub open spec fn ids_of(tasks: Seq<TmpTaskView>, n: int) -> Seq<i64>
    decreases n,
{
    if n <= 0 || n > tasks.len() {
        Seq::empty()
    } else if tasks[n - 1].id is Some {
        ids_of(tasks, n - 1).push(tasks[n - 1].id->0)
    } else {
        ids_of(tasks, n - 1)
    }
}

/// The id at `i` stands once more behind it.
pub open spec fn again(ids: Seq<i64>, i: int) -> bool {
    exists|j: int| i < j < ids.len() && #[trigger] ids[j] == ids[i]
}

/// `x` stands twice among the ids.
pub open spec fn twice(ids: Seq<i64>, x: i64) -> bool {
    exists|i: int| 0 <= i < ids.len() && #[trigger] ids[i] == x && again(ids, i)
}

/// `x` is the least id that stands twice.
pub open spec fn least_twice(ids: Seq<i64>, x: i64) -> bool {
    twice(ids, x) && forall|y: i64| twice(ids, y) ==> x <= y
}

/// What is said of the least id that stands twice, if any does.
pub open spec fn unique_error(ids: Seq<i64>) -> Option<Seq<char>> {
    if exists|x: i64| least_twice(ids, x) {
        Some(twice_message(choose|x: i64| least_twice(ids, x)))
    } else {
        None
    }
}

/// The ids that the tasks at the first `n` places of the path name, in their order.
pub open spec fn carried(tasks: Seq<TmpTaskView>, path: Seq<i64>, n: int) -> Seq<i64>
    decreases n,
{
    if n <= 0 || n > path.len() {
        Seq::empty()
    } else if 0 <= path[n - 1] < tasks.len() && tasks[path[n - 1] as int].id is Some {
        carried(tasks, path, n - 1).push(tasks[path[n - 1] as int].id->0)
    } else {
        carried(tasks, path, n - 1)
    }
}

/// What is said of a path on which two tasks name an id.
pub open spec fn path_error(tasks: Seq<TmpTaskView>, path: Seq<i64>) -> Option<Seq<char>> {
    let ids = carried(tasks, path, path.len() as int);
    if ids.len() > 1 {
        Some(wiring_message(ids[0], ids[1]))
    } else {
        None
    }
}

/// What is said of the first path from `from` on on which two tasks name an id.
pub open spec fn wiring_error(tasks: Seq<TmpTaskView>, paths: Seq<Seq<i64>>, from: int) -> Option<Seq<char>>
    decreases paths.len() - from,
{
    if from < 0 || from >= paths.len() {
        None
    } else if path_error(tasks, paths[from]) is Some {
        path_error(tasks, paths[from])
    } else {
        wiring_error(tasks, paths, from + 1)
    }
}

/// What is said of the first id from `from` on that is not among those that the user may edit.
pub open spec fn tid_error(ids: Seq<i64>, editable: Seq<i64>, from: int) -> Option<Seq<char>>
    decreases ids.len() - from,
{
    if from < 0 || from >= ids.len() {
        None
    } else if !editable.contains(ids[from]) {
        Some(missing_message(ids[from]))
    } else {
        tid_error(ids, editable, from + 1)
    }
}

/// The id of the first colleague from `from` on who goes by `name`.
pub open spec fn lookup(colleagues: Seq<ColleagueView>, name: Seq<char>, from: int) -> Option<i64>
    decreases colleagues.len() - from,
{
    if from < 0 || from >= colleagues.len() {
        None
    } else if colleagues[from].name == name {
        Some(colleagues[from].id)
    } else {
        lookup(colleagues, name, from + 1)
    }
}

/// Whom the task is assigned to: the colleague whom it names, or the user where it names nobody.
pub open spec fn assignee(user: i64, colleagues: Seq<ColleagueView>, task: TmpTaskView) -> Option<i64> {
    match task.assign {
        None => Some(user),
        Some(name) => lookup(colleagues, name, 0),
    }
}

/// What is said of the first task from `from` on that names an unknown assignee.
pub open spec fn assign_error(user: i64, colleagues: Seq<ColleagueView>, tasks: Seq<TmpTaskView>, from: int) -> Option<
    Seq<char>,
>
    decreases tasks.len() - from,
{
    if from < 0 || from >= tasks.len() {
        None
    } else if assignee(user, colleagues, tasks[from]) is None {
        Some(stranger_message(tasks[from].assign->0))
    } else {
        assign_error(user, colleagues, tasks, from + 1)
    }
}

/// The task with its assignee.
pub open spec fn assigned(task: TmpTaskView, to: i64) -> TmpTaskOkView {
    TmpTaskOkView {
        id: task.id,
        title: task.title,
        assign: to,
        is_starred: task.is_starred,
        startable: task.startable,
        deadline: task.deadline,
        weight: task.weight,
        link: task.link,
    }
}

/// The first of two refusals that is there.
pub open spec fn first(a: Option<Seq<char>>, b: Option<Seq<char>>) -> Option<Seq<char>> {
    if a is Some {
        a
    } else {
        b
    }
}

/// Why the batch is refused, if it is: the first of its faults. It holds a
/// cycle; a task is due before it may start; an id is named twice; two
/// tasks on one path name an id; an id is not the user's to edit; an
/// assignee is unknown.
pub open spec fn refusal(
    tasks: Seq<TmpTaskView>,
    arrows: Seq<Arrow>,
    user: i64,
    editable: Seq<i64>,
    colleagues: Seq<ColleagueView>,
) -> Option<Seq<char>> {
    let ids = ids_of(tasks, tasks.len() as int);
    let leaves = ends(arrows, LR::Leaf);
    let paths = paths_of(arrows, LR::Root, leaves, leaves.len() as int);
    first(
        if cyclic(arrows) {
            Some(loop_message())
        } else {
            None
        },
        first(
            sd_error(tasks, 0),
            first(
                unique_error(ids),
                first(
                    wiring_error(tasks, paths, 0),
                    first(tid_error(ids, editable, 0), assign_error(user, colleagues, tasks, 0)),
                ),
            ),
        ),
    )
}

/// `found` is the refusal `message`, or none.
pub open spec fn refused(found: Result<(), ServiceError>, message: Option<Seq<char>>) -> bool {
    match message {
        Some(m) => found is Err && found->Err_0 is BadRequest && found->Err_0.message() == m,
        None => found is Ok,
    }
}

/// A bad request that says `message`.
fn bad(message: &Vec<char>) -> (e: ServiceError)
    ensures
        e is BadRequest,
        e.message() == message@,
{
    ServiceError::BadRequest(string_of(message))
}

/// The arrows with each place replaced by the id that stands there in `ids`.
pub open spec fn remapped(arrows: Seq<Arrow>, ids: Seq<i64>) -> Seq<Arrow> {
    Seq::new(
        arrows.len(),
        |k: int| Arrow { source: ids[arrows[k].source as int], target: ids[arrows[k].target as int] },
    )
}

/// How many of the first `n` tasks name no id.
pub open spec fn fresh(tasks: Seq<TmpTaskOkView>, n: int) -> int
    decreases n,
{
    if n <= 0 || n > tasks.len() {
        0
    } else if tasks[n - 1].id is None {
        fresh(tasks, n - 1) + 1
    } else {
        fresh(tasks, n - 1)
    }
}

/// Each task that names an id is stored under that id.
pub open spec fn named(tasks: Seq<TmpTaskOkView>, permanents: Seq<i64>) -> bool {
    forall|i: int|
        0 <= i < tasks.len() && i < permanents.len() ==> (#[trigger] tasks[i]).id is Some ==> permanents[i]
            == tasks[i].id->0
}

/// The store's ids fit the batch: there are as many as the tasks, which
/// can be counted, each task that names an id has that id, and every end of
/// every arrow is a place in the batch.
pub open spec fn stored_as(tasks: Seq<TmpTaskOkView>, arrows: Seq<Arrow>, permanents: Seq<i64>) -> bool {
    &&& permanents.len() == tasks.len()
    &&& tasks.len() <= u32::MAX
    &&& named(tasks, permanents)
    &&& placed_within(arrows, tasks.len() as int)
}

/// Every end of every arrow is a place in a batch of `len` tasks.
pub open spec fn placed_within(arrows: Seq<Arrow>, len: int) -> bool {
    forall|k: int|
        0 <= k < arrows.len() ==> 0 <= (#[trigger] arrows[k]).source < len && 0 <= arrows[k].target < len
}

proof fn lemma_fresh_bounds(tasks: Seq<TmpTaskOkView>, n: int)
    requires
        0 <= n <= tasks.len(),
    ensures
        0 <= fresh(tasks, n) <= n,
    decreases n,
{
    if n > 0 {
        lemma_fresh_bounds(tasks, n - 1);
    }
}

impl Acceptor {
    /// The ids that the tasks name, in their order.
    pub fn ids(&self) -> (ids: Vec<i64>)
        ensures
            ids@ == ids_of(self.tasks.deep_view(), self.tasks@.len() as int),
    {
        let mut ids: Vec<i64> = Vec::new();
        let mut i: usize = 0;
        while i < self.tasks.len()
            invariant
                i <= self.tasks.len(),
                ids@ == ids_of(self.tasks.deep_view(), i as int),
            decreases self.tasks.len() - i,
        {
            assert(self.tasks.deep_view()[i as int] == self.tasks@[i as int].deep_view());
            match self.tasks[i].id {
                Some(id) => {
                    ids.push(id);
                },
                None => {},
            }
            i += 1;
        }
        ids
    }

    /// The batch holds no cycle, or the request is bad: "loop found."
    pub fn no_loop(&self) -> (found: Result<(), ServiceError>)
        ensures
            refused(
                found,
                if cyclic(self.arrows@) {
                    Some(loop_message())
                } else {
                    None
                },
            ),
    {
        if self.arrows.has_cycle() {
            return Err(bad(&chars_of("loop found.")));
        }
        Ok(())
    }

    /// No task is due before it may start, or the request is bad: it
    /// names the first such task by the first eight characters of its title.
    pub fn valid_sd(&self) -> (found: Result<(), ServiceError>)
        ensures
            refused(found, sd_error(self.tasks.deep_view(), 0)),
    {
        let ghost tasks = self.tasks.deep_view();
        let mut i: usize = 0;
        while i < self.tasks.len()
            invariant
                i <= self.tasks.len(),
                tasks == self.tasks.deep_view(),
                sd_error(tasks, 0) == sd_error(tasks, i as int),
            decreases self.tasks.len() - i,
        {
            let task = &self.tasks[i];
            assert(tasks[i as int] == task.deep_view());
            let wrong = match (task.startable, task.deadline) {
                (Some(s), Some(d)) => d < s,
                _ => false,
            };
            if wrong {
                let title = chars_of(task.title.as_str());
                let head = if title.len() > 8 {
                    assert(title@.take(8) =~= title@.subrange(0, 8));
                    slice(&title, 0, 8)
                } else {
                    title
                };
                return Err(bad(&joined(&head, &chars_of("... deadline then startable."))));
            }
            i += 1;
        }
        Ok(())
    }

    /// No id is named twice, or the request is bad: it names the least such id.
    pub fn tid_unique(&self) -> (found: Result<(), ServiceError>)
        ensures
            refused(found, unique_error(ids_of(self.tasks.deep_view(), self.tasks@.len() as int))),
    {
        let ids = self.ids();
        let mut least: Option<i64> = None;
        let mut i: usize = 0;
        while i < ids.len()
            invariant
                i <= ids.len(),
                least is Some ==> twice(ids@, least->0),
                forall|k: int| 0 <= k < i && again(ids@, k) ==> least is Some && least->0 <= #[trigger] ids@[k],
            decreases ids.len() - i,
        {
            let mut j: usize = i + 1;
            let mut repeated = false;
            while j < ids.len() && !repeated
                invariant
                    i < j <= ids.len(),
                    repeated ==> again(ids@, i as int),
                    !repeated ==> forall|k: int| i < k < j ==> #[trigger] ids@[k] != ids@[i as int],
                decreases ids.len() - j, if repeated { 0int } else { 1int },
            {
                if ids[j] == ids[i] {
                    repeated = true;
                } else {
                    j += 1;
                }
            }
            if repeated {
                least = match least {
                    Some(x) => Some(if ids[i] < x { ids[i] } else { x }),
                    None => Some(ids[i]),
                };
            }
            i += 1;
        }
        match least {
            Some(x) => {
                proof {
                    assert forall|y: i64| twice(ids@, y) implies x <= y by {
                        let k = choose|k: int| 0 <= k < ids@.len() && #[trigger] ids@[k] == y && again(ids@, k);
                        assert(again(ids@, k));
                    }
                    assert(least_twice(ids@, x));
                    let chosen = choose|z: i64| least_twice(ids@, z);
                    assert(least_twice(ids@, chosen));
                    assert(chosen == x);
                }
                let mut message: Vec<char> = Vec::new();
                message.push('#');
                assert(message@ =~= seq!['#']);
                let message = joined(&joined(&message, &decimal_of(x)), &chars_of(" appears multiple times."));
                Err(bad(&message))
            },
            None => {
                proof {
                    assert forall|x: i64| !least_twice(ids@, x) by {
                        if twice(ids@, x) {
                            let k = choose|k: int| 0 <= k < ids@.len() && #[trigger] ids@[k] == x && again(ids@, k);
                            assert(again(ids@, k));
                        }
                    }
                }
                Ok(())
            },
        }
    }

    /// At most one task on the path names an id, or the request is bad:
    /// it names the first two ids on the path.
    pub fn tid_single_by(&self, path: &Vec<i64>) -> (found: Result<(), ServiceError>)
        ensures
            refused(found, path_error(self.tasks.deep_view(), path@)),
    {
        let ghost tasks = self.tasks.deep_view();
        let mut ids: Vec<i64> = Vec::new();
        let mut i: usize = 0;
        while i < path.len()
            invariant
                i <= path.len(),
                tasks == self.tasks.deep_view(),
                ids@ == carried(tasks, path@, i as int),
            decreases path.len() - i,
        {
            let at = path[i];
            if 0 <= at && (at as u64) < (self.tasks.len() as u64) {
                assert(tasks[at as int] == self.tasks@[at as int].deep_view());
                match self.tasks[at as usize].id {
                    Some(id) => {
                        ids.push(id);
                    },
                    None => {},
                }
            }
            i += 1;
        }
        if ids.len() > 1 {
            let mut message: Vec<char> = Vec::new();
            message.push('#');
            assert(message@ =~= seq!['#']);
            let message = joined(
                &joined(
                    &joined(&joined(&message, &decimal_of(ids[0])), &chars_of(" -> #")),
                    &decimal_of(ids[1]),
                ),
                &chars_of(" existing nodes wiring."),
            );
            return Err(bad(&message));
        }
        Ok(())
    }

    /// No id is named twice, and on no path from a leaf to a root two
    /// tasks name an id; or the request is bad.
    pub fn valid_tid_use(&self) -> (found: Result<(), ServiceError>)
        ensures
            refused(
                found,
                first(
                    unique_error(ids_of(self.tasks.deep_view(), self.tasks@.len() as int)),
                    wiring_error(
                        self.tasks.deep_view(),
                        paths_of(
                            self.arrows@,
                            LR::Root,
                            ends(self.arrows@, LR::Leaf),
                            ends(self.arrows@, LR::Leaf).len() as int,
                        ),
                        0,
                    ),
                ),
            ),
    {
        match self.tid_unique() {
            Err(e) => {
                return Err(e);
            },
            Ok(()) => {},
        }
        let paths = self.arrows.paths();
        let ghost tasks = self.tasks.deep_view();
        let ghost all = paths_view(paths@);
        let mut i: usize = 0;
        while i < paths.len()
            invariant
                i <= paths.len(),
                tasks == self.tasks.deep_view(),
                all == paths_view(paths@),
                all == paths_of(
                    self.arrows@,
                    LR::Root,
                    ends(self.arrows@, LR::Leaf),
                    ends(self.arrows@, LR::Leaf).len() as int,
                ),
                unique_error(ids_of(tasks, tasks.len() as int)) is None,
                wiring_error(tasks, all, 0) == wiring_error(tasks, all, i as int),
            decreases paths.len() - i,
        {
            assert(all[i as int] == paths@[i as int]@);
            match self.tid_single_by(&paths[i]) {
                Err(e) => {
                    return Err(e);
                },
                Ok(()) => {},
            }
            i += 1;
        }
        Ok(())
    }

    /// Every id that the batch names is among those of the tasks that the
    /// user may edit, or the request is bad: it names the first that is not.
    pub fn valid_tid(&self, editable: &Vec<i64>) -> (found: Result<(), ServiceError>)
        ensures
            refused(found, tid_error(ids_of(self.tasks.deep_view(), self.tasks@.len() as int), editable@, 0)),
    {
        let ids = self.ids();
        let mut i: usize = 0;
        while i < ids.len()
            invariant
                i <= ids.len(),
                ids@ == ids_of(self.tasks.deep_view(), self.tasks@.len() as int),
                tid_error(ids@, editable@, 0) == tid_error(ids@, editable@, i as int),
            decreases ids.len() - i,
        {
            if !crate::sorted::contains_id(editable, ids[i]) {
                let mut message: Vec<char> = Vec::new();
                message.push('#');
                assert(message@ =~= seq!['#']);
                let message = joined(
                    &joined(&message, &decimal_of(ids[i])),
                    &chars_of(": item not found, or no edit permission."),
                );
                return Err(bad(&message));
            }
            i += 1;
        }
        Ok(())
    }

    /// Whom each task is assigned to: the colleague whom it names, the
    /// first of that name; the user where it names nobody. The request is bad
    /// where a task names somebody who is not among the colleagues.
    pub fn valid_assign(&self, user: &AuthedUser, colleagues: &Vec<Colleague>) -> (found: Result<
        Vec<i64>,
        ServiceError,
    >)
        ensures
            match assign_error(user.id, colleagues.deep_view(), self.tasks.deep_view(), 0) {
                Some(m) => found is Err && found->Err_0 is BadRequest && found->Err_0.message() == m,
                None => found is Ok && found->Ok_0@.len() == self.tasks@.len() && forall|i: int|
                    0 <= i < self.tasks@.len() ==> Some(#[trigger] found->Ok_0@[i]) == assignee(
                        user.id,
                        colleagues.deep_view(),
                        self.tasks.deep_view()[i],
                    ),
            },
    {
        let ghost tasks = self.tasks.deep_view();
        let ghost known = colleagues.deep_view();
        let mut assigns: Vec<i64> = Vec::new();
        let mut i: usize = 0;
        while i < self.tasks.len()
            invariant
                i <= self.tasks.len(),
                tasks == self.tasks.deep_view(),
                known == colleagues.deep_view(),
                assign_error(user.id, known, tasks, 0) == assign_error(user.id, known, tasks, i as int),
                assigns@.len() == i,
                forall|k: int| 0 <= k < i ==> Some(#[trigger] assigns@[k]) == assignee(user.id, known, tasks[k]),
            decreases self.tasks.len() - i,
        {
            let task = &self.tasks[i];
            assert(tasks[i as int] == task.deep_view());
            let to = match &task.assign {
                None => user.id,
                Some(name) => {
                    let mut j: usize = 0;
                    let mut found: Option<i64> = None;
                    while j < colleagues.len() && found.is_none()
                        invariant
                            j <= colleagues.len(),
                            known == colleagues.deep_view(),
                            match found {
                                Some(id) => lookup(known, name@, 0) == Some(id),
                                None => lookup(known, name@, 0) == lookup(known, name@, j as int),
                            },
                        decreases colleagues.len() - j, if found is None { 1int } else { 0int },
                    {
                        assert(known[j as int] == colleagues@[j as int].deep_view());
                        if colleagues[j].name == *name {
                            found = Some(colleagues[j].id);
                        } else {
                            j += 1;
                        }
                    }
                    match found {
                        Some(id) => id,
                        None => {
                            let mut message: Vec<char> = Vec::new();
                            message.push('@');
                            assert(message@ =~= seq!['@']);
                            let message = joined(
                                &joined(&message, &chars_of(name.as_str())),
                                &chars_of(": user not found."),
                            );
                            return Err(bad(&message));
                        },
                    }
                },
            };
            assigns.push(to);
            i += 1;
        }
        Ok(assigns)
    }

    /// The batch, accepted for `user`, or the first reason why it is not
    /// (see `refusal`). `editable` holds the ids of the tasks that the user
    /// may edit, `colleagues` the users whom the user may assign tasks to. A
    /// batch with a cycle is never accepted.
    pub fn accept(self, user: &AuthedUser, editable: &Vec<i64>, colleagues: &Vec<Colleague>) -> (found: Result<
        Upserter,
        ServiceError,
    >)
        ensures
            match refusal(self.tasks.deep_view(), self.arrows@, user.id, editable@, colleagues.deep_view()) {
                Some(m) => found is Err && found->Err_0 is BadRequest && found->Err_0.message() == m,
                None => found is Ok && found->Ok_0.arrows@ == self.arrows@ && found->Ok_0.tasks@.len()
                    == self.tasks@.len() && forall|i: int|
                    0 <= i < self.tasks@.len() ==> assignee(
                        user.id,
                        colleagues.deep_view(),
                        self.tasks.deep_view()[i],
                    ) is Some && #[trigger] found->Ok_0.tasks.deep_view()[i] == assigned(
                        self.tasks.deep_view()[i],
                        assignee(user.id, colleagues.deep_view(), self.tasks.deep_view()[i])->0,
                    ),
            },
            cyclic(self.arrows@) ==> found is Err && found->Err_0 is BadRequest && found->Err_0.message()
                == loop_message(),
    {
        match self.no_loop() {
            Err(e) => {
                return Err(e);
            },
            Ok(()) => {},
        }
        match self.valid_sd() {
            Err(e) => {
                return Err(e);
            },
            Ok(()) => {},
        }
        match self.valid_tid_use() {
            Err(e) => {
                return Err(e);
            },
            Ok(()) => {},
        }
        match self.valid_tid(editable) {
            Err(e) => {
                return Err(e);
            },
            Ok(()) => {},
        }
        let assigns = match self.valid_assign(user, colleagues) {
            Err(e) => {
                return Err(e);
            },
            Ok(assigns) => assigns,
        };
        let ghost before = self.tasks.deep_view();
        let ghost known = colleagues.deep_view();
        let mut tasks: Vec<TmpTaskOk> = Vec::new();
        let mut i: usize = 0;
        while i < self.tasks.len()
            invariant
                i <= self.tasks.len(),
                before == self.tasks.deep_view(),
                assigns@.len() == self.tasks@.len(),
                forall|k: int|
                    0 <= k < self.tasks@.len() ==> Some(#[trigger] assigns@[k]) == assignee(user.id, known, before[k]),
                tasks@.len() == i,
                forall|k: int| 0 <= k < i ==> #[trigger] tasks.deep_view()[k] == assigned(before[k], assigns@[k]),
            decreases self.tasks.len() - i,
        {
            let task = &self.tasks[i];
            assert(before[i as int] == task.deep_view());
            let ok = TmpTaskOk {
                id: task.id,
                title: task.title.clone(),
                assign: assigns[i],
                is_starred: task.is_starred,
                startable: task.startable,
                deadline: task.deadline,
                weight: copied_decimal(&task.weight),
                link: copied(&task.link),
            };
            let ghost sofar = tasks.deep_view();
            let ghost fresh = ok.deep_view();
            tasks.push(ok);
            assert(tasks.deep_view() =~= sofar.push(fresh));
            i += 1;
        }
        proof {
            assert forall|i: int| 0 <= i < self.tasks@.len() implies assignee(user.id, known, before[i]) is Some
                && #[trigger] tasks.deep_view()[i] == assigned(
                before[i],
                assignee(user.id, known, before[i])->0,
            ) by {
                assert(Some(assigns@[i]) == assignee(user.id, known, before[i]));
            }
        }
        Ok(Upserter { tasks, arrows: self.arrows })
    }
}

impl Upserter {
    /// What the tasks were stored as, once the store has given its ids:
    /// `permanents` holds the id of each task of the batch, in their order.
    /// Each arrow is put on the ids of the two tasks that it joins; a task
    /// that named no id counts as created, the others as updated. Where the
    /// ids are not as many as the tasks, a task that named an id was stored
    /// under another, or an arrow leaves the batch, the fault is the server's.
    pub fn upsert(self, permanents: &Vec<i64>) -> (found: Result<Stored, ServiceError>)
        ensures
            stored_as(self.tasks.deep_view(), self.arrows@, permanents@) ==> found is Ok && found->Ok_0.arrows@
                == remapped(self.arrows@, permanents@) && found->Ok_0.created == fresh(
                self.tasks.deep_view(),
                self.tasks@.len() as int,
            ) && found->Ok_0.created + found->Ok_0.updated == self.tasks@.len(),
            !stored_as(self.tasks.deep_view(), self.arrows@, permanents@) ==> found is Err && found->Err_0
                is InternalServerError,
    {
        let total = self.tasks.len();
        if permanents.len() != total || total > 0xffff_ffff {
            return Err(ServiceError::InternalServerError);
        }
        let ghost tasks = self.tasks.deep_view();
        let mut created: u32 = 0;
        let mut i: usize = 0;
        while i < total
            invariant
                i <= total == self.tasks@.len(),
                total <= u32::MAX,
                tasks == self.tasks.deep_view(),
                permanents@.len() == total,
                created == fresh(tasks, i as int),
                forall|j: int| 0 <= j < i ==> (#[trigger] tasks[j]).id is Some ==> permanents@[j] == tasks[j].id->0,
            decreases total - i,
        {
            proof {
                lemma_fresh_bounds(tasks, i as int);
            }
            assert(tasks[i as int] == self.tasks@[i as int].deep_view());
            match self.tasks[i].id {
                Some(id) => {
                    if permanents[i] != id {
                        assert(!named(tasks, permanents@)) by {
                            assert(tasks[i as int].id is Some);
                        }
                        return Err(ServiceError::InternalServerError);
                    }
                },
                None => {
                    created += 1;
                },
            }
            i += 1;
        }
        assert(named(tasks, permanents@));
        proof {
            lemma_fresh_bounds(tasks, total as int);
        }
        let mut arrows: Vec<Arrow> = Vec::new();
        let mut k: usize = 0;
        while k < self.arrows.arrows.len()
            invariant
                k <= self.arrows.arrows.len(),
                permanents@.len() == total,
                forall|j: int|
                    0 <= j < k ==> 0 <= (#[trigger] self.arrows@[j]).source < total && 0 <= self.arrows@[j].target
                        < total,
                arrows@ == remapped(self.arrows@.take(k as int), permanents@),
            decreases self.arrows.arrows.len() - k,
        {
            let arrow = self.arrows.arrows[k];
            if arrow.source < 0 || arrow.target < 0 || arrow.source as u64 >= total as u64 || arrow.target as u64
                >= total as u64 {
                return Err(ServiceError::InternalServerError);
            }
            arrows.push(
                Arrow { source: permanents[arrow.source as usize], target: permanents[arrow.target as usize] },
            );
            assert(arrows@ =~= remapped(self.arrows@.take(k + 1), permanents@));
            k += 1;
        }
        assert(self.arrows@.take(k as int) =~= self.arrows@);
        Ok(Stored { arrows, created, updated: (total as u32) - created })
    }
}

} // verus!
