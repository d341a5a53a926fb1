//! The scheduler proper: it works on allocated seconds alone. Each round it
//! elects, among the leaves that may start, the one that is most urgent, ranks
//! it and moves the cursor past its weight.

use std::collections::HashMap;
use vstd::prelude::*;
use crate::graph::{Arrow, Arrows, LR, Tid, Path, is_end, is_dag, rising, paths_from, paths_view, lemma_paths_len};

verus! {

broadcast use vstd::std_specs::hash::group_hash_axioms;

/// No instant and no weight lies further than this from zero, in seconds.
pub const HORIZON: i64 = 1_099_511_627_776;

/// The most tasks, and the most arrows, that one run takes.
pub const MAX_TASKS: usize = 1_048_576;

/// What the scheduler knows of one task, all of it in allocated seconds.
#[derive(Debug, PartialEq, Eq, Clone, Copy, Structural)]
pub struct SubTask {
    pub startable: Option<i64>,
    pub deadline: Option<i64>,
    pub priority: Option<i64>,
    pub weight: Option<i64>,
    pub rank: Option<usize>,
}

/// A candidate of one round, with its urgency.
#[derive(Debug, PartialEq, Eq, Clone, Copy, Structural)]
pub struct Player {
    pub id: i64,
    pub priority: Option<i64>,
}

/// The state of a run: the cursor, the tasks not yet ranked, the arrows
/// among them, and the table of all tasks.
#[derive(Debug, PartialEq, Eq)]
pub struct SubSorter {
    pub cursor: i64,
    pub entries: Vec<i64>,
    pub arrows: Arrows,
    pub map: HashMap<i64, SubTask>,
}

/// A run's state as plain values.
pub struct Plan {
    pub cursor: int,
    pub entries: Seq<i64>,
    pub arrows: Seq<Arrow>,
    pub table: Map<i64, SubTask>,
}

impl View for SubSorter {
    type V = Plan;

    open spec fn view(&self) -> Plan {
        Plan { cursor: self.cursor as int, entries: self.entries@, arrows: self.arrows@, table: self.map@ }
    }
}

/// The deadline of `id`, if the table knows one.
pub open spec fn deadline_of(table: Map<i64, SubTask>, id: i64) -> Option<i64> {
    if table.contains_key(id) {
        table[id].deadline
    } else {
        None
    }
}

/// The instant from which `id` may start, if the table knows one.
pub open spec fn startable_of(table: Map<i64, SubTask>, id: i64) -> Option<i64> {
    if table.contains_key(id) {
        table[id].startable
    } else {
        None
    }
}

/// The weight of `id`, zero where the table knows none.
pub open spec fn weight_of(table: Map<i64, SubTask>, id: i64) -> int {
    if table.contains_key(id) {
        match table[id].weight {
            Some(w) => w as int,
            None => 0,
        }
    } else {
        0
    }
}

/// The earlier of two instants, where an absent one is infinitely late.
pub open spec fn earlier(a: Option<int>, b: Option<i64>) -> Option<int> {
    match (a, b) {
        (Some(x), Some(y)) => Some(if x <= y { x } else { y as int }),
        (Some(x), None) => Some(x),
        (None, Some(y)) => Some(y as int),
        (None, None) => None,
    }
}

/// The latest instant at which `path[from]` may be begun so that every
/// deadline from there to the end of the path is met; `None` where none of
/// these nodes has a deadline.
pub open spec fn latest_start(table: Map<i64, SubTask>, path: Seq<i64>, from: int) -> Option<int>
    decreases path.len() - from,
{
    if from < 0 || from >= path.len() {
        None
    } else {
        match earlier(latest_start(table, path, from + 1), deadline_of(table, path[from])) {
            Some(due) => Some(due - weight_of(table, path[from])),
            None => None,
        }
    }
}

/// How far the cursor is past the latest start of the path's first node.
pub open spec fn priority_along(table: Map<i64, SubTask>, cursor: int, path: Seq<i64>) -> Option<int> {
    match latest_start(table, path, 0) {
        Some(start) => Some(cursor - start),
        None => None,
    }
}

/// `path` without the nodes that follow its last node with a deadline.
pub open spec fn trim(table: Map<i64, SubTask>, path: Seq<i64>) -> Seq<i64>
    decreases path.len(),
{
    if path.len() == 0 || deadline_of(table, path.last()) is Some {
        path
    } else {
        trim(table, path.drop_last())
    }
}

/// The first `n` of the paths, each trimmed, those left empty dropped.
pub open spec fn trimmed(table: Map<i64, SubTask>, paths: Seq<Seq<i64>>, n: int) -> Seq<Seq<i64>>
    decreases n,
{
    if n <= 0 || n > paths.len() {
        Seq::empty()
    } else if trim(table, paths[n - 1]).len() > 0 {
        trimmed(table, paths, n - 1).push(trim(table, paths[n - 1]))
    } else {
        trimmed(table, paths, n - 1)
    }
}

/// The paths from `id` to the roots, each cut behind its last deadline.
pub open spec fn deadline_paths(table: Map<i64, SubTask>, arrows: Seq<Arrow>, id: i64) -> Seq<Seq<i64>> {
    let all = paths_from(arrows, LR::Root, id);
    trimmed(table, all, all.len() as int)
}

/// The greater of two urgencies, where an absent one is the least.
pub open spec fn greater(a: Option<int>, b: Option<int>) -> Option<int> {
    match (a, b) {
        (Some(x), Some(y)) => Some(if x >= y { x } else { y }),
        (Some(x), None) => Some(x),
        (None, y) => y,
    }
}

/// The greatest urgency along the first `n` of the paths.
pub open spec fn best(table: Map<i64, SubTask>, cursor: int, paths: Seq<Seq<i64>>, n: int) -> Option<int>
    decreases n,
{
    if n <= 0 || n > paths.len() {
        None
    } else {
        greater(best(table, cursor, paths, n - 1), priority_along(table, cursor, paths[n - 1]))
    }
}

impl Plan {
    /// The urgency of `id`: the greatest along its paths to the roots;
    /// `None` where none of them has a deadline.
    pub open spec fn priority_of(self, id: i64) -> Option<int> {
        let paths = deadline_paths(self.table, self.arrows, id);
        best(self.table, self.cursor, paths, paths.len() as int)
    }

    /// `id` may be worked on now: it is a leaf, and its start is not ahead of the cursor.
    pub open spec fn ready(self, id: i64) -> bool {
        &&& match startable_of(self.table, id) {
            Some(t) => t <= self.cursor,
            None => true,
        }
        &&& is_end(self.arrows, LR::Leaf, id)
    }

    /// Those of the first `n` entries that are ready, in their order.
    pub open spec fn eligible(self, n: int) -> Seq<i64>
        decreases n,
    {
        if n <= 0 || n > self.entries.len() {
            Seq::empty()
        } else if self.ready(self.entries[n - 1]) {
            self.eligible(n - 1).push(self.entries[n - 1])
        } else {
            self.eligible(n - 1)
        }
    }

    /// The most urgent of the first `n` candidates, the last of them where
    /// several are as urgent; `None` where there is no candidate.
    pub open spec fn elect(self, candidates: Seq<i64>, n: int) -> Option<i64>
        decreases n,
    {
        if n <= 0 || n > candidates.len() {
            None
        } else {
            match self.elect(candidates, n - 1) {
                Some(before) if !at_most(self.priority_of(before), self.priority_of(candidates[n - 1])) => Some(
                    before,
                ),
                _ => Some(candidates[n - 1]),
            }
        }
    }

    /// The winner of this round, if any entry is ready.
    pub open spec fn winner(self) -> Option<i64> {
        let candidates = self.eligible(self.entries.len() as int);
        self.elect(candidates, candidates.len() as int)
    }

    /// The numbers are small enough to be computed with: no weight is
    /// negative or beyond the horizon, and the cursor and every instant of the
    /// table lie within as many horizons as there can be tasks.
    pub open spec fn bounded(self) -> bool {
        &&& 0 <= self.cursor <= HORIZON * (MAX_TASKS + 1)
        &&& self.arrows.len() <= MAX_TASKS
        &&& within(self.table)
    }

    /// A run can start from here: the numbers are bounded, the cursor and the
    /// starts of the entries lie within one horizon, every entry is in the
    /// table, every arrow joins two entries, and the arrows hold no cycle.
    pub open spec fn runnable(self) -> bool {
        &&& self.bounded()
        &&& self.cursor <= HORIZON
        &&& self.entries.len() <= MAX_TASKS
        &&& self.settled()
    }

    /// Every entry is in the table and may start within the horizon, every
    /// arrow joins two entries, and the arrows hold no cycle.
    pub open spec fn settled(self) -> bool {
        &&& forall|i: int|
            0 <= i < self.entries.len() ==> {
                &&& self.table.contains_key(#[trigger] self.entries[i])
                &&& self.table[self.entries[i]].startable is Some ==> self.table[self.entries[i]].startable->0
                    <= HORIZON
            }
        &&& forall|k: int|
            0 <= k < self.arrows.len() ==> self.entries.contains((#[trigger] self.arrows[k]).source)
                && self.entries.contains(self.arrows[k].target)
        &&& is_dag(self.arrows)
    }

    /// The state after one round from `self`, in which `rank` tasks have been
    /// ranked: the winner, if there is one, is ranked, starts at the cursor and
    /// ends its weight later, where the cursor then stands, and leaves the
    /// entries with the arrows that start from it; without a winner the cursor
    /// moves on by one second.
    pub open spec fn step(self, rank: nat) -> (Plan, nat) {
        if self.entries.len() == 0 {
            (self, rank)
        } else {
            match self.winner() {
                None => (Plan { cursor: self.cursor + 1, ..self }, rank),
                Some(id) => {
                    let end = self.cursor + weight_of(self.table, id);
                    let done = SubTask {
                        startable: Some(self.cursor as i64),
                        deadline: Some(end as i64),
                        priority: narrow(self.priority_of(id)),
                        weight: self.table[id].weight,
                        rank: Some(rank as usize),
                    };
                    (
                        Plan {
                            cursor: end,
                            entries: without(self.entries, id),
                            arrows: without_source(self.arrows, id),
                            table: self.table.insert(id, done),
                        },
                        rank + 1,
                    )
                },
            }
        }
    }

    /// The state after `n` rounds.
    pub open spec fn run(self, rank: nat, n: nat) -> (Plan, nat)
        decreases n,
    {
        if n == 0 {
            (self, rank)
        } else {
            let (before, ranked) = self.run(rank, (n - 1) as nat);
            before.step(ranked)
        }
    }
}

/// No weight of the table is negative or beyond the horizon, and every
/// instant lies within as many horizons as there can be tasks.
pub open spec fn within(table: Map<i64, SubTask>) -> bool {
    forall|id: i64| #[trigger]
        table.contains_key(id) ==> {
            &&& table[id].startable is Some ==> -HORIZON * (MAX_TASKS + 2) <= table[id].startable->0 <= HORIZON
                * (MAX_TASKS + 2)
            &&& table[id].deadline is Some ==> -HORIZON * (MAX_TASKS + 2) <= table[id].deadline->0 <= HORIZON
                * (MAX_TASKS + 2)
            &&& table[id].weight is Some ==> 0 <= table[id].weight->0 <= HORIZON
        }
}

/// Each of the tasks `all` that is no longer among the entries has a rank
/// below `rank`, and no two of them have the same.
pub open spec fn ranked(all: Seq<i64>, plan: Plan, rank: int) -> bool {
    &&& forall|id: i64|
        all.contains(id) && !plan.entries.contains(id) ==> {
            &&& #[trigger] plan.table.contains_key(id)
            &&& plan.table[id].rank is Some
            &&& plan.table[id].rank->0 < rank
        }
    &&& forall|a: i64, b: i64|
        all.contains(a) && !plan.entries.contains(a) && all.contains(b) && !plan.entries.contains(b) && a != b
            ==> (#[trigger] plan.table[a]).rank != (#[trigger] plan.table[b]).rank
}

/// The run from `start` has ranked `id`: it was an entry and is none any more.
pub open spec fn ranked_out(start: Plan, plan: Plan, id: i64) -> bool {
    start.entries.contains(id) && !plan.entries.contains(id)
}

/// The slot that the run from `start` gave to `id`: it starts at or
/// after the start of the run and at or after the instant from which the
/// task might start, ends the task's weight later, at the cursor or before
/// it, and the weight is kept.
pub open spec fn slot_of(start: Plan, plan: Plan, id: i64) -> bool {
    let done = plan.table[id];
    &&& plan.table.contains_key(id)
    &&& done.startable is Some
    &&& done.deadline is Some
    &&& done.deadline->0 - done.startable->0 == weight_of(start.table, id)
    &&& done.weight == start.table[id].weight
    &&& start.cursor <= done.startable->0
    &&& done.deadline->0 <= plan.cursor
    &&& match startable_of(start.table, id) {
        Some(t) => t <= done.startable->0,
        None => true,
    }
}

/// The slot of `b` starts where the slot of `a` ends, or later.
pub open spec fn follows(table: Map<i64, SubTask>, a: i64, b: i64) -> bool {
    table[a].deadline->0 <= table[b].startable->0
}

/// The cursor has not moved back; the entries are in the table as at the
/// start; each task that was ranked has its slot; and the slots follow one
/// another in the order of the ranks.
pub open spec fn slotted(start: Plan, plan: Plan) -> bool {
    &&& start.cursor <= plan.cursor
    &&& forall|id: i64| #[trigger]
        plan.entries.contains(id) ==> start.table.contains_key(id) && plan.table.contains_key(id)
            && plan.table[id] == start.table[id]
    &&& forall|id: i64| ranked_out(start, plan, id) ==> #[trigger] slot_of(start, plan, id)
    &&& forall|a: i64, b: i64|
        ranked_out(start, plan, a) && ranked_out(start, plan, b) && plan.table[a].rank->0 < plan.table[b].rank->0
            ==> #[trigger] follows(plan.table, a, b)
}

/// The source of the arrow was ranked, and before its target.
pub open spec fn before(plan: Plan, arrow: Arrow) -> bool {
    !plan.entries.contains(arrow.source) && plan.table[arrow.source].rank->0 < plan.table[arrow.target].rank->0
}

/// The ranks follow the arrows: an arrow of the start is still there
/// while its source is an entry, and once its target is ranked its source
/// was ranked before.
pub open spec fn ordered(start: Plan, plan: Plan) -> bool {
    &&& forall|k: int|
        0 <= k < start.arrows.len() && plan.entries.contains((#[trigger] start.arrows[k]).source)
            ==> plan.arrows.contains(start.arrows[k])
    &&& forall|k: int|
        0 <= k < start.arrows.len() && !plan.entries.contains((#[trigger] start.arrows[k]).target) ==> before(
            plan,
            start.arrows[k],
        )
}

/// The run ends with `id`: its slot ends at the cursor, and no task has a higher rank.
pub open spec fn closes_with(start: Plan, plan: Plan, id: i64) -> bool {
    &&& start.entries.contains(id)
    &&& plan.table[id].deadline == Some(plan.cursor as i64)
    &&& forall|b: i64| start.entries.contains(b) ==> (#[trigger] plan.table[b]).rank->0 <= plan.table[id].rank->0
}

/// `ids` without every occurrence of `id`.
pub open spec fn without(ids: Seq<i64>, id: i64) -> Seq<i64>
    decreases ids.len(),
{
    if ids.len() == 0 {
        ids
    } else if ids.last() == id {
        without(ids.drop_last(), id)
    } else {
        without(ids.drop_last(), id).push(ids.last())
    }
}

/// `arrows` without those that start from `id`.
pub open spec fn without_source(arrows: Seq<Arrow>, id: i64) -> Seq<Arrow>
    decreases arrows.len(),
{
    if arrows.len() == 0 {
        arrows
    } else if arrows.last().source == id {
        without_source(arrows.drop_last(), id)
    } else {
        without_source(arrows.drop_last(), id).push(arrows.last())
    }
}

/// `a` is no more urgent than `b`, where an absent urgency is the least.
pub open spec fn at_most(a: Option<int>, b: Option<int>) -> bool {
    match (a, b) {
        (Some(x), Some(y)) => x <= y,
        (Some(_), None) => false,
        (None, _) => true,
    }
}

/// An urgency as the machine holds it.
pub open spec fn narrow(p: Option<int>) -> Option<i64> {
    match p {
        Some(x) => Some(x as i64),
        None => None,
    }
}

/// An urgency as a number.
pub open spec fn widen(p: Option<i64>) -> Option<int> {
    match p {
        Some(x) => Some(x as int),
        None => None,
    }
}

proof fn lemma_latest_start_bounds(table: Map<i64, SubTask>, path: Seq<i64>, from: int)
    requires
        0 <= from <= path.len(),
        within(table),
    ensures
        latest_start(table, path, from) is Some ==> -HORIZON * (MAX_TASKS + 2) - HORIZON * (path.len() - from)
            <= latest_start(table, path, from)->0 <= HORIZON * (MAX_TASKS + 2),
    decreases path.len() - from,
{
    if from < path.len() {
        lemma_latest_start_bounds(table, path, from + 1);
        let id = path[from];
        assert(table.contains_key(id) ==> 0 <= weight_of(table, id) <= HORIZON);
        assert(0 <= weight_of(table, id) <= HORIZON);
        assert(HORIZON * (path.len() - from) == HORIZON * (path.len() - (from + 1)) + HORIZON)
            by (nonlinear_arith);
    }
}

proof fn lemma_trim(table: Map<i64, SubTask>, path: Seq<i64>)
    ensures
        trim(table, path).len() <= path.len(),
        trim(table, path) == path.take(trim(table, path).len() as int),
        trim(table, path).len() > 0 ==> deadline_of(table, trim(table, path).last()) is Some,
    decreases path.len(),
{
    if path.len() == 0 || deadline_of(table, path.last()) is Some {
        assert(path.take(path.len() as int) =~= path);
    } else {
        lemma_trim(table, path.drop_last());
        let t = trim(table, path.drop_last());
        assert(path.drop_last().take(t.len() as int) =~= path.take(t.len() as int));
    }
}

impl SubSorter {
    /// The deadline of `id`, if the table knows one.
    fn deadline(&self, id: i64) -> (d: Option<i64>)
        ensures
            d == deadline_of(self@.table, id),
    {
        match self.map.get(&id) {
            Some(task) => task.deadline,
            None => None,
        }
    }

    /// The weight of `id`, zero where the table knows none.
    fn weight(&self, id: i64) -> (w: i64)
        ensures
            w == weight_of(self@.table, id),
    {
        match self.map.get(&id) {
            Some(task) => match task.weight {
                Some(w) => w,
                None => 0,
            },
            None => 0,
        }
    }

    /// How far the cursor is past the latest start of the path's first node:
    /// walking the path from its end, the earliest deadline seen so far less
    /// the weights passed. `None` where no node of the path has a deadline.
    pub fn priority_by(&self, path: &Path) -> (priority: Option<i64>)
        requires
            self@.bounded(),
            path@.len() <= MAX_TASKS + 1,
        ensures
            widen(priority) == priority_along(self@.table, self@.cursor, path@),
    {
        let mut due: Option<i64> = None;
        let mut i: usize = path.len();
        while i > 0
            invariant
                i <= path.len(),
                path@.len() <= MAX_TASKS + 1,
                self@.bounded(),
                widen(due) == latest_start(self@.table, path@, i as int),
            decreases i,
        {
            i -= 1;
            let id = path[i];
            proof {
                lemma_latest_start_bounds(self@.table, path@, i + 1);
                lemma_latest_start_bounds(self@.table, path@, i as int);
                assert(HORIZON * (path@.len() - i) <= HORIZON * (MAX_TASKS + 1)) by (nonlinear_arith)
                    requires
                        0 <= i,
                        path@.len() <= MAX_TASKS + 1,
                ;
            }
            let limit = match (due, self.deadline(id)) {
                (Some(x), Some(y)) => Some(if x <= y { x } else { y }),
                (Some(x), None) => Some(x),
                (None, Some(y)) => Some(y),
                (None, None) => None,
            };
            due = match limit {
                Some(x) => Some(x - self.weight(id)),
                None => None,
            };
        }
        proof {
            lemma_latest_start_bounds(self@.table, path@, 0);
            assert(HORIZON * (path@.len() - 0) <= HORIZON * (MAX_TASKS + 1)) by (nonlinear_arith)
                requires
                    path@.len() <= MAX_TASKS + 1,
            ;
        }
        match due {
            Some(start) => Some(self.cursor - start),
            None => None,
        }
    }
}

proof fn lemma_trimmed_len(table: Map<i64, SubTask>, paths: Seq<Seq<i64>>, n: int, bound: int)
    requires
        0 <= n <= paths.len(),
        forall|i: int| 0 <= i < paths.len() ==> (#[trigger] paths[i]).len() <= bound,
    ensures
        forall|i: int|
            0 <= i < trimmed(table, paths, n).len() ==> 0 < (#[trigger] trimmed(table, paths, n)[i]).len()
                <= bound,
    decreases n,
{
    if n > 0 {
        lemma_trimmed_len(table, paths, n - 1, bound);
        lemma_trim(table, paths[n - 1]);
        let all = trimmed(table, paths, n);
        let before = trimmed(table, paths, n - 1);
        assert forall|i: int| 0 <= i < all.len() implies 0 < (#[trigger] all[i]).len() <= bound by {
            if i < before.len() {
                assert(all[i] == before[i]);
            } else {
                assert(all[i] == trim(table, paths[n - 1]));
                assert(paths[n - 1].len() <= bound);
            }
        }
    }
}

/// What is left of a list once `id` is taken out.
pub proof fn lemma_without(ids: Seq<i64>, id: i64)
    ensures
        without(ids, id).len() <= ids.len(),
        ids.contains(id) ==> without(ids, id).len() < ids.len(),
        forall|x: i64| #[trigger] without(ids, id).contains(x) <==> ids.contains(x) && x != id,
    decreases ids.len(),
{
    if ids.len() > 0 {
        let front = ids.drop_last();
        lemma_without(front, id);
        assert(ids =~= front.push(ids.last()));
        assert forall|x: i64| #[trigger] without(ids, id).contains(x) <==> ids.contains(x) && x != id by {
            crate::sorted::lemma_push_contains(front, ids.last(), x);
            crate::sorted::lemma_push_contains(without(front, id), ids.last(), x);
            assert(without(front, id).contains(x) <==> front.contains(x) && x != id);
        }
        crate::sorted::lemma_push_contains(front, ids.last(), id);
    }
}

/// Every arrow that is left was there before, and does not start from `id`.
pub proof fn lemma_without_source(arrows: Seq<Arrow>, id: i64)
    ensures
        without_source(arrows, id).len() <= arrows.len(),
        forall|k: int|
            0 <= k < without_source(arrows, id).len() ==> {
                &&& (#[trigger] without_source(arrows, id)[k]).source != id
                &&& arrows.contains(without_source(arrows, id)[k])
            },
    decreases arrows.len(),
{
    if arrows.len() > 0 {
        let front = arrows.drop_last();
        lemma_without_source(front, id);
        let left = without_source(arrows, id);
        assert forall|k: int| 0 <= k < left.len() implies (#[trigger] left[k]).source != id && arrows.contains(
            left[k],
        ) by {
            if k < without_source(front, id).len() {
                let a = without_source(front, id)[k];
                assert(front.contains(a));
                let j = choose|j: int| 0 <= j < front.len() && front[j] == a;
                assert(arrows[j] == a);
            } else {
                assert(arrows[arrows.len() - 1] == left[k]);
            }
        }
    }
}

/// Where no cycle is, one of the entries is a leaf.
pub proof fn lemma_leaf_exists(plan: Plan) -> (m: int)
    requires
        plan.settled(),
        plan.entries.len() > 0,
    ensures
        0 <= m < plan.entries.len(),
        is_end(plan.arrows, LR::Leaf, plan.entries[m]),
{
    crate::graph::lemma_dag_has_leaf(plan.entries, plan.arrows)
}

/// The candidates are the entries that are ready.
pub proof fn lemma_eligible(plan: Plan, n: int)
    requires
        0 <= n <= plan.entries.len(),
    ensures
        forall|x: i64| #[trigger]
            plan.eligible(n).contains(x) <==> plan.entries.take(n).contains(x) && plan.ready(x),
    decreases n,
{
    if n > 0 {
        lemma_eligible(plan, n - 1);
        let x0 = plan.entries[n - 1];
        assert(plan.entries.take(n) =~= plan.entries.take(n - 1).push(x0));
        assert forall|x: i64| #[trigger]
            plan.eligible(n).contains(x) <==> plan.entries.take(n).contains(x) && plan.ready(x) by {
            crate::sorted::lemma_push_contains(plan.entries.take(n - 1), x0, x);
            crate::sorted::lemma_push_contains(plan.eligible(n - 1), x0, x);
            assert(plan.eligible(n - 1).contains(x) <==> plan.entries.take(n - 1).contains(x) && plan.ready(
                x,
            ));
        }
    } else {
        assert(plan.entries.take(0).len() == 0);
    }
}

/// Whoever is elected is one of the candidates, and somebody is where there is one.
pub proof fn lemma_elect(plan: Plan, candidates: Seq<i64>, n: int)
    requires
        0 <= n <= candidates.len(),
    ensures
        n == 0 <==> plan.elect(candidates, n) is None,
        plan.elect(candidates, n) is Some ==> candidates.contains(plan.elect(candidates, n)->0),
    decreases n,
{
    if n > 0 {
        lemma_elect(plan, candidates, n - 1);
        assert(candidates.contains(candidates[n - 1]));
    }
}

/// The winner of a round is one of the entries, a leaf, and may start.
pub proof fn lemma_winner_is_ready_leaf(plan: Plan)
    ensures
        plan.winner() is Some ==> {
            &&& plan.entries.contains(plan.winner()->0)
            &&& is_end(plan.arrows, LR::Leaf, plan.winner()->0)
            &&& plan.ready(plan.winner()->0)
        },
{
    let n = plan.entries.len() as int;
    let candidates = plan.eligible(n);
    lemma_elect(plan, candidates, candidates.len() as int);
    lemma_eligible(plan, n);
    assert(plan.entries.take(n) =~= plan.entries);
    if plan.winner() is Some {
        let w = plan.winner()->0;
        assert(candidates.contains(w));
        assert(plan.eligible(n).contains(w));
    }
}

/// The cursor never moves back: a round with a winner moves it on by the
/// winner's weight, a round without one by a second.
pub proof fn lemma_cursor_advances(plan: Plan, rank: nat)
    requires
        plan.bounded(),
    ensures
        plan.step(rank).0.cursor >= plan.cursor,
        plan.entries.len() > 0 && plan.winner() is Some ==> plan.step(rank).0.cursor == plan.cursor + weight_of(
            plan.table,
            plan.winner()->0,
        ),
        plan.entries.len() > 0 && plan.winner() is None ==> plan.step(rank).0.cursor == plan.cursor + 1,
{
    if plan.entries.len() > 0 && plan.winner() is Some {
        let id = plan.winner()->0;
        assert(plan.table.contains_key(id) ==> 0 <= weight_of(plan.table, id));
    }
}

/// A round without a winner happens only before the horizon.
proof fn lemma_stalled(plan: Plan)
    requires
        plan.settled(),
        plan.entries.len() > 0,
        plan.winner() is None,
    ensures
        plan.cursor < HORIZON,
{
    let m = lemma_leaf_exists(plan);
    let n = plan.entries.len() as int;
    let candidates = plan.eligible(n);
    lemma_elect(plan, candidates, candidates.len() as int);
    lemma_eligible(plan, n);
    assert(plan.entries.take(n) =~= plan.entries);
    let e = plan.entries[m];
    assert(plan.entries.contains(e));
    if plan.ready(e) {
        assert(plan.eligible(n).contains(e));
        assert(candidates.len() > 0);
    }
}

/// A round with a winner leaves a state from which the run can go on.
proof fn lemma_settled_after(plan: Plan, id: i64, done: SubTask)
    requires
        plan.settled(),
        plan.entries.contains(id),
        is_end(plan.arrows, LR::Leaf, id),
    ensures
        (Plan {
            cursor: plan.cursor,
            entries: without(plan.entries, id),
            arrows: without_source(plan.arrows, id),
            table: plan.table.insert(id, done),
        }).settled(),
{
    let next = Plan {
        cursor: plan.cursor,
        entries: without(plan.entries, id),
        arrows: without_source(plan.arrows, id),
        table: plan.table.insert(id, done),
    };
    lemma_without(plan.entries, id);
    lemma_without_source(plan.arrows, id);
    assert forall|i: int| 0 <= i < next.entries.len() implies {
        &&& next.table.contains_key(#[trigger] next.entries[i])
        &&& next.table[next.entries[i]].startable is Some ==> next.table[next.entries[i]].startable->0 <= HORIZON
    } by {
        let x = next.entries[i];
        assert(next.entries.contains(x));
        assert(plan.entries.contains(x) && x != id);
        let j = choose|j: int| 0 <= j < plan.entries.len() && plan.entries[j] == x;
        assert(plan.table.contains_key(plan.entries[j]));
    }
    assert forall|k: int| 0 <= k < next.arrows.len() implies next.entries.contains(
        (#[trigger] next.arrows[k]).source,
    ) && next.entries.contains(next.arrows[k].target) by {
        let a = next.arrows[k];
        assert(plan.arrows.contains(a));
        let j = choose|j: int| 0 <= j < plan.arrows.len() && plan.arrows[j] == a;
        assert(plan.entries.contains(plan.arrows[j].source));
        assert(plan.arrows[j].side(LR::Leaf.flip()) != id);
        assert(without(plan.entries, id).contains(a.source));
        assert(without(plan.entries, id).contains(a.target));
    }
    let level = choose|level: spec_fn(i64) -> int| rising(plan.arrows, level);
    assert(rising(next.arrows, level)) by {
        assert forall|k: int| 0 <= k < next.arrows.len() implies level((#[trigger] next.arrows[k]).source)
            < level(next.arrows[k].target) by {
            let a = next.arrows[k];
            assert(plan.arrows.contains(a));
            let j = choose|j: int| 0 <= j < plan.arrows.len() && plan.arrows[j] == a;
            assert(level(plan.arrows[j].source) < level(plan.arrows[j].target));
        }
    }
}

/// Ranking the winner keeps the ranks below the next one, and apart.
proof fn lemma_ranked_after(all: Seq<i64>, plan: Plan, id: i64, done: SubTask, rank: int)
    requires
        ranked(all, plan, rank),
        plan.entries.contains(id),
        done.rank == Some(rank as usize),
        0 <= rank < MAX_TASKS,
    ensures
        ranked(
            all,
            Plan {
                cursor: plan.cursor + weight_of(plan.table, id),
                entries: without(plan.entries, id),
                arrows: without_source(plan.arrows, id),
                table: plan.table.insert(id, done),
            },
            rank + 1,
        ),
{
    let next = Plan {
        cursor: plan.cursor + weight_of(plan.table, id),
        entries: without(plan.entries, id),
        arrows: without_source(plan.arrows, id),
        table: plan.table.insert(id, done),
    };
    lemma_without(plan.entries, id);
    assert forall|x: i64| all.contains(x) && !next.entries.contains(x) implies {
        &&& #[trigger] next.table.contains_key(x)
        &&& next.table[x].rank is Some
        &&& next.table[x].rank->0 < rank + 1
    } by {
        assert(without(plan.entries, id).contains(x) <==> plan.entries.contains(x) && x != id);
        if x != id {
            assert(!plan.entries.contains(x));
            assert(plan.table.contains_key(x));
        }
    }
    assert forall|a: i64, b: i64|
        all.contains(a) && !next.entries.contains(a) && all.contains(b) && !next.entries.contains(b) && a
            != b implies (#[trigger] next.table[a]).rank != (#[trigger] next.table[b]).rank by {
        assert(without(plan.entries, id).contains(a) <==> plan.entries.contains(a) && a != id);
        assert(without(plan.entries, id).contains(b) <==> plan.entries.contains(b) && b != id);
        if a != id {
            assert(plan.table.contains_key(a));
        }
        if b != id {
            assert(plan.table.contains_key(b));
        }
        if a != id && b != id {
            assert(plan.table[a].rank != plan.table[b].rank);
        }
    }
}

/// An arrow that does not start from `id` is left when those that do are taken out.
pub proof fn lemma_without_source_keeps(arrows: Seq<Arrow>, id: i64, arrow: Arrow)
    requires
        arrows.contains(arrow),
        arrow.source != id,
    ensures
        without_source(arrows, id).contains(arrow),
    decreases arrows.len(),
{
    if arrows.len() > 0 {
        let front = arrows.drop_last();
        let j = choose|j: int| 0 <= j < arrows.len() && arrows[j] == arrow;
        if j < arrows.len() - 1 {
            assert(front[j] == arrow);
            lemma_without_source_keeps(front, id, arrow);
            let left = without_source(front, id);
            let i = choose|i: int| 0 <= i < left.len() && left[i] == arrow;
            assert(without_source(arrows, id)[i] == arrow);
        } else {
            let left = without_source(arrows, id);
            assert(left[left.len() - 1] == arrow);
        }
    }
}

/// Ranking the winner gives it its slot and keeps the slots in the order of the ranks.
proof fn lemma_slotted_after(start: Plan, plan: Plan, id: i64, done: SubTask, rank: int)
    requires
        slotted(start, plan),
        ranked(start.entries, plan, rank),
        plan.entries.contains(id),
        start.entries.contains(id),
        plan.ready(id),
        0 <= weight_of(plan.table, id),
        done.startable is Some && done.startable->0 == plan.cursor,
        done.deadline is Some && done.deadline->0 == plan.cursor + weight_of(plan.table, id),
        done.weight == plan.table[id].weight,
        done.rank == Some(rank as usize),
        0 <= rank < MAX_TASKS,
    ensures
        slotted(
            start,
            Plan {
                cursor: plan.cursor + weight_of(plan.table, id),
                entries: without(plan.entries, id),
                arrows: without_source(plan.arrows, id),
                table: plan.table.insert(id, done),
            },
        ),
{
    let next = Plan {
        cursor: plan.cursor + weight_of(plan.table, id),
        entries: without(plan.entries, id),
        arrows: without_source(plan.arrows, id),
        table: plan.table.insert(id, done),
    };
    lemma_without(plan.entries, id);
    assert forall|x: i64| #[trigger] next.entries.contains(x) implies start.table.contains_key(x)
        && next.table.contains_key(x) && next.table[x] == start.table[x] by {
        assert(plan.entries.contains(x) && x != id);
    }
    assert(plan.table[id] == start.table[id]);
    assert forall|x: i64| ranked_out(start, next, x) implies #[trigger] slot_of(start, next, x) by {
        if x != id {
            assert(!plan.entries.contains(x));
            assert(slot_of(start, plan, x));
        }
    }
    assert forall|a: i64, b: i64|
        ranked_out(start, next, a) && ranked_out(start, next, b) && next.table[a].rank->0 < next.table[b].rank->0
        implies #[trigger] follows(next.table, a, b) by {
        if a != id {
            assert(!plan.entries.contains(a));
            assert(slot_of(start, plan, a));
            assert(plan.table.contains_key(a));
        }
        if b != id {
            assert(!plan.entries.contains(b));
            assert(slot_of(start, plan, b));
            assert(plan.table.contains_key(b));
        }
        if a != id && b != id {
            assert(follows(plan.table, a, b));
        }
    }
}

/// Ranking the winner, a leaf, keeps the ranks in the order of the arrows.
proof fn lemma_ordered_after(start: Plan, plan: Plan, id: i64, done: SubTask, rank: int)
    requires
        ordered(start, plan),
        ranked(start.entries, plan, rank),
        start.settled(),
        forall|x: i64| plan.entries.contains(x) ==> start.entries.contains(x),
        plan.entries.contains(id),
        is_end(plan.arrows, LR::Leaf, id),
        done.rank == Some(rank as usize),
        0 <= rank < MAX_TASKS,
    ensures
        ordered(
            start,
            Plan {
                cursor: plan.cursor + weight_of(plan.table, id),
                entries: without(plan.entries, id),
                arrows: without_source(plan.arrows, id),
                table: plan.table.insert(id, done),
            },
        ),
{
    let next = Plan {
        cursor: plan.cursor + weight_of(plan.table, id),
        entries: without(plan.entries, id),
        arrows: without_source(plan.arrows, id),
        table: plan.table.insert(id, done),
    };
    lemma_without(plan.entries, id);
    assert forall|k: int|
        0 <= k < start.arrows.len() && next.entries.contains((#[trigger] start.arrows[k]).source)
        implies next.arrows.contains(start.arrows[k]) by {
        let a = start.arrows[k];
        assert(plan.entries.contains(a.source) && a.source != id);
        lemma_without_source_keeps(plan.arrows, id, a);
    }
    assert forall|k: int|
        0 <= k < start.arrows.len() && !next.entries.contains((#[trigger] start.arrows[k]).target) implies before(
        next,
        start.arrows[k],
    ) by {
        let a = start.arrows[k];
        if !plan.entries.contains(a.target) {
            assert(before(plan, a));
        } else {
            assert(a.target == id);
            if plan.entries.contains(a.source) {
                assert(plan.arrows.contains(a));
                let j = choose|j: int| 0 <= j < plan.arrows.len() && plan.arrows[j] == a;
                assert(plan.arrows[j].side(LR::Leaf.flip()) == id);
            }
            assert(start.entries.contains(a.source));
            assert(plan.table.contains_key(a.source));
        }
    }
}

/// Takes every occurrence of `id` out of `ids`.
fn remove_id(ids: &mut Vec<i64>, id: i64)
    ensures
        final(ids)@ == without(old(ids)@, id),
{
    let mut kept: Vec<i64> = Vec::new();
    let mut i: usize = 0;
    while i < ids.len()
        invariant
            i <= ids.len(),
            ids@ == old(ids)@,
            kept@ == without(ids@.take(i as int), id),
        decreases ids.len() - i,
    {
        assert(ids@.take(i + 1).drop_last() =~= ids@.take(i as int));
        if ids[i] != id {
            kept.push(ids[i]);
        }
        i += 1;
    }
    assert(ids@.take(i as int) =~= ids@);
    *ids = kept;
}

/// Takes the arrows that start from `id` out of `arrows`.
fn remove_source(arrows: &mut Vec<Arrow>, id: i64)
    ensures
        final(arrows)@ == without_source(old(arrows)@, id),
{
    let mut kept: Vec<Arrow> = Vec::new();
    let mut i: usize = 0;
    while i < arrows.len()
        invariant
            i <= arrows.len(),
            arrows@ == old(arrows)@,
            kept@ == without_source(arrows@.take(i as int), id),
        decreases arrows.len() - i,
    {
        assert(arrows@.take(i + 1).drop_last() =~= arrows@.take(i as int));
        if arrows[i].source != id {
            kept.push(arrows[i]);
        }
        i += 1;
    }
    assert(arrows@.take(i as int) =~= arrows@);
    *arrows = kept;
}

/// The first `n` nodes of `path`.
fn prefix(path: &Vec<i64>, n: usize) -> (head: Vec<i64>)
    requires
        n <= path.len(),
    ensures
        head@ == path@.take(n as int),
{
    let mut head: Vec<i64> = Vec::new();
    let mut i: usize = 0;
    while i < n
        invariant
            i <= n <= path.len(),
            head@ == path@.take(i as int),
        decreases n - i,
    {
        head.push(path[i]);
        assert(path@.take(i + 1) =~= path@.take(i as int).push(path@[i as int]));
        i += 1;
    }
    head
}

impl SubSorter {
    /// The paths from `id` to the roots, each cut behind its last node with a
    /// deadline, and dropped where it has none.
    pub fn paths(&self, id: i64) -> (paths: Vec<Path>)
        ensures
            paths_view(paths@) == deadline_paths(self@.table, self@.arrows, id),
    {
        let all = Tid::from(id).paths_to(LR::Root, &self.arrows);
        let ghost whole = paths_from(self@.arrows, LR::Root, id);
        let mut paths: Vec<Path> = Vec::new();
        let mut i: usize = 0;
        assert(paths_view(paths@) =~= Seq::<Seq<i64>>::empty());
        while i < all.len()
            invariant
                i <= all.len(),
                paths_view(all@) == whole,
                paths_view(paths@) == trimmed(self@.table, whole, i as int),
            decreases all.len() - i,
        {
            let path = &all[i];
            assert(path@ == whole[i as int]);
            let mut n: usize = path.len();
            assert(path@.take(n as int) =~= path@);
            while n > 0 && self.deadline(path[n - 1]).is_none()
                invariant
                    n <= path.len(),
                    trim(self@.table, path@) == trim(self@.table, path@.take(n as int)),
                decreases n,
            {
                assert(path@.take(n as int).drop_last() =~= path@.take(n - 1));
                n -= 1;
            }
            proof {
                if n > 0 {
                    assert(path@.take(n as int).last() == path@[n - 1]);
                }
                assert(trim(self@.table, path@) == path@.take(n as int));
            }
            if n > 0 {
                let head = prefix(path, n);
                let ghost before = paths@;
                paths.push(head);
                assert(paths_view(paths@) =~= paths_view(before).push(head@));
            }
            i += 1;
        }
        paths
    }

    /// The urgency of `id`: the greatest along its paths to the roots, and
    /// `None` where none of them has a deadline.
    pub fn priority(&self, id: i64) -> (priority: Option<i64>)
        requires
            self@.bounded(),
        ensures
            widen(priority) == self@.priority_of(id),
    {
        let paths = self.paths(id);
        let ghost cut = deadline_paths(self@.table, self@.arrows, id);
        proof {
            let whole = paths_from(self@.arrows, LR::Root, id);
            lemma_paths_len(self@.arrows, LR::Root, id);
            lemma_trimmed_len(self@.table, whole, whole.len() as int, (self@.arrows.len() + 1) as int);
        }
        let mut top: Option<i64> = None;
        let mut i: usize = 0;
        while i < paths.len()
            invariant
                i <= paths.len(),
                self@.bounded(),
                paths_view(paths@) == cut,
                forall|k: int| 0 <= k < cut.len() ==> (#[trigger] cut[k]).len() <= MAX_TASKS + 1,
                widen(top) == best(self@.table, self@.cursor, cut, i as int),
            decreases paths.len() - i,
        {
            assert(paths@[i as int]@ == cut[i as int]);
            let here = self.priority_by(&paths[i]);
            top = match (top, here) {
                (Some(x), Some(y)) => Some(if x >= y { x } else { y }),
                (Some(x), None) => Some(x),
                (None, y) => y,
            };
            i += 1;
        }
        top
    }

    /// The entries that may be worked on now: the leaves whose start is not ahead of the cursor.
    pub fn startables(&self) -> (ids: Vec<i64>)
        ensures
            ids@ == self@.eligible(self@.entries.len() as int),
    {
        let mut ids: Vec<i64> = Vec::new();
        let mut i: usize = 0;
        while i < self.entries.len()
            invariant
                i <= self.entries.len(),
                ids@ == self@.eligible(i as int),
            decreases self.entries.len() - i,
        {
            let id = self.entries[i];
            let may_start = match self.map.get(&id) {
                Some(task) => match task.startable {
                    Some(t) => t <= self.cursor,
                    None => true,
                },
                None => true,
            };
            if may_start && Tid::from(id).is(LR::Leaf, &self.arrows) {
                ids.push(id);
            }
            i += 1;
        }
        ids
    }

    /// The winner of this round: the most urgent of the entries that may be
    /// worked on now, the last of them where several are as urgent. It is a
    /// leaf of the arrows at this moment.
    pub fn winner(&self) -> (winner: Option<Player>)
        requires
            self@.bounded(),
        ensures
            match self@.winner() {
                Some(id) => winner == Some(Player { id, priority: narrow(self@.priority_of(id)) }),
                None => winner is None,
            },
            winner is Some ==> self@.entries.contains(winner->0.id) && is_end(
                self@.arrows,
                LR::Leaf,
                winner->0.id,
            ),
    {
        let candidates = self.startables();
        let mut best: Option<Player> = None;
        let mut i: usize = 0;
        while i < candidates.len()
            invariant
                i <= candidates.len(),
                self@.bounded(),
                match self@.elect(candidates@, i as int) {
                    Some(id) => best == Some(Player { id, priority: narrow(self@.priority_of(id)) })
                        && widen(narrow(self@.priority_of(id))) == self@.priority_of(id),
                    None => best is None,
                },
            decreases candidates.len() - i,
        {
            let id = candidates[i];
            let priority = self.priority(id);
            let player = Player { id, priority };
            best = match best {
                Some(before) => {
                    let keep = match (before.priority, priority) {
                        (Some(x), Some(y)) => x > y,
                        (Some(_), None) => true,
                        (None, _) => false,
                    };
                    if keep {
                        Some(before)
                    } else {
                        Some(player)
                    }
                },
                None => Some(player),
            };
            i += 1;
        }
        proof {
            lemma_winner_is_ready_leaf(self@);
        }
        best
    }

    /// Runs the rounds until every entry is ranked. Each round ranks its
    /// winner, lets it start at the cursor and end its weight later, moves the
    /// cursor there, and takes the winner and the arrows that start from it
    /// out; a round without a winner moves the cursor on by one second.
    ///
    /// Every entry gets a rank of its own below the number of entries, and
    /// the cursor never moves back. Each task has its slot, which ends its
    /// weight after it starts; the slots follow one another in the order of
    /// the ranks, and the last of them ends at the cursor; the ranks follow
    /// the arrows, a source before its target; and no arrow is left.
    pub fn exec(&mut self)
        requires
            old(self)@.runnable(),
        ensures
            final(self)@.entries.len() == 0,
            final(self)@.arrows.len() == 0,
            slotted(old(self)@, final(self)@),
            ordered(old(self)@, final(self)@),
            old(self)@.entries.len() > 0 ==> exists|id: i64| closes_with(old(self)@, final(self)@, id),
            exists|n: nat| (#[trigger] old(self)@.run(0, n)).0 == final(self)@,
            final(self)@.cursor >= old(self)@.cursor,
            forall|id: i64|
                old(self)@.entries.contains(id) ==> {
                    &&& (#[trigger] final(self)@.table.contains_key(id))
                    &&& final(self)@.table[id].rank is Some
                    &&& final(self)@.table[id].rank->0 < old(self)@.entries.len()
                },
            forall|a: i64, b: i64|
                old(self)@.entries.contains(a) && old(self)@.entries.contains(b) && a != b ==> (
                #[trigger] final(self)@.table[a]).rank != (#[trigger] final(self)@.table[b]).rank,
    {
        let mut rank: usize = 0;
        let ghost start = self@;
        let ghost rounds: nat = 0;
        while !self.entries.is_empty()
            invariant
                start == old(self)@,
                start.entries.len() <= MAX_TASKS,
                self@.bounded(),
                self@.settled(),
                self@.entries.len() <= MAX_TASKS,
                rank + self@.entries.len() <= start.entries.len(),
                start.cursor <= self@.cursor <= HORIZON * (rank + 1),
                start.run(0, rounds) == (self@, rank as nat),
                forall|id: i64| self@.entries.contains(id) ==> start.entries.contains(id),
                ranked(start.entries, self@, rank as int),
                start.settled(),
                slotted(start, self@),
                ordered(start, self@),
                self@.entries.len() == 0 && start.entries.len() > 0 ==> exists|id: i64|
                    closes_with(start, self@, id),
            decreases self@.entries.len(), HORIZON - self@.cursor,
        {
            let ghost now = self@;
            match self.winner() {
                Some(win) => {
                    proof {
                        lemma_without(now.entries, win.id);
                        assert(now.table.contains_key(win.id)) by {
                            let j = choose|j: int| 0 <= j < now.entries.len() && now.entries[j] == win.id;
                            assert(now.table.contains_key(now.entries[j]));
                        }
                        assert(HORIZON * (rank + 1) + HORIZON == HORIZON * (rank + 2)) by (nonlinear_arith);
                        assert(HORIZON * (rank + 2) <= HORIZON * (MAX_TASKS + 1)) by (nonlinear_arith)
                            requires
                                rank + 1 <= MAX_TASKS,
                        ;
                    }
                    let weight = self.weight(win.id);
                    let kept = match self.map.get(&win.id) {
                        Some(task) => task.weight,
                        None => None,
                    };
                    let begin = self.cursor;
                    self.cursor = self.cursor + weight;
                    let done = SubTask {
                        startable: Some(begin),
                        deadline: Some(self.cursor),
                        priority: win.priority,
                        weight: kept,
                        rank: Some(rank),
                    };
                    self.map.insert(win.id, done);
                    remove_id(&mut self.entries, win.id);
                    remove_source(&mut self.arrows.arrows, win.id);
                    proof {
                        lemma_settled_after(now, win.id, done);
                        assert(self@ == now.step(rank as nat).0);
                        assert(within(self@.table));
                        lemma_without_source(now.arrows, win.id);
                        lemma_ranked_after(start.entries, now, win.id, done, rank as int);
                        lemma_winner_is_ready_leaf(now);
                        lemma_slotted_after(start, now, win.id, done, rank as int);
                        lemma_ordered_after(start, now, win.id, done, rank as int);
                        if self@.entries.len() == 0 {
                            assert(closes_with(start, self@, win.id)) by {
                                assert forall|b: i64| start.entries.contains(b) implies (
                                #[trigger] self@.table[b]).rank->0 <= self@.table[win.id].rank->0 by {
                                    assert(!self@.entries.contains(b));
                                    assert(self@.table.contains_key(b));
                                }
                            }
                        }
                    }
                    rank += 1;
                },
                None => {
                    proof {
                        lemma_stalled(now);
                    }
                    self.cursor += 1;
                    proof {
                        assert(self@ == now.step(rank as nat).0);
                        assert(ranked(start.entries, self@, rank as int));
                        assert(slotted(start, self@)) by {
                            assert forall|id: i64| ranked_out(start, self@, id) implies #[trigger] slot_of(
                                start,
                                self@,
                                id,
                            ) by {
                                assert(slot_of(start, now, id));
                            }
                            assert forall|a: i64, b: i64|
                                ranked_out(start, self@, a) && ranked_out(start, self@, b)
                                    && self@.table[a].rank->0 < self@.table[b].rank->0 implies #[trigger] follows(
                                self@.table,
                                a,
                                b,
                            ) by {
                                assert(follows(now.table, a, b));
                            }
                        }
                        assert(ordered(start, self@)) by {
                            assert forall|k: int|
                                0 <= k < start.arrows.len() && !self@.entries.contains(
                                    (#[trigger] start.arrows[k]).target,
                                ) implies before(self@, start.arrows[k]) by {
                                assert(before(now, start.arrows[k]));
                            }
                        }
                        assert(HORIZON <= HORIZON * (rank + 1)) by (nonlinear_arith)
                            requires
                                rank >= 0,
                        ;
                    }
                },
            }
            proof {
                rounds = rounds + 1;
            }
        }
        proof {
            assert(start.run(0, rounds).0 == self@);
            let last = self@;
            if last.arrows.len() > 0 {
                assert(last.entries.contains(last.arrows[0].source));
            }
            assert forall|id: i64| start.entries.contains(id) implies {
                &&& (#[trigger] last.table.contains_key(id))
                &&& last.table[id].rank is Some
                &&& last.table[id].rank->0 < start.entries.len()
            } by {
                assert(!last.entries.contains(id));
            }
            assert forall|a: i64, b: i64|
                start.entries.contains(a) && start.entries.contains(b) && a != b implies (
            #[trigger] last.table[a]).rank != (#[trigger] last.table[b]).rank by {
                assert(!last.entries.contains(a));
                assert(!last.entries.contains(b));
            }
        }
    }
}

} // verus!
