//! Between the clock and the allocated time: the user works in daily
//! windows, and an instant is spliced into the count of the seconds of work
//! that lie between now and then.

use std::collections::HashMap;
use vstd::prelude::*;
use crate::clock::{instant_of, local_of, zone_instant, zone_local};
use crate::errors::ServiceError;
use crate::graph::{Arrow, Arrows, is_dag};
use crate::scheduler::{Plan, SubSorter, SubTask, HORIZON, MAX_TASKS, within as table_within};
use crate::tasks::{ResTask, Schedule, task_copy};
use crate::windows::{
    Window, covered, proper, apart, overlap, worked, put_together, settled, passed, lemma_apart,
    lemma_passed_none, lemma_passed_same, lemma_passed_least, lemma_worked, lemma_worked_same, lemma_settled_unique,
};

verus! {

broadcast use vstd::std_specs::hash::group_hash_axioms;

/// A daily window of work: whose it is, the hour and minute at which it
/// opens in the owner's time zone, and for how many hours.
#[derive(Debug, Clone, Copy, PartialEq, Eq, Structural)]
pub struct Allocation {
    pub owner: i64,
    pub open_h: u32,
    pub open_m: u32,
    pub hours: i32,
}

/// The seconds of a day.
pub const DAY: i64 = 86_400;

/// No instant lies further than this from the epoch, in seconds.
pub const FAR: i64 = 4_398_046_511_104;

/// The most windows that a user has.
pub const MAX_ALLOCATIONS: usize = 4_096;

/// The most days that windows are laid out for at once.
pub const MAX_DAYS: i64 = 3_660;

/// What is needed to splice: the user's windows, the present instant, and the user's time zone.
#[derive(Debug, Clone, PartialEq, Eq)]
pub struct Sorter {
    pub allocations: Vec<Allocation>,
    pub now: i64,
    pub tz: String,
}

/// The time zone in which days are counted.
pub open spec fn utc() -> Seq<char> {
    "UTC"@
}

/// The hours of the first `n` windows together.
pub open spec fn hours_sum(allocations: Seq<Allocation>, n: int) -> int
    decreases n,
{
    if n <= 0 || n > allocations.len() {
        0
    } else {
        hours_sum(allocations, n - 1) + allocations[n - 1].hours
    }
}

/// The window on the day that lies `shift` days from the given day.
pub open spec fn window(zone: Seq<char>, year: i32, month: u32, day: u32, allocation: Allocation, shift: int) -> Option<
    Window,
> {
    match instant_of(zone, year, month, day, allocation.open_h, allocation.open_m) {
        Some(open) => if -FAR <= open <= FAR {
            Some(
                Window {
                    open: (open + shift * DAY) as i64,
                    close: (open + shift * DAY + allocation.hours * 3600) as i64,
                },
            )
        } else {
            None
        },
        None => None,
    }
}

/// The first `n` windows on the day that lies `shift` days from the
/// given day; `None` where the calendar cannot place one of them.
pub open spec fn day_windows(
    zone: Seq<char>,
    year: i32,
    month: u32,
    day: u32,
    allocations: Seq<Allocation>,
    shift: int,
    n: int,
) -> Option<Seq<Window>>
    decreases n,
{
    if n <= 0 || n > allocations.len() {
        Some(Seq::empty())
    } else {
        match (
            day_windows(zone, year, month, day, allocations, shift, n - 1),
            window(zone, year, month, day, allocations[n - 1], shift),
        ) {
            (Some(before), Some(w)) => Some(before.push(w)),
            _ => None,
        }
    }
}

/// The windows on the days that lie from `from` to `to` days from the
/// given day, day after day; `None` where the calendar cannot place one of them.
pub open spec fn windows(
    zone: Seq<char>,
    year: i32,
    month: u32,
    day: u32,
    allocations: Seq<Allocation>,
    from: int,
    to: int,
) -> Option<Seq<Window>>
    decreases to - from + 1,
{
    if to < from {
        Some(Seq::empty())
    } else {
        match (
            windows(zone, year, month, day, allocations, from, to - 1),
            day_windows(zone, year, month, day, allocations, to, allocations.len() as int),
        ) {
            (Some(before), Some(more)) => Some(before + more),
            _ => None,
        }
    }
}

/// Where the walk through the stretches from the `k`-th on ends, that
/// starts at `cursor` and has `remain` seconds of work to pass: a stretch
/// that ends before the cursor is passed by; in any other the walk enters, at
/// the cursor or where the stretch opens, and goes on until the remaining
/// seconds are spent or the stretch closes; it stops where nothing remains.
pub open spec fn walked(stretches: Seq<Window>, k: int, cursor: int, remain: int) -> int
    decreases stretches.len() - k,
{
    if k < 0 || k >= stretches.len() {
        cursor
    } else if stretches[k].close < cursor {
        walked(stretches, k + 1, cursor, remain)
    } else {
        let point = if stretches[k].open > cursor {
            stretches[k].open as int
        } else {
            cursor
        };
        let room = stretches[k].close - point;
        let draw = if room < remain {
            room
        } else {
            remain
        };
        if remain - draw == 0 {
            point + draw
        } else {
            walked(stretches, k + 1, point + draw, remain - draw)
        }
    }
}

/// As far from the epoch as a window can lie, in seconds.
pub const REACH: i64 = 4_398_362_907_904;

/// No stretch lies further from the epoch than a window can.
pub open spec fn within(stretches: Seq<Window>) -> bool {
    forall|k: int|
        0 <= k < stretches.len() ==> -REACH <= (#[trigger] stretches[k]).open && stretches[k].close <= REACH
}

/// The ids of the tasks, in their order.
pub open spec fn ids(tasks: Seq<ResTask>) -> Seq<i64> {
    Seq::new(tasks.len(), |i: int| tasks[i].id)
}

/// The rank that the table holds for the task.
pub open spec fn rank_of(table: Map<i64, SubTask>, task: ResTask) -> int {
    match table[task.id].rank {
        Some(r) => r as int,
        None => 0,
    }
}

/// `a` is shown no later than `b`: a starred task before one that is
/// not, and of two that are alike the one with the lower rank first.
pub open spec fn in_order(table: Map<i64, SubTask>, a: ResTask, b: ResTask) -> bool {
    (a.is_starred && !b.is_starred) || (a.is_starred == b.is_starred && rank_of(table, a) <= rank_of(table, b))
}

/// The stretches are the windows put in order, those joined that touch or overlap.
pub open spec fn joined_windows(stretches: Seq<Window>, all: Seq<Window>) -> bool {
    &&& proper(stretches)
    &&& apart(stretches)
    &&& forall|t: int| covered(stretches, t) <==> covered(all, t)
}

impl Sorter {
    /// The numbers are small enough to be computed with, and every
    /// window is open for one hour at least and twenty-four at most.
    pub open spec fn wf(self) -> bool {
        &&& self.allocations@.len() <= MAX_ALLOCATIONS
        &&& -FAR <= self.now <= FAR
        &&& forall|k: int| 0 <= k < self.allocations@.len() ==> 1 <= (#[trigger] self.allocations@[k]).hours <= 24
    }

    /// The seconds of work in a day: the hours of all windows together.
    pub open spec fn daily_seconds(self) -> int {
        hours_sum(self.allocations@, self.allocations@.len() as int) * 3600
    }

    /// The windows around the day, in UTC, of the instant `approx`: those
    /// of the day before up to those of the day `days` + 1 days later.
    pub open spec fn windows_around(self, approx: i64, days: int) -> Option<Seq<Window>> {
        match local_of(utc(), approx) {
            Some(parts) => windows(self.tz@, parts.0, parts.1, parts.2, self.allocations@, -1, days + 1),
            None => None,
        }
    }

    /// The seconds of work between now and `dt`: for each whole day
    /// between them the seconds of a day, and for the rest of the time the
    /// seconds that lie in a window. It is negative for an instant that has
    /// passed. `None` where `dt` lies too far or the calendar cannot place a window.
    pub open spec fn spliced(self, dt: i64) -> Option<int> {
        let days = (dt - self.now) / (DAY as int);
        let approx = self.now + days * DAY;
        if !(-FAR <= dt <= FAR) {
            None
        } else {
            match self.windows_around(approx as i64, 0) {
                Some(all) => Some(self.daily_seconds() * days + worked(all, approx, dt as int)),
                None => None,
            }
        }
    }

    /// The walk through `stretches`, which are the windows around the
    /// starting point put together, ends at `instant` once the seconds of
    /// `allocated` that make no whole day of work are spent.
    pub open spec fn lands(self, allocated: i64, stretches: Seq<Window>, instant: i64) -> bool {
        &&& self.daily_seconds() > 0
        &&& self.windows_around(self.approached(allocated) as i64, 0) is Some
        &&& joined_windows(stretches, self.windows_around(self.approached(allocated) as i64, 0)->0)
        &&& instant == walked(stretches, 0, self.approached(allocated), allocated as int % self.daily_seconds())
    }

    /// `instant` is where `allocated` seconds of work from now are over:
    /// the instant on which the walk lands; none where there is no window,
    /// the walk would start too far from the epoch, or the calendar cannot
    /// place a window.
    pub open spec fn unspliced(self, allocated: i64, instant: Option<i64>) -> bool {
        match instant {
            Some(t) => exists|stretches: Seq<Window>| #[trigger] self.lands(allocated, stretches, t),
            None => self.daily_seconds() == 0 || !(-FAR <= self.approached(allocated) <= FAR)
                || self.windows_around(self.approached(allocated) as i64, 0) is None,
        }
    }

    /// An instant that is there, in seconds of work from now; `None`
    /// where it cannot be spliced or lies beyond the horizon.
    pub open spec fn allocated(self, instant: Option<i64>) -> Option<Option<i64>> {
        match instant {
            None => Some(None),
            Some(dt) => match self.spliced(dt) {
                Some(n) => if -HORIZON <= n <= HORIZON {
                    Some(Some(n as i64))
                } else {
                    None
                },
                None => None,
            },
        }
    }

    /// What the scheduler is told of the task: its start and its deadline
    /// in seconds of work from now, and its weight; `None` where one of them
    /// cannot be spliced, or the weight is negative or beyond the horizon.
    pub open spec fn sub_task(self, task: ResTask) -> Option<SubTask> {
        match (self.allocated(task.startable), self.allocated(task.deadline)) {
            (Some(startable), Some(deadline)) => if task.weight is Some ==> 0 <= task.weight->0 <= HORIZON {
                Some(SubTask { startable, deadline, priority: None, weight: task.weight, rank: None })
            } else {
                None
            },
            _ => None,
        }
    }

    /// The table of the first `n` tasks.
    pub open spec fn table(self, tasks: Seq<ResTask>, n: int) -> Map<i64, SubTask>
        decreases n,
    {
        if n <= 0 || n > tasks.len() {
            Map::empty()
        } else {
            self.table(tasks, n - 1).insert(tasks[n - 1].id, self.sub_task(tasks[n - 1])->0)
        }
    }

    /// The tasks can be scheduled: they and the arrows are not too many,
    /// no two tasks have the same id, each can be told to the scheduler,
    /// and every arrow joins two of them.
    pub open spec fn schedulable(self, tasks: Seq<ResTask>, arrows: Seq<Arrow>) -> bool {
        &&& tasks.len() <= MAX_TASKS
        &&& arrows.len() <= MAX_TASKS
        &&& forall|i: int, j: int| 0 <= i < j < tasks.len() ==> tasks[i].id != tasks[j].id
        &&& forall|i: int| 0 <= i < tasks.len() ==> self.sub_task(#[trigger] tasks[i]) is Some
        &&& forall|k: int|
            0 <= k < arrows.len() ==> ids(tasks).contains((#[trigger] arrows[k]).source) && ids(tasks).contains(
                arrows[k].target,
            )
    }

    /// Where the scheduler starts: the cursor at zero, every task an
    /// entry, and the table of all.
    pub open spec fn plan(self, tasks: Seq<ResTask>, arrows: Seq<Arrow>) -> Plan {
        Plan { cursor: 0, entries: ids(tasks), arrows, table: self.table(tasks, tasks.len() as int) }
    }

    /// `after` is what is shown of `before` once the scheduler has set
    /// `table`: the same task, with the priority that the scheduler gave it,
    /// if it gave one, and with its schedule, the instants on which its
    /// allocated start and end land, if both can be found.
    pub open spec fn dressed(self, table: Map<i64, SubTask>, before: ResTask, after: ResTask) -> bool {
        exists|l: Option<i64>, r: Option<i64>| #[trigger] self.dressed_with(table, before, after, l, r)
    }

    /// `after` is what is shown of `before`, where the ends of its
    /// allocated time land on `l` and `r`.
    pub open spec fn dressed_with(
        self,
        table: Map<i64, SubTask>,
        before: ResTask,
        after: ResTask,
        l: Option<i64>,
        r: Option<i64>,
    ) -> bool {
        let set = table[before.id];
        &&& after == (ResTask {
            priority: if set.priority is Some {
                set.priority
            } else {
                before.priority
            },
            schedule: if self.daily_seconds() > 0 && l is Some && r is Some {
                Some(Schedule { l: l->0, r: r->0 })
            } else {
                before.schedule
            },
            ..before
        })
        &&& self.daily_seconds() > 0 && set.startable is Some && set.deadline is Some ==> self.unspliced(
            set.startable->0,
            l,
        ) && self.unspliced(set.deadline->0, r)
        &&& !(self.daily_seconds() > 0 && set.startable is Some && set.deadline is Some) ==> l is None && r is None
    }

    /// The task is among those shown, dressed.
    pub open spec fn shown_in(self, table: Map<i64, SubTask>, task: ResTask, after: Seq<ResTask>) -> bool {
        exists|i: int| 0 <= i < after.len() && #[trigger] self.dressed(table, task, after[i])
    }

    /// The tasks `after` are those of `before` as they are shown once the
    /// scheduler has ended in `done`: each task once, dressed; the starred
    /// ones first, and in the order of their ranks otherwise.
    pub open spec fn arranged(self, before: Seq<ResTask>, after: Seq<ResTask>, done: Plan) -> bool {
        &&& done.entries.len() == 0
        &&& after.len() == before.len()
        &&& forall|j: int| 0 <= j < before.len() ==> self.shown_in(done.table, #[trigger] before[j], after)
        &&& forall|a: int, b: int|
            0 <= a < b < after.len() ==> in_order(done.table, #[trigger] after[a], #[trigger] after[b])
    }

    /// Where the walk of `unsplice` starts: the present instant and as
    /// many days as `allocated` holds whole days of work.
    pub open spec fn approached(self, allocated: i64) -> int {
        self.now + (allocated as int / self.daily_seconds()) * DAY
    }
}

proof fn lemma_hours_sum(allocations: Seq<Allocation>, n: int)
    requires
        0 <= n <= allocations.len(),
        forall|k: int| 0 <= k < allocations.len() ==> 1 <= (#[trigger] allocations[k]).hours <= 24,
    ensures
        n <= hours_sum(allocations, n) <= 24 * n,
    decreases n,
{
    if n > 0 {
        lemma_hours_sum(allocations, n - 1);
    }
}

/// No more seconds lie in the stretches between two instants than lie between them.
pub proof fn lemma_overlap_bound(stretches: Seq<Window>, from: int, to: int)
    requires
        from <= to,
    ensures
        Set::new(|t: int| from <= t < to && covered(stretches, t)).finite(),
        Set::new(|t: int| from <= t < to && covered(stretches, t)).len() <= to - from,
{
    let inside = Set::new(|t: int| from <= t < to && covered(stretches, t));
    let range = vstd::set_lib::set_int_range(from, to);
    vstd::set_lib::lemma_int_range(from, to);
    assert(inside.subset_of(range));
    vstd::set_lib::lemma_len_subset(inside, range);
}

/// `a` divided by `b`, rounded down, and what is left.
pub fn floor_div(a: i64, b: i64) -> (qr: (i64, i64))
    requires
        b > 0,
    ensures
        qr.0 == a / b,
        qr.1 == a % b,
        0 <= qr.1 < b,
{
    if a >= 0 {
        proof {
            vstd::arithmetic::div_mod::lemma_fundamental_div_mod(a as int, b as int);
            vstd::arithmetic::div_mod::lemma_mod_bound(a as int, b as int);
        }
        (a / b, a % b)
    } else {
        let n = -(a + 1);
        let q = n / b;
        let r = n % b;
        proof {
            vstd::arithmetic::div_mod::lemma_fundamental_div_mod(n as int, b as int);
            vstd::arithmetic::div_mod::lemma_mod_bound(n as int, b as int);
            vstd::arithmetic::div_mod::lemma_div_pos_is_pos(n as int, b as int);
            assert(a == (-q - 1) * b + (b - 1 - r)) by (nonlinear_arith)
                requires
                    n == b * q + r,
                    n == -(a + 1),
            ;
            vstd::arithmetic::div_mod::lemma_fundamental_div_mod_converse(
                a as int,
                b as int,
                -q - 1,
                b - 1 - r,
            );
        }
        (-q - 1, b - 1 - r)
    }
}

impl Sorter {
    /// Whether the numbers are small enough to be computed with, and
    /// every window is open for one hour at least and twenty-four at most.
    pub fn sound(&self) -> (yes: bool)
        ensures
            yes == self.wf(),
    {
        if self.allocations.len() > MAX_ALLOCATIONS || self.now < -FAR || self.now > FAR {
            return false;
        }
        let mut i: usize = 0;
        while i < self.allocations.len()
            invariant
                i <= self.allocations.len(),
                forall|k: int| 0 <= k < i ==> 1 <= (#[trigger] self.allocations@[k]).hours <= 24,
            decreases self.allocations.len() - i,
        {
            if self.allocations[i].hours < 1 || self.allocations[i].hours > 24 {
                return false;
            }
            i += 1;
        }
        true
    }

    /// The seconds of work in a day: the hours of all windows together.
    pub fn daily(&self) -> (seconds: i64)
        requires
            self.wf(),
        ensures
            seconds == self.daily_seconds(),
            0 <= seconds <= 86_400 * MAX_ALLOCATIONS,
            seconds == 0 <==> self.allocations@.len() == 0,
    {
        let mut hours: i64 = 0;
        let mut i: usize = 0;
        while i < self.allocations.len()
            invariant
                i <= self.allocations.len(),
                self.wf(),
                hours == hours_sum(self.allocations@, i as int),
                i <= hours <= 24 * i,
            decreases self.allocations.len() - i,
        {
            hours = hours + self.allocations[i].hours as i64;
            i += 1;
        }
        hours * 3600
    }

    /// The windows around the day, in UTC, of the instant `approx`: for
    /// each day from the day before to the day `days` + 1 days later, each
    /// window from the minute at which it opens on that day in the user's
    /// time zone until its hours are over. `None` where the calendar cannot
    /// place a window.
    pub fn allocations_set(&self, approx: i64, days: i64) -> (all: Option<Vec<Window>>)
        requires
            self.wf(),
            0 <= days <= MAX_DAYS,
        ensures
            match all {
                Some(w) => self.windows_around(approx, days as int) == Some(w@) && proper(w@) && within(w@),
                None => self.windows_around(approx, days as int) is None,
            },
    {
        let (year, month, day) = match zone_local("UTC", approx) {
            Some((year, month, day, _, _)) => (year, month, day),
            None => {
                return None;
            },
        };
        let ghost zone = self.tz@;
        let ghost list = self.allocations@;
        let ghost goal = self.windows_around(approx, days as int);
        assert(goal == windows(zone, year, month, day, list, -1, days + 1));
        let mut all: Vec<Window> = Vec::new();
        let mut shift: i64 = -1;
        while shift <= days + 1
            invariant
                -1 <= shift <= days + 2,
                0 <= days <= MAX_DAYS,
                self.wf(),
                zone == self.tz@,
                list == self.allocations@,
                windows(zone, year, month, day, list, -1, shift - 1) == Some(all@),
                proper(all@),
                within(all@),
                goal == windows(zone, year, month, day, list, -1, days + 1),
                goal == self.windows_around(approx, days as int),
            decreases days + 2 - shift,
        {
            let mut today: Vec<Window> = Vec::new();
            let mut i: usize = 0;
            while i < self.allocations.len()
                invariant
                    i <= self.allocations.len(),
                    -1 <= shift <= days + 1,
                    0 <= days <= MAX_DAYS,
                    self.wf(),
                    zone == self.tz@,
                    list == self.allocations@,
                    day_windows(zone, year, month, day, list, shift as int, i as int) == Some(today@),
                    today@.len() == i,
                    proper(today@),
                    within(today@),
                    goal == windows(zone, year, month, day, list, -1, days + 1),
                    goal == self.windows_around(approx, days as int),
                decreases self.allocations.len() - i,
            {
                let allocation = self.allocations[i];
                let open = match zone_instant(self.tz.as_str(), year, month, day, allocation.open_h, allocation.open_m) {
                    Some(open) => open,
                    None => {
                        proof {
                            lemma_day_windows_none(zone, year, month, day, list, shift as int, i + 1, list.len() as int);
                            lemma_windows_none(zone, year, month, day, list, -1, shift as int, days + 1);
                        }
                        return None;
                    },
                };
                if open < -FAR || open > FAR {
                    proof {
                        lemma_day_windows_none(zone, year, month, day, list, shift as int, i + 1, list.len() as int);
                        lemma_windows_none(zone, year, month, day, list, -1, shift as int, days + 1);
                    }
                    return None;
                }
                let from = open + shift * DAY;
                let w = Window { open: from, close: from + (allocation.hours as i64) * 3600 };
                proof {
                    let more = today@.push(w);
                    assert(more[i as int] == w);
                    assert forall|k: int| 0 <= k < more.len() implies i64::MIN < (#[trigger] more[k]).open
                        < more[k].close && -REACH <= more[k].open && more[k].close <= REACH by {
                        if k < i {
                            assert(more[k] == today@[k]);
                        }
                    }
                }
                today.push(w);
                i += 1;
            }
            proof {
                let before = all@;
                let both = before + today@;
                assert forall|k: int| 0 <= k < both.len() implies i64::MIN < (#[trigger] both[k]).open
                    < both[k].close && -REACH <= both[k].open && both[k].close <= REACH by {
                    if k < before.len() {
                        assert(both[k] == before[k]);
                    } else {
                        assert(both[k] == today@[k - before.len()]);
                    }
                }
            }
            all.append(&mut today);
            shift += 1;
        }
        Some(all)
    }

    /// The seconds of work between now and `dt` (see `spliced`).
    pub fn splice(&self, dt: i64) -> (allocated: Option<i64>)
        requires
            self.wf(),
        ensures
            match self.spliced(dt) {
                Some(n) => allocated == Some(n as i64) && i64::MIN < n < i64::MAX,
                None => allocated is None,
            },
    {
        if dt < -FAR || dt > FAR {
            return None;
        }
        let (days, _) = floor_div(dt - self.now, DAY);
        proof {
            vstd::arithmetic::div_mod::lemma_fundamental_div_mod(dt - self.now, DAY as int);
            assert(-101_806_633 <= days <= 101_806_633);
        }
        let approx = self.now + days * DAY;
        let all = match self.allocations_set(approx, 0) {
            Some(all) => all,
            None => {
                return None;
            },
        };
        let adjust = overlap(&all, approx, dt);
        let daily = self.daily();
        proof {
            lemma_overlap_bound(all@, approx as int, dt as int);
            assert(-36_028_797_538_099_200 <= daily * days <= 36_028_797_538_099_200) by (nonlinear_arith)
                requires
                    0 <= daily <= 353_894_400,
                    -101_806_633 <= days <= 101_806_633,
            ;
        }
        Some(daily * days + adjust as i64)
    }

    /// The instant at which `allocated` seconds of work from now are
    /// over: from the present instant and as many days as `allocated` holds
    /// whole days of work, the walk goes through the windows of the days
    /// around, those joined that touch, until the seconds that are left are
    /// spent (see `walked`). `None` where there is no window, the instant
    /// lies too far, or the calendar cannot place a window.
    pub fn unsplice(&self, allocated: i64) -> (instant: Option<i64>)
        requires
            self.wf(),
        ensures
            self.unspliced(allocated, instant),
    {
        let daily = self.daily();
        if daily == 0 {
            return None;
        }
        let (days, rest) = floor_div(allocated, daily);
        if days < -FAR || days > FAR {
            assert(!(-FAR <= self.now + days * DAY <= FAR));
            return None;
        }
        assert(self.approached(allocated) == self.now + days * DAY);
        let approx = self.now + days * DAY;
        if approx < -FAR || approx > FAR {
            return None;
        }
        let all = match self.allocations_set(approx, 0) {
            Some(all) => all,
            None => {
                return None;
            },
        };
        let stretches = put_together(&all);
        proof {
            lemma_stretches_within(stretches@, all@);
        }
        let mut cursor = approx;
        let mut remain = rest;
        let mut k: usize = 0;
        loop
            invariant_except_break
                k <= stretches.len(),
                proper(stretches@),
                within(stretches@),
                0 <= remain <= rest < daily <= 86_400 * MAX_ALLOCATIONS,
                -FAR <= approx <= cursor <= REACH,
                walked(stretches@, 0, approx as int, rest as int) == walked(
                    stretches@,
                    k as int,
                    cursor as int,
                    remain as int,
                ),
            ensures
                cursor == walked(stretches@, 0, approx as int, rest as int),
            decreases stretches.len() - k,
        {
            if k >= stretches.len() {
                break ;
            }
            let w = stretches[k];
            if w.close >= cursor {
                let point = if w.open > cursor {
                    w.open
                } else {
                    cursor
                };
                let room = w.close - point;
                let draw = if room < remain {
                    room
                } else {
                    remain
                };
                cursor = point + draw;
                remain = remain - draw;
                if remain == 0 {
                    break ;
                }
            }
            k += 1;
        }
        proof {
            assert(joined_windows(stretches@, all@));
            assert(self.approached(allocated) == approx);
            assert(cursor == walked(stretches@, 0, self.approached(allocated), allocated as int % self.daily_seconds()));
            assert(self.lands(allocated, stretches@, cursor));
        }
        let instant = Some(cursor);
        assert(self.lands(allocated, stretches@, instant->0));
        instant
    }
}

/// Stretches that hold the seconds of the windows lie where the windows lie.
proof fn lemma_stretches_within(stretches: Seq<Window>, all: Seq<Window>)
    requires
        proper(stretches),
        within(all),
        forall|t: int| covered(stretches, t) <==> covered(all, t),
    ensures
        within(stretches),
{
    assert forall|k: int| 0 <= k < stretches.len() implies -REACH <= (#[trigger] stretches[k]).open
        && stretches[k].close <= REACH by {
        let first = stretches[k].open as int;
        let last = stretches[k].close - 1;
        assert(covered(stretches, first));
        assert(covered(stretches, last));
        assert(covered(all, first));
        assert(covered(all, last));
    }
}

/// The walk that has as many seconds to pass as the stretches hold up
/// to an instant that lies in one of them, after its first second, ends at
/// that instant.
pub proof fn lemma_walk_lands(stretches: Seq<Window>, k: int, j: int, cursor: int, to: int)
    requires
        settled(stretches),
        0 <= k <= j < stretches.len(),
        stretches[j].open < to < stretches[j].close,
        cursor <= to,
    ensures
        walked(stretches, k, cursor, passed(stretches, k, cursor, to)) == to,
    decreases stretches.len() - k,
{
    let w = stretches[k];
    if k < j {
        lemma_apart(stretches, k, j);
    }
    if k + 1 < stretches.len() {
        lemma_apart(stretches, k, k + 1);
    }
    if w.close < cursor {
        lemma_walk_lands(stretches, k + 1, j, cursor, to);
    } else if to < w.close {
        lemma_passed_none(stretches, k + 1, cursor, to);
    } else {
        lemma_passed_least(stretches, k + 1, j, cursor, to);
        lemma_passed_same(stretches, k + 1, cursor, w.close as int, to);
        lemma_walk_lands(stretches, k + 1, j, w.close as int, to);
    }
}

impl Sorter {
    /// The instant from which the seconds of work up to `dt` are counted
    /// one by one: the present instant, and the whole days between it and `dt`.
    pub open spec fn day_start(self, dt: i64) -> int {
        self.now + ((dt - self.now) / (DAY as int)) * DAY
    }
}

/// The instant on which the spliced time of `dt` lands is `dt`, where
/// `dt` lies in a window, after the first second of the stretch that the
/// window belongs to, and less than a day's work lies between the start of
/// the count and `dt`.
pub proof fn lemma_unsplice_after_splice(sorter: Sorter, dt: i64, stretches: Seq<Window>, landed: i64)
    requires
        sorter.wf(),
        sorter.spliced(dt) is Some,
        joined_windows(stretches, sorter.windows_around(sorter.day_start(dt) as i64, 0)->0),
        exists|j: int| 0 <= j < stretches.len() && (#[trigger] stretches[j]).open < dt < stretches[j].close,
        worked(stretches, sorter.day_start(dt), dt as int) < sorter.daily_seconds(),
        exists|other: Seq<Window>| #[trigger] sorter.lands(sorter.spliced(dt)->0 as i64, other, landed),
    ensures
        landed == dt,
{
    let start = sorter.day_start(dt);
    let days = (dt - sorter.now) / (DAY as int);
    let all = sorter.windows_around(start as i64, 0)->0;
    let daily = sorter.daily_seconds();
    let n = sorter.spliced(dt)->0;
    let work = worked(all, start, dt as int);
    vstd::arithmetic::div_mod::lemma_fundamental_div_mod(dt - sorter.now, DAY as int);
    vstd::arithmetic::div_mod::lemma_mod_bound(dt - sorter.now, DAY as int);
    assert(-FAR - DAY <= start <= FAR);
    assert(n == daily * days + work);
    lemma_worked_same(all, stretches, start, dt as int);
    lemma_overlap_bound(all, start, dt as int);
    lemma_hours_sum(sorter.allocations@, sorter.allocations@.len() as int);
    assert(-101_806_633 <= days <= 101_806_633);
    assert(-36_028_797_538_099_200 <= daily * days <= 36_028_797_538_099_200) by (nonlinear_arith)
        requires
            0 <= daily <= 353_894_400,
            -101_806_633 <= days <= 101_806_633,
    ;
    assert(n as i64 == n);
    assert(n == days * daily + work) by (nonlinear_arith)
        requires
            n == daily * days + work,
    ;
    vstd::arithmetic::div_mod::lemma_fundamental_div_mod_converse(n, daily, days, work as int);
    assert(sorter.approached(n as i64) == start);
    let other = choose|other: Seq<Window>| #[trigger] sorter.lands(n as i64, other, landed);
    lemma_settled_unique(other, stretches);
    let j = choose|j: int| 0 <= j < stretches.len() && (#[trigger] stretches[j]).open < dt < stretches[j].close;
    lemma_worked(stretches, start, dt as int);
    lemma_walk_lands(stretches, 0, j, start, dt as int);
}

/// `unsplice` lands on one instant only: the windows can be put together in one way.
pub proof fn lemma_lands_once(sorter: Sorter, allocated: i64, a: Seq<Window>, b: Seq<Window>, x: i64, y: i64)
    requires
        sorter.lands(allocated, a, x),
        sorter.lands(allocated, b, y),
    ensures
        x == y,
{
    crate::windows::lemma_settled_unique(a, b);
}

proof fn lemma_day_windows_none(
    zone: Seq<char>,
    year: i32,
    month: u32,
    day: u32,
    allocations: Seq<Allocation>,
    shift: int,
    n: int,
    m: int,
)
    requires
        0 <= n <= m <= allocations.len(),
        day_windows(zone, year, month, day, allocations, shift, n) is None,
    ensures
        day_windows(zone, year, month, day, allocations, shift, m) is None,
    decreases m - n,
{
    if n < m {
        lemma_day_windows_none(zone, year, month, day, allocations, shift, n, m - 1);
    }
}

proof fn lemma_windows_none(
    zone: Seq<char>,
    year: i32,
    month: u32,
    day: u32,
    allocations: Seq<Allocation>,
    from: int,
    at: int,
    to: int,
)
    requires
        from <= at <= to,
        day_windows(zone, year, month, day, allocations, at, allocations.len() as int) is None,
    ensures
        windows(zone, year, month, day, allocations, from, to) is None,
    decreases to - at,
{
    if at < to {
        lemma_windows_none(zone, year, month, day, allocations, from, at, to - 1);
    }
}

proof fn lemma_table(sorter: Sorter, tasks: Seq<ResTask>, n: int)
    requires
        0 <= n <= tasks.len(),
    ensures
        forall|id: i64| #[trigger]
            sorter.table(tasks, n).contains_key(id) <==> ids(tasks).take(n).contains(id),
    decreases n,
{
    if n > 0 {
        lemma_table(sorter, tasks, n - 1);
        let x = tasks[n - 1].id;
        assert(ids(tasks).take(n) =~= ids(tasks).take(n - 1).push(x));
        assert forall|id: i64| #[trigger]
            sorter.table(tasks, n).contains_key(id) <==> ids(tasks).take(n).contains(id) by {
            crate::sorted::lemma_push_contains(ids(tasks).take(n - 1), x, id);
            assert(sorter.table(tasks, n - 1).contains_key(id) <==> ids(tasks).take(n - 1).contains(id));
        }
    } else {
        assert(ids(tasks).take(0).len() == 0);
    }
}

impl Sorter {
    /// An instant that is there, in seconds of work from now (see `allocated`).
    fn allocate(&self, instant: Option<i64>) -> (seconds: Option<Option<i64>>)
        requires
            self.wf(),
        ensures
            seconds == self.allocated(instant),
    {
        match instant {
            None => Some(None),
            Some(dt) => match self.splice(dt) {
                Some(n) => {
                    if -HORIZON <= n && n <= HORIZON {
                        Some(Some(n))
                    } else {
                        None
                    }
                },
                None => None,
            },
        }
    }

    /// Where the scheduler starts on the tasks: the cursor at zero, every
    /// task an entry, and in the table each task's start and deadline in
    /// seconds of work from now, and its weight. `None` where the tasks
    /// cannot be scheduled (see `schedulable`).
    pub fn to_sub(&self, tasks: &Vec<ResTask>, arrows: Arrows) -> (sub: Option<SubSorter>)
        requires
            self.wf(),
        ensures
            match sub {
                Some(s) => self.schedulable(tasks@, arrows@) && s@ == self.plan(tasks@, arrows@) && (is_dag(
                    arrows@,
                ) ==> s@.runnable()),
                None => !self.schedulable(tasks@, arrows@),
            },
    {
        if tasks.len() > MAX_TASKS || arrows.arrows.len() > MAX_TASKS {
            return None;
        }
        let mut map: HashMap<i64, SubTask> = HashMap::new();
        let mut entries: Vec<i64> = Vec::new();
        let mut i: usize = 0;
        assert(entries@ =~= ids(tasks@).take(0));
        while i < tasks.len()
            invariant
                i <= tasks.len() <= MAX_TASKS,
                self.wf(),
                map@ == self.table(tasks@, i as int),
                entries@ == ids(tasks@).take(i as int),
                forall|a: int, b: int| 0 <= a < b < i ==> tasks@[a].id != tasks@[b].id,
                forall|k: int| 0 <= k < i ==> self.sub_task(#[trigger] tasks@[k]) is Some,
                table_within(map@),
                forall|id: i64| #[trigger]
                    map@.contains_key(id) ==> map@[id].startable is Some ==> map@[id].startable->0 <= HORIZON,
            decreases tasks.len() - i,
        {
            let task = &tasks[i];
            proof {
                lemma_table(*self, tasks@, i as int);
            }
            if map.contains_key(&task.id) {
                proof {
                    let k = choose|k: int| 0 <= k < i && ids(tasks@).take(i as int)[k] == task.id;
                    assert(tasks@[k].id == tasks@[i as int].id);
                }
                return None;
            }
            let startable = match self.allocate(task.startable) {
                Some(s) => s,
                None => {
                    assert(self.sub_task(tasks@[i as int]) is None);
                    return None;
                },
            };
            let deadline = match self.allocate(task.deadline) {
                Some(d) => d,
                None => {
                    assert(self.sub_task(tasks@[i as int]) is None);
                    return None;
                },
            };
            let heavy = match task.weight {
                Some(w) => w < 0 || w > HORIZON,
                None => false,
            };
            if heavy {
                assert(self.sub_task(tasks@[i as int]) is None);
                return None;
            }
            let set = SubTask { startable, deadline, priority: None, weight: task.weight, rank: None };
            proof {
                assert(self.sub_task(tasks@[i as int]) == Some(set));
                assert(ids(tasks@).take(i + 1) =~= ids(tasks@).take(i as int).push(task.id));
                assert forall|a: int, b: int| 0 <= a < b < i + 1 implies tasks@[a].id != tasks@[b].id by {
                    if b == i {
                        assert(ids(tasks@).take(i as int)[a] == tasks@[a].id);
                        assert(ids(tasks@).take(i as int).contains(tasks@[a].id));
                    }
                }
                assert(HORIZON <= HORIZON * (MAX_TASKS + 2)) by (nonlinear_arith);
            }
            map.insert(task.id, set);
            entries.push(task.id);
            i += 1;
        }
        assert(ids(tasks@).take(i as int) =~= ids(tasks@));
        let mut k: usize = 0;
        while k < arrows.arrows.len()
            invariant
                k <= arrows.arrows.len(),
                map@ == self.table(tasks@, tasks@.len() as int),
                entries@ == ids(tasks@),
                forall|j: int|
                    0 <= j < k ==> entries@.contains((#[trigger] arrows@[j]).source) && entries@.contains(
                        arrows@[j].target,
                    ),
            decreases arrows.arrows.len() - k,
        {
            proof {
                lemma_table(*self, tasks@, tasks@.len() as int);
                assert(ids(tasks@).take(tasks@.len() as int) =~= ids(tasks@));
            }
            let arrow = arrows.arrows[k];
            if !map.contains_key(&arrow.source) || !map.contains_key(&arrow.target) {
                return None;
            }
            k += 1;
        }
        let sub = SubSorter { cursor: 0, entries, arrows, map };
        proof {
            assert(sub@ == self.plan(tasks@, arrows@));
            assert(0 <= HORIZON * (MAX_TASKS + 1)) by (nonlinear_arith);
            assert forall|i: int| 0 <= i < sub@.entries.len() implies {
                &&& sub@.table.contains_key(#[trigger] sub@.entries[i])
                &&& sub@.table[sub@.entries[i]].startable is Some ==> sub@.table[sub@.entries[i]].startable->0
                    <= HORIZON
            } by {
                lemma_table(*self, tasks@, tasks@.len() as int);
                assert(ids(tasks@).take(tasks@.len() as int) =~= ids(tasks@));
                assert(ids(tasks@).contains(sub@.entries[i]));
            }
        }
        Some(sub)
    }

    /// Whether `a` is shown no later than `b` (see `in_order`).
    fn goes_first(table: &HashMap<i64, SubTask>, a: &ResTask, b: &ResTask) -> (yes: bool)
        requires
            table@.contains_key(a.id),
            table@.contains_key(b.id),
        ensures
            yes == in_order(table@, *a, *b),
    {
        let ra = match table.get(&a.id) {
            Some(set) => match set.rank {
                Some(r) => r,
                None => 0,
            },
            None => 0,
        };
        let rb = match table.get(&b.id) {
            Some(set) => match set.rank {
                Some(r) => r,
                None => 0,
            },
            None => 0,
        };
        (a.is_starred && !b.is_starred) || (a.is_starred == b.is_starred && ra <= rb)
    }

    /// Schedules the tasks and puts them in the order in which they are
    /// shown. The scheduler runs on the tasks' starts, deadlines and weights
    /// in seconds of work from now (see `to_sub` and `SubSorter::exec`); then
    /// each task gets the priority that the scheduler gave it, if it gave one,
    /// and, where there are windows, as its schedule the instants on which
    /// its allocated start and end land; at last the starred tasks come
    /// first, and the tasks follow their ranks otherwise. Where the numbers
    /// are too large, the arrows hold a cycle, or the tasks cannot be
    /// scheduled, the tasks stay as they are, and the fault is the server's.
    pub fn exec(&self, tasks: &mut Vec<ResTask>, arrows: Arrows) -> (done: Result<(), ServiceError>)
        ensures
            match done {
                Ok(_) => self.wf() && is_dag(arrows@) && self.schedulable(old(tasks)@, arrows@) && exists|n: nat|
                 #[trigger]
                    self.arranged(old(tasks)@, final(tasks)@, self.plan(old(tasks)@, arrows@).run(0, n).0),
                Err(e) => e is InternalServerError && !(self.wf() && is_dag(arrows@) && self.schedulable(
                    old(tasks)@,
                    arrows@,
                )) && final(tasks)@ == old(tasks)@,
            },
    {
        if !self.sound() || !arrows.acyclic() {
            return Err(ServiceError::InternalServerError);
        }
        let mut sub = match self.to_sub(tasks, arrows) {
            Some(sub) => sub,
            None => {
                return Err(ServiceError::InternalServerError);
            },
        };
        let ghost start = sub@;
        let ghost before = tasks@;
        sub.exec();
        let ghost done = sub@;
        let ghost rounds = choose|n: nat| (#[trigger] start.run(0, n)).0 == done;
        proof {
            lemma_table(*self, before, before.len() as int);
            assert(ids(before).take(before.len() as int) =~= ids(before));
            assert forall|j: int| 0 <= j < before.len() implies done.table.contains_key(#[trigger] before[j].id) by {
                assert(ids(before)[j] == before[j].id);
                assert(start.entries.contains(before[j].id));
            }
        }
        let daily = self.daily();
        let mut out: Vec<ResTask> = Vec::new();
        let mut i: usize = 0;
        while i < tasks.len()
            invariant
                i <= tasks.len(),
                tasks@ == before,
                self.wf(),
                daily == self.daily_seconds(),
                done == sub@,
                forall|j: int| 0 <= j < before.len() ==> done.table.contains_key(#[trigger] before[j].id),
                out@.len() == i,
                forall|j: int| 0 <= j < i ==> self.shown_in(done.table, #[trigger] before[j], out@),
                forall|k: int| 0 <= k < out@.len() ==> done.table.contains_key(#[trigger] out@[k].id),
                forall|a: int, b: int|
                    0 <= a < b < out@.len() ==> in_order(done.table, #[trigger] out@[a], #[trigger] out@[b]),
            decreases tasks.len() - i,
        {
            let task = &tasks[i];
            assert(done.table.contains_key(before[i as int].id));
            let set = match sub.map.get(&task.id) {
                Some(set) => *set,
                None => SubTask { startable: None, deadline: None, priority: None, weight: None, rank: None },
            };
            let mut shown = task_copy(task);
            if set.priority.is_some() {
                shown.priority = set.priority;
            }
            let mut l: Option<i64> = None;
            let mut r: Option<i64> = None;
            if daily > 0 {
                match (set.startable, set.deadline) {
                    (Some(from), Some(to)) => {
                        l = self.unsplice(from);
                        r = self.unsplice(to);
                        match (l, r) {
                            (Some(left), Some(right)) => {
                                shown.schedule = Some(Schedule { l: left, r: right });
                            },
                            _ => {},
                        }
                    },
                    _ => {},
                }
            }
            proof {
                assert(self.dressed_with(done.table, before[i as int], shown, l, r));
                assert(self.dressed(done.table, before[i as int], shown));
            }
            let mut at: usize = 0;
            while at < out.len() && Self::goes_first(&sub.map, &out[at], &shown)
                invariant
                    at <= out.len(),
                    done == sub@,
                    done.table.contains_key(shown.id),
                    forall|k: int| 0 <= k < out@.len() ==> done.table.contains_key(#[trigger] out@[k].id),
                    forall|k: int| 0 <= k < at ==> in_order(done.table, #[trigger] out@[k], shown),
                decreases out.len() - at,
            {
                at += 1;
            }
            let ghost sofar = out@;
            out.insert(at, shown);
            proof {
                assert forall|a: int, b: int| 0 <= a < b < out@.len() implies in_order(
                    done.table,
                    #[trigger] out@[a],
                    #[trigger] out@[b],
                ) by {
                    if b < at {
                    } else if b == at {
                    } else if a < at {
                        assert(out@[b] == sofar[b - 1]);
                        assert(in_order(done.table, sofar[a], sofar[b - 1]));
                    } else if a == at {
                        assert(out@[b] == sofar[b - 1]);
                        assert(!in_order(done.table, sofar[at as int], shown));
                        if b - 1 > at {
                            assert(in_order(done.table, sofar[at as int], sofar[b - 1]));
                        }
                    } else {
                        assert(out@[a] == sofar[a - 1]);
                        assert(out@[b] == sofar[b - 1]);
                        assert(in_order(done.table, sofar[a - 1], sofar[b - 1]));
                    }
                }
                assert forall|j: int| 0 <= j < i + 1 implies self.shown_in(
                    done.table,
                    #[trigger] before[j],
                    out@,
                ) by {
                    if j < i {
                        assert(self.shown_in(done.table, before[j], sofar));
                        let k = choose|k: int|
                            0 <= k < sofar.len() && #[trigger] self.dressed(done.table, before[j], sofar[k]);
                        if k < at {
                            assert(out@[k] == sofar[k]);
                            assert(self.dressed(done.table, before[j], out@[k]));
                        } else {
                            assert(out@[k + 1] == sofar[k]);
                            assert(self.dressed(done.table, before[j], out@[k + 1]));
                        }
                    } else {
                        assert(out@[at as int] == shown);
                        assert(self.dressed(done.table, before[j], out@[at as int]));
                    }
                }
                assert forall|k: int| 0 <= k < out@.len() implies done.table.contains_key(
                    #[trigger] out@[k].id,
                ) by {
                    if k < at {
                        assert(out@[k] == sofar[k]);
                    } else if k > at {
                        assert(out@[k] == sofar[k - 1]);
                    }
                }
            }
            i += 1;
        }
        *tasks = out;
        proof {
            assert(self.arranged(before, tasks@, start.run(0, rounds).0));
        }
        Ok(())
    }
}

} // verus!
