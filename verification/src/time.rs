//! Dates and times of which any part may be left out, and how the parts
//! that are missing are taken from the present moment.

use vstd::prelude::*;

verus! {

/// A date of which any part may be left out.
#[derive(Debug, Clone, Copy, PartialEq, Eq, PartialOrd, Structural)]
pub struct EasyDate {
    pub y: Option<i32>,
    pub m: Option<i32>,
    pub d: Option<i32>,
}

/// A time of day of which any part may be left out.
#[derive(Debug, Clone, Copy, PartialEq, Eq, PartialOrd, Structural)]
pub struct EasyTime {
    pub h: Option<i32>,
    pub m: Option<i32>,
}

/// A date, a time of day, or both.
#[derive(Debug, Clone, Copy, PartialEq, Eq, PartialOrd, Structural)]
pub struct EasyDateTime {
    pub date: Option<EasyDate>,
    pub time: Option<EasyTime>,
}

/// A moment as a calendar shows it in some time zone, to the minute.
#[derive(Debug, Clone, Copy, PartialEq, Eq, Structural)]
pub struct LocalDateTime {
    pub year: i32,
    pub month: u32,
    pub day: u32,
    pub hour: u32,
    pub minute: u32,
}

impl DeepView for EasyDate {
    type V = EasyDate;

    open spec fn deep_view(&self) -> EasyDate {
        *self
    }
}

impl DeepView for EasyTime {
    type V = EasyTime;

    open spec fn deep_view(&self) -> EasyTime {
        *self
    }
}

impl DeepView for EasyDateTime {
    type V = EasyDateTime;

    open spec fn deep_view(&self) -> EasyDateTime {
        *self
    }
}

impl Default for EasyDate {
    fn default() -> (date: EasyDate)
        ensures
            date == (EasyDate { y: None, m: None, d: None }),
    {
        EasyDate { y: None, m: None, d: None }
    }
}

impl Default for EasyTime {
    fn default() -> (time: EasyTime)
        ensures
            time == (EasyTime { h: None, m: None }),
    {
        EasyTime { h: None, m: None }
    }
}

impl Default for EasyDateTime {
    fn default() -> (both: EasyDateTime)
        ensures
            both == (EasyDateTime { date: None, time: None }),
    {
        EasyDateTime { date: None, time: None }
    }
}

/// A part of a date or time that is written is not negative.
pub open spec fn whole(written: Option<i32>) -> bool {
    written is Some ==> written->0 >= 0
}

/// A part of a date or time as the calendar counts it.
pub fn count(written: i32) -> (n: u32)
    requires
        written >= 0,
    ensures
        n == written,
{
    written as u32
}

/// Whether a part that is written is not negative.
fn is_whole(written: Option<i32>) -> (yes: bool)
    ensures
        yes == whole(written),
{
    match written {
        Some(n) => n >= 0,
        None => true,
    }
}

impl EasyTime {
    /// Neither the hour nor the minute is negative.
    pub open spec fn plain(self) -> bool {
        whole(self.h) && whole(self.m)
    }

    /// Whether any part of the time is written.
    pub open spec fn written(self) -> bool {
        self.h is Some || self.m is Some
    }

    /// The hour and the minute that the time stands for at the moment `now`,
    /// where `inherit` says that a finer part has been written already: a
    /// minute left out is zero; an hour left out is the present hour where
    /// the minute or a finer part is written, and zero where none is.
    pub open spec fn completed(self, inherit: bool, now: LocalDateTime) -> (u32, u32)
        recommends
            self.plain(),
    {
        (
            match self.h {
                Some(h) => h as u32,
                None => if inherit || self.m is Some {
                    now.hour
                } else {
                    0
                },
            },
            match self.m {
                Some(m) => m as u32,
                None => 0,
            },
        )
    }

    /// The hour and the minute that the time stands for at the moment `now`
    /// (see `completed`), and whether anything has been written so far.
    pub fn complete(&self, inherit: &mut bool, now: &LocalDateTime) -> (time: (u32, u32))
        requires
            self.plain(),
        ensures
            time == self.completed(*old(inherit), *now),
            *final(inherit) == (*old(inherit) || self.written()),
    {
        let m = match self.m {
            None => 0,
            Some(m) => {
                *inherit = true;
                count(m)
            },
        };
        let h = match self.h {
            None => if *inherit {
                now.hour
            } else {
                0
            },
            Some(h) => {
                *inherit = true;
                count(h)
            },
        };
        (h, m)
    }
}

impl EasyDate {
    /// Neither the month nor the day is negative.
    pub open spec fn plain(self) -> bool {
        whole(self.m) && whole(self.d)
    }

    /// Whether any part of the date is written.
    pub open spec fn written(self) -> bool {
        self.y is Some || self.m is Some || self.d is Some
    }

    /// The year, month and day that the date stands for at the moment `now`,
    /// where `inherit` says that a finer part has been written already: a day
    /// left out is the present day where a finer part is written, and the
    /// first where none is; a month left out is the present month where the
    /// day or a finer part is written, and the first where none is; a year
    /// left out is the present year.
    pub open spec fn completed(self, inherit: bool, now: LocalDateTime) -> (i32, u32, u32)
        recommends
            self.plain(),
    {
        (
            match self.y {
                Some(y) => y,
                None => now.year,
            },
            match self.m {
                Some(m) => m as u32,
                None => if inherit || self.d is Some {
                    now.month
                } else {
                    1
                },
            },
            match self.d {
                Some(d) => d as u32,
                None => if inherit {
                    now.day
                } else {
                    1
                },
            },
        )
    }

    /// The year, month and day that the date stands for at the moment `now`
    /// (see `completed`), and whether anything has been written so far.
    pub fn complete(&self, inherit: &mut bool, now: &LocalDateTime) -> (date: (i32, u32, u32))
        requires
            self.plain(),
        ensures
            date == self.completed(*old(inherit), *now),
            *final(inherit) == (*old(inherit) || self.d is Some || self.m is Some),
    {
        let d = match self.d {
            None => if *inherit {
                now.day
            } else {
                1
            },
            Some(d) => {
                *inherit = true;
                count(d)
            },
        };
        let m = match self.m {
            None => if *inherit {
                now.month
            } else {
                1
            },
            Some(m) => {
                *inherit = true;
                count(m)
            },
        };
        let y = match self.y {
            None => now.year,
            Some(y) => y,
        };
        (y, m, d)
    }
}

impl EasyDateTime {
    /// No month, day, hour or minute is negative.
    pub open spec fn plain(self) -> bool {
        &&& self.date is Some ==> self.date->0.plain()
        &&& self.time is Some ==> self.time->0.plain()
    }

    /// Whether no month, day, hour or minute is negative.
    pub fn is_plain(&self) -> (yes: bool)
        ensures
            yes == self.plain(),
    {
        (match &self.date {
            Some(date) => is_whole(date.m) && is_whole(date.d),
            None => true,
        }) && (match &self.time {
            Some(time) => is_whole(time.h) && is_whole(time.m),
            None => true,
        })
    }

    /// The moment that this stands for at the moment `now`: the parts that
    /// are written, and for each part left out the present one where a finer
    /// part is written, the least one where none is; without a time it is
    /// midnight, without a date it is today.
    pub open spec fn completed(self, now: LocalDateTime) -> LocalDateTime
        recommends
            self.plain(),
    {
        let (hour, minute) = match self.time {
            Some(time) => time.completed(false, now),
            None => (0u32, 0u32),
        };
        let (year, month, day) = match self.date {
            Some(date) => date.completed(self.time is Some && self.time->0.written(), now),
            None => (now.year, now.month, now.day),
        };
        LocalDateTime { year, month, day, hour, minute }
    }

    /// The moment that this stands for at the moment `now` (see `completed`).
    pub fn complete(&self, now: &LocalDateTime) -> (local: LocalDateTime)
        requires
            self.plain(),
        ensures
            local == self.completed(*now),
    {
        let mut inherit = false;
        let (hour, minute) = match &self.time {
            None => (0, 0),
            Some(time) => time.complete(&mut inherit, now),
        };
        let (year, month, day) = match &self.date {
            None => (now.year, now.month, now.day),
            Some(date) => date.complete(&mut inherit, now),
        };
        LocalDateTime { year, month, day, hour, minute }
    }
}

} // verus!
