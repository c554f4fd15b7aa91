//! Tasks and the display order that ranks them by urgency.

use vstd::prelude::*;
use crate::color::Rgba;
use crate::datetime::Date;
use crate::datetime::DateTime;
use crate::datetime::Time;
use crate::datetime::dt_le;
use crate::datetime::dt_lt;
use crate::datetime::dt_lt_exec;

verus! {

/// One task: a title, free-form details, a color tag, the moment it is
/// due, and whether it has been completed.
pub struct Task {
    pub title: String,
    pub details: String,
    pub color: Rgba,
    pub date: Date,
    pub time: Time,
    pub completed: bool,
}

impl Clone for Task {
    fn clone(&self) -> (r: Self)
        ensures
            r == *self,
    {
        Task {
            title: self.title.clone(),
            details: self.details.clone(),
            color: self.color,
            date: self.date,
            time: self.time,
            completed: self.completed,
        }
    }
}

impl Task {
    /// A new task is never completed, whatever flag is handed in.
    #[allow(unused_variables)]
    pub fn new(
        title: &str,
        details: &str,
        color: Rgba,
        date: Date,
        time: Time,
        completed: bool,
    ) -> (t: Task)
        ensures
            t.title@ == title@,
            t.details@ == details@,
            t.color == color,
            t.date == date,
            t.time == time,
            t.completed == false,
    {
        Task {
            title: title.to_owned(),
            details: details.to_owned(),
            color,
            date,
            time,
            completed: false,
        }
    }
}

/// The moment a task is due.
pub open spec fn task_when(t: Task) -> DateTime {
    DateTime { date: t.date, time: t.time }
}

/// A task is overdue at `now` when its due moment lies strictly before
/// `now`.
pub open spec fn is_overdue(t: Task, now: DateTime) -> bool {
    dt_lt(task_when(t), now)
}

pub fn is_overdue_exec(t: &Task, now: &DateTime) -> (r: bool)
    ensures
        r == is_overdue(*t, *now),
{
    let when = DateTime { date: t.date, time: t.time };
    dt_lt_exec(&when, now)
}

/// The display order at the moment `now`: overdue tasks come before
/// upcoming ones; overdue tasks stand in descending order of their due
/// moment (the most recently passed first), upcoming tasks in
/// ascending order (the soonest first).
pub open spec fn task_le(now: DateTime, a: Task, b: Task) -> bool {
    if is_overdue(a, now) != is_overdue(b, now) {
        is_overdue(a, now)
    } else if is_overdue(a, now) {
        dt_le(task_when(b), task_when(a))
    } else {
        dt_le(task_when(a), task_when(b))
    }
}

/// The display order is total: of two tasks, one comes no later than
/// the other.
pub proof fn lemma_task_le_total(now: DateTime, a: Task, b: Task)
    ensures
        task_le(now, a, b) || task_le(now, b, a),
{
}

/// The display order is transitive.
pub proof fn lemma_task_le_trans(now: DateTime, a: Task, b: Task, c: Task)
    requires
        task_le(now, a, b),
        task_le(now, b, c),
    ensures
        task_le(now, a, c),
{
}

pub fn task_le_exec(now: &DateTime, a: &Task, b: &Task) -> (r: bool)
    ensures
        r == task_le(*now, *a, *b),
{
    let a_overdue = is_overdue_exec(a, now);
    let b_overdue = is_overdue_exec(b, now);
    if a_overdue != b_overdue {
        a_overdue
    } else {
        let a_when = DateTime { date: a.date, time: a.time };
        let b_when = DateTime { date: b.date, time: b.time };
        if a_overdue {
            !dt_lt_exec(&a_when, &b_when)
        } else {
            !dt_lt_exec(&b_when, &a_when)
        }
    }
}

} // verus!
