//! Input records: tasks and the dependencies between them.
//!
//! Dates are day numbers counted the way the proleptic Gregorian calendar
//! counts them from the common era: 0001-01-01 is day 1.
use vstd::prelude::*;

verus! {

/// One task of the chart (the Gantt-relevant fields of a task record).
#[derive(Debug)]
pub struct GanttTask {
    /// Identifier of the task record.
    pub id: String,
    /// Title shown as the row label.
    pub title: String,
    /// Progress in percent; 0 to 100 is the meaningful range.
    pub progress_pct: i16,
    /// First day of the task, as a day number.
    pub start: i32,
    /// Last day of the task, as a day number, when one is known.
    pub end: Option<i32>,
}

/// A dependency: the blocked task cannot finish before the blocker.
#[derive(Debug)]
pub struct GanttDep {
    pub blocker_task_id: String,
    pub blocked_task_id: String,
}

/// Tasks and dependencies together.
pub struct GanttGraph {
    pub tasks: Vec<GanttTask>,
    pub deps: Vec<GanttDep>,
}

impl GanttTask {
    /// Days from `epoch` to the task's start.
    pub fn start_days(&self, epoch: i32) -> (res: i64)
        ensures
            res == self.start - epoch,
    {
        self.start as i64 - epoch as i64
    }

    /// Days from `epoch` to the task's end; a task without an end lasts one day.
    pub fn end_days(&self, epoch: i32) -> (res: i64)
        ensures
            res == match self.end {
                Some(d) => d - epoch,
                None => self.start - epoch + 1,
            },
    {
        match self.end {
            Some(d) => d as i64 - epoch as i64,
            None => self.start_days(epoch) + 1,
        }
    }
}

impl Clone for GanttTask {
    fn clone(&self) -> (res: Self)
        ensures
            res.id@ == self.id@,
            res.title@ == self.title@,
            res.progress_pct == self.progress_pct,
            res.start == self.start,
            res.end == self.end,
    {
        GanttTask {
            id: self.id.clone(),
            title: self.title.clone(),
            progress_pct: self.progress_pct,
            start: self.start,
            end: self.end,
        }
    }
}

impl Clone for GanttDep {
    fn clone(&self) -> (res: Self)
        ensures
            res.blocker_task_id@ == self.blocker_task_id@,
            res.blocked_task_id@ == self.blocked_task_id@,
    {
        GanttDep {
            blocker_task_id: self.blocker_task_id.clone(),
            blocked_task_id: self.blocked_task_id.clone(),
        }
    }
}

} // verus!
