//! The tracker's window state, apart from the widgets themselves: the
//! task list, the panel color, and the add-task form's temporary
//! fields, with the actions the buttons trigger.

use vstd::prelude::*;
use crate::color::Rgba;
use crate::datetime::Date;
use crate::datetime::Time;
use crate::task::Task;
use crate::task_list::TaskList;

verus! {

/// The window state.  The widgets read and write these fields; every
/// decision they trigger is a method here.
pub struct MyApp {
    pub task_list: TaskList,
    pub username: String,
    pub color: Rgba,
    pub temp_task_title: String,
    pub temp_task_details: String,
    pub temp_task_time: Time,
    pub temp_task_date: Date,
    pub show_add_task_window: bool,
    pub show_completed_tasks: bool,
    pub temp_task_hour: u32,
    pub temp_task_minute: u32,
}

/// The add-task form is empty and closed: blank title and details, the
/// placeholder date and time, and the hour and minute sliders at zero.
pub open spec fn temp_fields_clear(app: MyApp) -> bool {
    &&& app.temp_task_title@ == Seq::<char>::empty()
    &&& app.temp_task_details@ == Seq::<char>::empty()
    &&& app.temp_task_time == (Time { hour: 0, minute: 0, second: 0 })
    &&& app.temp_task_date == (Date { year: 2023, month: 1, day: 1 })
    &&& app.show_add_task_window == false
    &&& app.temp_task_hour == 0
    &&& app.temp_task_minute == 0
}

/// The panel color the tracker starts with, a light blue.
pub open spec fn default_color() -> Rgba {
    Rgba { r: 0xAD, g: 0xD8, b: 0xE6, a: 0xFF }
}

impl MyApp {
    /// The starting state over an already loaded task list: empty
    /// username, the light blue panel color, a clear form, and no
    /// completed-tasks window.
    pub fn new(task_list: TaskList) -> (r: MyApp)
        ensures
            r.task_list.list@ == task_list.list@,
            r.username@ == Seq::<char>::empty(),
            r.color == default_color(),
            r.show_completed_tasks == false,
            temp_fields_clear(r),
    {
        MyApp {
            task_list,
            username: String::new(),
            color: Rgba { r: 0xAD, g: 0xD8, b: 0xE6, a: 0xFF },
            temp_task_title: String::new(),
            temp_task_details: String::new(),
            temp_task_time: Time { hour: 0, minute: 0, second: 0 },
            temp_task_date: Date { year: 2023, month: 1, day: 1 },
            show_add_task_window: false,
            show_completed_tasks: false,
            temp_task_hour: 0,
            temp_task_minute: 0,
        }
    }

    /// Clear the add-task form and close it.  The task list, the
    /// username, the color and the completed-tasks window stay as they
    /// were.
    pub fn reset_temporary(&mut self)
        ensures
            temp_fields_clear(*final(self)),
            final(self).task_list.list@ == old(self).task_list.list@,
            final(self).username == old(self).username,
            final(self).color == old(self).color,
            final(self).show_completed_tasks == old(self).show_completed_tasks,
    {
        self.temp_task_title = String::new();
        self.temp_task_details = String::new();
        self.temp_task_time = Time { hour: 0, minute: 0, second: 0 };
        self.temp_task_date = Date { year: 2023, month: 1, day: 1 };
        self.show_add_task_window = false;
        self.temp_task_hour = 0;
        self.temp_task_minute = 0;
    }

    /// What the form's Confirm button does: append a task built from
    /// the form fields (due at the slider hour and minute, second
    /// zero, never completed), then clear and close the form.  The
    /// caller persists the list afterwards.
    pub fn confirm_add_task(&mut self)
        requires
            old(self).temp_task_hour <= 23,
            old(self).temp_task_minute <= 59,
        ensures
            final(self).task_list.list@.len() == old(self).task_list.list@.len() + 1,
            final(self).task_list.list@.take(old(self).task_list.list@.len() as int) == old(
                self,
            ).task_list.list@,
            ({
                let t = final(self).task_list.list@.last();
                &&& t.title@ == old(self).temp_task_title@
                &&& t.details@ == old(self).temp_task_details@
                &&& t.color == old(self).color
                &&& t.date == old(self).temp_task_date
                &&& t.time == (Time {
                    hour: old(self).temp_task_hour,
                    minute: old(self).temp_task_minute,
                    second: 0,
                })
                &&& t.completed == false
            }),
            temp_fields_clear(*final(self)),
            final(self).username == old(self).username,
            final(self).color == old(self).color,
            final(self).show_completed_tasks == old(self).show_completed_tasks,
    {
        let time = Time { hour: self.temp_task_hour, minute: self.temp_task_minute, second: 0 };
        self.temp_task_time = time;
        let task = Task::new(
            self.temp_task_title.as_str(),
            self.temp_task_details.as_str(),
            self.color,
            self.temp_task_date,
            time,
            false,
        );
        self.task_list.add_task(task);
        self.reset_temporary();
        proof {
            assert(self.task_list.list@.take(old(self).task_list.list@.len() as int)
                =~= old(self).task_list.list@);
        }
    }
}

} // verus!
