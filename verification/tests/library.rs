use notif_tasks::app_state::MyApp;
use notif_tasks::color::Rgba;
use notif_tasks::color::pack_color;
use notif_tasks::color::unpack_color;
use notif_tasks::datetime::Date;
use notif_tasks::datetime::DateTime;
use notif_tasks::datetime::Time;
use notif_tasks::datetime::date_valid_exec;
use notif_tasks::datetime::days_in_month_exec;
use notif_tasks::datetime::dt_lt_exec;
use notif_tasks::datetime::now_local;
use notif_tasks::datetime::time_valid_exec;
use notif_tasks::json::load_tasks_text;
use notif_tasks::json::tasks_from_json;
use notif_tasks::json::tasks_to_json;
use notif_tasks::task::Task;
use notif_tasks::task_list::TaskList;
use notif_tasks::text::format_date;
use notif_tasks::text::format_time;
use notif_tasks::text::parse_date;
use notif_tasks::text::parse_time;

fn date(year: i32, month: u32, day: u32) -> Date {
    Date { year, month, day }
}

fn time(hour: u32, minute: u32, second: u32) -> Time {
    Time { hour, minute, second }
}

fn moment(year: i32, month: u32, day: u32, hour: u32, minute: u32, second: u32) -> DateTime {
    DateTime { date: date(year, month, day), time: time(hour, minute, second) }
}

fn task(title: &str, d: Date, t: Time) -> Task {
    Task {
        title: title.to_string(),
        details: String::new(),
        color: Rgba { r: 1, g: 2, b: 3, a: 4 },
        date: d,
        time: t,
        completed: false,
    }
}

fn titles(tasks: &[Task]) -> Vec<String> {
    tasks.iter().map(|t| t.title.clone()).collect()
}

#[test]
fn sort_puts_overdue_first_descending_then_upcoming_ascending() {
    let now = moment(2025, 5, 5, 12, 0, 0);
    let mut list = TaskList::new(vec![
        task("soon", date(2025, 5, 6), time(9, 0, 0)),
        task("long_past", date(2020, 6, 15), time(23, 59, 59)),
        task("later", date(2030, 1, 1), time(0, 0, 0)),
        task("just_past", date(2025, 5, 5), time(11, 59, 59)),
    ]);
    list.sort_by_status_and_magnitude_at(now);
    // Overdue tasks first, in descending order of due moment (the most
    // recently passed first); then upcoming tasks, soonest first.
    assert_eq!(
        titles(&list.list),
        vec!["just_past", "long_past", "soon", "later"]
    );
}

#[test]
fn sort_keeps_equal_moments_together() {
    let now = moment(2025, 1, 1, 0, 0, 0);
    let mut list = TaskList::new(vec![
        task("b", date(2026, 1, 1), time(8, 0, 0)),
        task("a", date(2026, 1, 1), time(8, 0, 0)),
    ]);
    list.sort_by_status_and_magnitude_at(now);
    assert_eq!(list.len(), 2);
    let mut got = titles(&list.list);
    got.sort();
    assert_eq!(got, vec!["a", "b"]);
}

#[test]
fn task_due_exactly_now_is_upcoming() {
    let now = moment(2025, 5, 5, 12, 0, 0);
    let list = TaskList::new(vec![task("at_now", date(2025, 5, 5), time(12, 0, 0))]);
    assert_eq!(list.get_overdue_tasks_at(now).len(), 0);
    assert_eq!(titles(&list.get_upcoming_tasks_at(now)), vec!["at_now"]);
}

#[test]
fn partition_splits_by_due_moment() {
    let now = moment(2025, 5, 5, 12, 0, 0);
    let list = TaskList::new(vec![
        task("p1", date(2024, 12, 31), time(23, 0, 0)),
        task("u1", date(2025, 5, 5), time(12, 0, 1)),
        task("p2", date(2025, 5, 5), time(11, 0, 0)),
        task("u2", date(2026, 1, 1), time(0, 0, 0)),
    ]);
    assert_eq!(titles(&list.get_overdue_tasks_at(now)), vec!["p1", "p2"]);
    assert_eq!(titles(&list.get_upcoming_tasks_at(now)), vec!["u1", "u2"]);
}

#[test]
fn clock_partition_covers_every_task() {
    let list = TaskList::new(vec![
        task("past", date(2000, 1, 1), time(0, 0, 0)),
        task("future", date(9000, 1, 1), time(0, 0, 0)),
    ]);
    let overdue = list.get_overdue_tasks();
    let upcoming = list.get_upcoming_tasks();
    assert_eq!(overdue.len() + upcoming.len(), 2);
    assert_eq!(titles(&overdue), vec!["past"]);
    assert_eq!(titles(&upcoming), vec!["future"]);
}

#[test]
fn add_and_sort_keeps_every_task() {
    let mut list = TaskList::new(vec![
        task("x", date(2024, 1, 1), time(0, 0, 0)),
        task("y", date(2030, 1, 1), time(0, 0, 0)),
    ]);
    list.add_and_sort(task("z", date(2028, 3, 3), time(3, 3, 3)));
    assert_eq!(list.len(), 3);
    let mut got = titles(&list.list);
    got.sort();
    assert_eq!(got, vec!["x", "y", "z"]);
}

#[test]
fn remove_task_takes_first_title_match() {
    let mut list = TaskList::new(vec![
        task("a", date(2024, 1, 1), time(0, 0, 0)),
        task("b", date(2025, 1, 1), time(1, 0, 0)),
        task("b", date(2026, 1, 1), time(2, 0, 0)),
    ]);
    let probe = task("b", date(1999, 1, 1), time(0, 0, 0));
    let removed = list.remove_task(&probe).expect("a title match");
    assert_eq!(removed.title, "b");
    assert_eq!(removed.date, date(2025, 1, 1));
    assert_eq!(titles(&list.list), vec!["a", "b"]);
    assert_eq!(list.list[1].date, date(2026, 1, 1));
}

#[test]
fn remove_task_without_match_keeps_the_list() {
    let mut list = TaskList::new(vec![task("a", date(2024, 1, 1), time(0, 0, 0))]);
    let probe = task("missing", date(2024, 1, 1), time(0, 0, 0));
    assert!(list.remove_task(&probe).is_none());
    assert_eq!(list.len(), 1);
}

#[test]
fn new_task_is_never_completed() {
    let t = Task::new(
        "t",
        "d",
        Rgba { r: 0, g: 0, b: 0, a: 255 },
        date(2024, 2, 2),
        time(1, 2, 3),
        true,
    );
    assert!(!t.completed);
    assert_eq!(t.title, "t");
    assert_eq!(t.details, "d");
}

#[test]
fn datetime_order_is_lexicographic() {
    let a = moment(2024, 12, 31, 23, 59, 59);
    let b = moment(2025, 1, 1, 0, 0, 0);
    assert!(dt_lt_exec(&a, &b));
    assert!(!dt_lt_exec(&b, &a));
    assert!(!dt_lt_exec(&a, &a));
}

#[test]
fn leap_years_change_february() {
    assert_eq!(days_in_month_exec(2024, 2), 29);
    assert_eq!(days_in_month_exec(2023, 2), 28);
    assert_eq!(days_in_month_exec(2000, 2), 29);
    assert_eq!(days_in_month_exec(1900, 2), 28);
    assert_eq!(days_in_month_exec(2024, 4), 30);
    assert_eq!(days_in_month_exec(2024, 1), 31);
}

#[test]
fn date_and_time_validity() {
    assert!(date_valid_exec(&date(2024, 2, 29)));
    assert!(!date_valid_exec(&date(2023, 2, 29)));
    assert!(!date_valid_exec(&date(2023, 13, 1)));
    assert!(!date_valid_exec(&date(2023, 0, 1)));
    assert!(time_valid_exec(&time(23, 59, 59)));
    assert!(!time_valid_exec(&time(24, 0, 0)));
}

#[test]
fn clock_yields_a_valid_moment() {
    let now = now_local();
    assert!(date_valid_exec(&now.date));
    assert!(time_valid_exec(&now.time));
}

#[test]
fn color_packs_alpha_high_red_low() {
    let c = Rgba { r: 0xAD, g: 0xD8, b: 0xE6, a: 0xFF };
    let packed = pack_color(&c);
    assert_eq!(packed, 0xFFE6_D8AD);
    assert_eq!(unpack_color(packed), c);
}

#[test]
fn color_unpack_then_pack_is_identity() {
    let v: u32 = 0x0102_0304;
    assert_eq!(pack_color(&unpack_color(v)), v);
    assert_eq!(unpack_color(v), Rgba { r: 0x04, g: 0x03, b: 0x02, a: 0x01 });
}

#[test]
fn date_text_round_trip() {
    let d = date(2023, 1, 1);
    let s = format_date(&d);
    assert_eq!(s, "2023-01-01");
    assert_eq!(parse_date(&s), Some(d));
    assert_eq!(format_date(&date(987, 12, 31)), "0987-12-31");
}

#[test]
fn parse_date_rejects_bad_text() {
    assert_eq!(parse_date(""), None);
    assert_eq!(parse_date("2023-1-1"), None);
    assert_eq!(parse_date("2023/01/01"), None);
    assert_eq!(parse_date("2023-02-29"), None);
    assert_eq!(parse_date("2023-13-01"), None);
    assert_eq!(parse_date("2023-00-10"), None);
    assert_eq!(parse_date("2024-02-29"), Some(date(2024, 2, 29)));
}

#[test]
fn time_text_round_trip() {
    let t = time(9, 5, 0);
    let s = format_time(&t);
    assert_eq!(s, "09:05:00");
    assert_eq!(parse_time(&s), Some(t));
}

#[test]
fn parse_time_rejects_bad_text() {
    assert_eq!(parse_time(""), None);
    assert_eq!(parse_time("24:00:00"), None);
    assert_eq!(parse_time("12:60:00"), None);
    assert_eq!(parse_time("12:00:60"), None);
    assert_eq!(parse_time("12:00"), None);
    assert_eq!(parse_time("23:59:59"), Some(time(23, 59, 59)));
}

#[test]
fn storage_text_is_exact() {
    let mut t = task("a", date(2023, 1, 1), time(0, 0, 0));
    t.details = "b".to_string();
    t.color = Rgba { r: 1, g: 2, b: 3, a: 4 };
    let list = TaskList::new(vec![t]);
    let s = tasks_to_json(&list);
    assert_eq!(
        s,
        "[{\"title\":\"a\",\"details\":\"b\",\"color\":67305985,\
         \"date\":\"2023-01-01\",\"time\":\"00:00:00\",\"completed\":false}]"
    );
}

#[test]
fn storage_text_of_empty_list() {
    let list = TaskList::new(Vec::new());
    assert_eq!(tasks_to_json(&list), "[]");
    let back = tasks_from_json("[]").expect("empty array reads back");
    assert_eq!(back.list.len(), 0);
}

#[test]
fn storage_round_trip_keeps_every_field() {
    let mut a = task("first", date(2024, 2, 29), time(23, 59, 59));
    a.details = "some\ndetails".to_string();
    a.color = Rgba { r: 10, g: 20, b: 30, a: 40 };
    a.completed = true;
    let b = task("second \"quoted\" \\ back", date(1, 1, 1), time(0, 0, 0));
    let list = TaskList::new(vec![a, b]);
    let s = tasks_to_json(&list);
    let back = tasks_from_json(&s).expect("written text reads back");
    assert_eq!(back.list.len(), 2);
    for (x, y) in list.list.iter().zip(back.list.iter()) {
        assert_eq!(x.title, y.title);
        assert_eq!(x.details, y.details);
        assert_eq!(x.color, y.color);
        assert_eq!(x.date, y.date);
        assert_eq!(x.time, y.time);
        assert_eq!(x.completed, y.completed);
    }
}

#[test]
fn storage_round_trip_keeps_control_characters() {
    let mut t = task("ctl", date(2023, 6, 1), time(12, 0, 0));
    t.details = "tab\there\u{1}\u{1f}done".to_string();
    let list = TaskList::new(vec![t]);
    let s = tasks_to_json(&list);
    let back = tasks_from_json(&s).expect("written text reads back");
    assert_eq!(back.list[0].details, "tab\there\u{1}\u{1f}done");
}

#[test]
fn reader_rejects_what_the_writer_never_writes() {
    assert!(tasks_from_json("").is_none());
    assert!(tasks_from_json("{}").is_none());
    assert!(tasks_from_json("[").is_none());
    assert!(tasks_from_json("[]x").is_none());
    assert!(tasks_from_json("[{\"title\":\"a\"}]").is_none());
    let good = "[{\"title\":\"a\",\"details\":\"\",\"color\":0,\
                \"date\":\"2023-01-01\",\"time\":\"00:00:00\",\"completed\":false}]";
    assert!(tasks_from_json(good).is_some());
    let trailing = format!("{} ", good);
    assert!(tasks_from_json(&trailing).is_none());
}

#[test]
fn empty_storage_text_is_an_empty_list() {
    let loaded = load_tasks_text("").expect("an empty text loads");
    assert_eq!(loaded.list.len(), 0);
    assert!(load_tasks_text("nonsense").is_none());
}

#[test]
fn app_starts_with_a_clear_form() {
    let app = MyApp::new(TaskList::new(vec![task("a", date(2024, 1, 1), time(0, 0, 0))]));
    assert_eq!(app.task_list.len(), 1);
    assert_eq!(app.username, "");
    assert_eq!(app.color, Rgba { r: 0xAD, g: 0xD8, b: 0xE6, a: 0xFF });
    assert_eq!(app.temp_task_title, "");
    assert_eq!(app.temp_task_details, "");
    assert_eq!(app.temp_task_date, date(2023, 1, 1));
    assert_eq!(app.temp_task_time, time(0, 0, 0));
    assert!(!app.show_add_task_window);
    assert!(!app.show_completed_tasks);
    assert_eq!(app.temp_task_hour, 0);
    assert_eq!(app.temp_task_minute, 0);
}

#[test]
fn reset_temporary_clears_only_the_form() {
    let mut app = MyApp::new(TaskList::new(vec![task("kept", date(2024, 1, 1), time(0, 0, 0))]));
    app.temp_task_title = "draft".to_string();
    app.temp_task_details = "text".to_string();
    app.temp_task_date = date(2030, 12, 31);
    app.temp_task_hour = 7;
    app.temp_task_minute = 30;
    app.show_add_task_window = true;
    app.show_completed_tasks = true;
    app.reset_temporary();
    assert_eq!(app.temp_task_title, "");
    assert_eq!(app.temp_task_details, "");
    assert_eq!(app.temp_task_date, date(2023, 1, 1));
    assert_eq!(app.temp_task_hour, 0);
    assert_eq!(app.temp_task_minute, 0);
    assert!(!app.show_add_task_window);
    assert!(app.show_completed_tasks);
    assert_eq!(app.task_list.len(), 1);
}

#[test]
fn confirm_adds_the_form_task_and_clears_the_form() {
    let mut app = MyApp::new(TaskList::new(Vec::new()));
    app.temp_task_title = "new task".to_string();
    app.temp_task_details = "details".to_string();
    app.temp_task_date = date(2026, 7, 4);
    app.temp_task_hour = 14;
    app.temp_task_minute = 45;
    app.show_add_task_window = true;
    app.confirm_add_task();
    assert_eq!(app.task_list.len(), 1);
    let added = &app.task_list.list[0];
    assert_eq!(added.title, "new task");
    assert_eq!(added.details, "details");
    assert_eq!(added.date, date(2026, 7, 4));
    assert_eq!(added.time, time(14, 45, 0));
    assert_eq!(added.color, Rgba { r: 0xAD, g: 0xD8, b: 0xE6, a: 0xFF });
    assert!(!added.completed);
    assert_eq!(app.temp_task_title, "");
    assert!(!app.show_add_task_window);
}

#[test]
fn clock_sort_keeps_every_task() {
    let mut list = TaskList::new(vec![
        task("m", date(2031, 1, 1), time(0, 0, 0)),
        task("n", date(2001, 1, 1), time(0, 0, 0)),
    ]);
    list.sort_by_status_and_magnitude();
    assert_eq!(list.len(), 2);
    let mut got = titles(&list.list);
    got.sort();
    assert_eq!(got, vec!["m", "n"]);
}
