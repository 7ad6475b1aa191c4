use chrono::{Days, Local, Months, NaiveDate};
use rtodo::tasks::Task;

const PENDING_PREFIX: &str = "\u{2610} ";

fn today_string() -> String {
    Local::now().date_naive().format("%Y-%m-%d").to_string()
}

#[test]
fn simple_tasks() {
    let date = today_string();
    let list: Vec<String> = vec![
        "task",
        "x done",
        "(A) task with priority",
        "x done task with priority Pri:A",
    ]
    .iter()
    .map(|t| Task::new(t))
    .map(|mut t| {
        t.toggle_done();
        t.text
            .strip_prefix(PENDING_PREFIX)
            .unwrap_or(&t.text)
            .to_string()
    })
    .collect();

    let expected: Vec<String> = vec![
        format!("x {date} task"),
        "done".to_string(),
        format!("x {date} task with priority Pri:A"),
        "(A) done task with priority".to_string(),
    ];

    list.iter().zip(expected).for_each(|e| assert_eq!(*e.0, e.1));
}

#[test]
fn tasks_with_date() {
    let list: Vec<String> = vec![
        "  2024-08-14   task with start date",
        "x  2024-08-15  2024-08-14  done task with start date",
        "(A)   2024-08-14   task with priority and start date",
        "  x   2024-08-14   2024-08-14 task with priority and start date Pri:A",
    ]
    .iter()
    .map(|t| Task::new(t))
    .map(|mut t| {
        t.toggle_done();
        t.text
            .strip_prefix(PENDING_PREFIX)
            .unwrap_or(&t.text)
            .to_string()
    })
    .collect();

    let date = today_string();

    let expected: Vec<String> = vec![
        format!("x {date} 2024-08-14 task with start date"),
        "2024-08-14 done task with start date".to_string(),
        format!("x {date} 2024-08-14 task with priority and start date Pri:A"),
        "(A) 2024-08-14 task with priority and start date".to_string(),
    ];
    list.iter().zip(expected).for_each(|e| assert_eq!(*e.0, e.1));
}

#[test]
fn tasks_recurring() {
    let today = Local::now().date_naive();
    let today_str = today.format("%Y-%m-%d").to_string();
    let due = today
        .checked_add_days(Days::new(2))
        .unwrap()
        .format("%Y-%m-%d")
        .to_string();

    let list: Vec<(String, String)> = vec![
        format!("recurrent task rec:10 due:{due}"),
        format!("strict recurrent task rec:+10 due:{due}"),
        format!("recurrent task with days rec:10d due:{due}"),
        format!("strict recurrent task with days rec:+10d due:{due}"),
        format!("recurrent task with months rec:2m due:{due}"),
        format!("strict recurrent task with months rec:+2m due:{due}"),
        format!("recurrent task with years rec:2y due:{due}"),
        format!("strict recurrent task with years rec:+2y due:{due}"),
        format!("2024-08-27 recurrent task with start dates rec:10 due:{due}"),
        format!("2024-08-27 strict recurrent task with start dates rec:+10 due:{due}"),
    ]
    .iter()
    .map(|t| Task::new(t))
    .map(|mut t1| {
        let t2 = t1.toggle_done().unwrap();
        (t1.text.to_string(), t2)
    })
    .collect();

    fn get_date_string(date: Option<NaiveDate>) -> String {
        date.unwrap().format("%Y-%m-%d").to_string()
    }

    let due_days = get_date_string(today.checked_add_days(Days::new(10)));
    let due_days_strict = get_date_string(today.checked_add_days(Days::new(12)));
    let due_m = get_date_string(today.checked_add_months(Months::new(2)));
    let due_strict_m = get_date_string(
        today
            .checked_add_days(Days::new(2))
            .unwrap()
            .checked_add_months(Months::new(2)),
    );
    let due_y = get_date_string(today.checked_add_months(Months::new(12 * 2)));
    let due_strict_y = get_date_string(
        today
            .checked_add_days(Days::new(2))
            .unwrap()
            .checked_add_months(Months::new(12 * 2)),
    );

    let expected: Vec<(String, String)> = vec![
        (
            format!("x {today_str} recurrent task rec:10 due:{due}"),
            format!("{PENDING_PREFIX}recurrent task rec:10 due:{due_days}"),
        ),
        (
            format!("x {today_str} strict recurrent task rec:+10 due:{due}"),
            format!("{PENDING_PREFIX}strict recurrent task rec:+10 due:{due_days_strict}"),
        ),
        (
            format!("x {today_str} recurrent task with days rec:10d due:{due}"),
            format!("{PENDING_PREFIX}recurrent task with days rec:10d due:{due_days}"),
        ),
        (
            format!("x {today_str} strict recurrent task with days rec:+10d due:{due}"),
            format!("{PENDING_PREFIX}strict recurrent task with days rec:+10d due:{due_days_strict}"),
        ),
        (
            format!("x {today_str} recurrent task with months rec:2m due:{due}"),
            format!("{PENDING_PREFIX}recurrent task with months rec:2m due:{due_m}"),
        ),
        (
            format!("x {today_str} strict recurrent task with months rec:+2m due:{due}"),
            format!("{PENDING_PREFIX}strict recurrent task with months rec:+2m due:{due_strict_m}"),
        ),
        (
            format!("x {today_str} recurrent task with years rec:2y due:{due}"),
            format!("{PENDING_PREFIX}recurrent task with years rec:2y due:{due_y}"),
        ),
        (
            format!("x {today_str} strict recurrent task with years rec:+2y due:{due}"),
            format!("{PENDING_PREFIX}strict recurrent task with years rec:+2y due:{due_strict_y}"),
        ),
        (
            format!("x {today_str} 2024-08-27 recurrent task with start dates rec:10 due:{due}"),
            format!("{PENDING_PREFIX}2024-08-27 recurrent task with start dates rec:10 due:{due_days}"),
        ),
        (
            format!(
                "x {today_str} 2024-08-27 strict recurrent task with start dates rec:+10 due:{due}"
            ),
            format!("{PENDING_PREFIX}2024-08-27 strict recurrent task with start dates rec:+10 due:{due_days_strict}"),
        ),
    ];

    list.iter().zip(expected).for_each(|e| assert_eq!(*e.0, e.1));
}
