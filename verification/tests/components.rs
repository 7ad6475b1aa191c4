use rtodo::auto::{
    active_token, apply_suggestion, kind_prefix, suggestions, wrap_next, wrap_prev,
    AutoCompleteKind,
};
use rtodo::date::{add_days, add_months, Date};
use rtodo::fields::{get_date, get_priority};
use rtodo::list::TaskList;
use rtodo::recur::parse_rec;
use rtodo::registry::TagRegistry;
use rtodo::tasks::{parse_task, Task, TaskStringTag};

fn d(year: u32, month: u32, day: u32) -> Date {
    Date { year, month, day }
}

fn chars(s: &str) -> Vec<char> {
    s.chars().collect()
}

/// The partition must hold whenever grouping is on.
fn check_partition(list: &TaskList) {
    assert!(list.grouping);
    let f = list.first_done_index;
    assert!(f <= list.tasks.len());
    for (i, t) in list.tasks.iter().enumerate() {
        assert_eq!(t.done, i >= f, "partition broken at {i}");
    }
}

#[test]
fn segments_concatenate_to_text() {
    for input in [
        "task",
        "(A) task with priority",
        "x 2024-08-15 2024-08-14 done +proj @ctx due:2024-09-01",
        "words then +proj tail @ctx key:value end",
    ] {
        let t = Task::new(input);
        let joined: String = t.arr.iter().map(|s| s.1.as_str()).collect();
        assert_eq!(joined, t.text);
    }
}

#[test]
fn single_plain_task_has_one_segment() {
    let t = Task::new("task");
    assert!(!t.done);
    assert_eq!(t.text, "\u{2610} task");
    assert_eq!(t.arr.len(), 1);
    assert!(matches!(t.arr[0].0, TaskStringTag::Other));
}

#[test]
fn toggle_cycle_plain_task() {
    let mut t = Task::new("task");
    t.toggle_done_on(&d(2024, 8, 25));
    assert_eq!(t.text, "x 2024-08-25 task");
    assert!(t.done);
    t.toggle_done_on(&d(2024, 8, 26));
    assert_eq!(t.text, "\u{2610} task");
    assert!(!t.done);
}

#[test]
fn toggle_cycle_priority_and_tags() {
    let mut t = Task::new("(A) task +proj @ctx");
    t.toggle_done_on(&d(2024, 8, 25));
    assert_eq!(t.text, "x 2024-08-25 task +proj @ctx Pri:A");
    let tags: Vec<&str> = t
        .arr
        .iter()
        .filter(|s| matches!(s.0, TaskStringTag::Project | TaskStringTag::Context))
        .map(|s| s.1.as_str())
        .collect();
    assert_eq!(tags, vec![" +proj", " @ctx"]);
    t.toggle_done_on(&d(2024, 9, 1));
    assert_eq!(t.text, "\u{2610} (A) task +proj @ctx");
}

#[test]
fn toggle_keeps_start_date() {
    let mut t = Task::new("(B) 2024-08-14 write report");
    t.toggle_done_on(&d(2024, 8, 20));
    assert_eq!(t.text, "x 2024-08-20 2024-08-14 write report Pri:B");
    t.toggle_done_on(&d(2024, 8, 21));
    assert_eq!(t.text, "\u{2610} (B) 2024-08-14 write report");
}

#[test]
fn recurrence_date_math() {
    assert_eq!(add_days(d(2024, 8, 25), 10), Some(d(2024, 9, 4)));
    assert_eq!(add_days(d(2024, 8, 27), 10), Some(d(2024, 9, 6)));
    assert_eq!(add_months(d(2024, 8, 25), 2), Some(d(2024, 10, 25)));
    assert_eq!(add_months(d(2024, 8, 27), 24), Some(d(2026, 8, 27)));
    // clamping at a short month, and leap years
    assert_eq!(add_months(d(2024, 1, 31), 1), Some(d(2024, 2, 29)));
    assert_eq!(add_months(d(2023, 1, 31), 1), Some(d(2023, 2, 28)));
    assert_eq!(add_days(d(2024, 2, 28), 1), Some(d(2024, 2, 29)));
    assert_eq!(add_days(d(2023, 2, 28), 1), Some(d(2023, 3, 1)));
    // the representable range ends at 9999-12-31
    assert_eq!(add_days(d(9999, 12, 31), 1), None);
    assert_eq!(add_months(d(9999, 12, 1), 1), None);
}

#[test]
fn strict_recurrence_spawns_from_due_date() {
    let mut t = Task::new("pay rent rec:+10 due:2024-08-25");
    let spawned = t.toggle_done_on(&d(2020, 1, 1)).unwrap();
    assert_eq!(spawned, "\u{2610} pay rent rec:+10 due:2024-09-04");
    assert_eq!(t.text, "x 2020-01-01 pay rent rec:+10 due:2024-08-25");
}

#[test]
fn loose_recurrence_spawns_from_completion_date() {
    let mut t = Task::new("water plants rec:1w due:2024-08-25");
    let spawned = t.toggle_done_on(&d(2024, 9, 10)).unwrap();
    assert_eq!(spawned, "\u{2610} water plants rec:1w due:2024-09-17");
}

#[test]
fn malformed_recurrence_suppresses_spawn() {
    // an unparsable count
    let mut t1 = Task::new("a rec:abc due:2024-08-25");
    assert_eq!(t1.toggle_done_on(&d(2024, 1, 1)), None);
    // a bad anchor in strict mode
    let mut t2 = Task::new("b rec:+3 due:notadate");
    assert_eq!(t2.toggle_done_on(&d(2024, 1, 1)), None);
    // an impossible calendar day as the strict anchor
    let mut t3 = Task::new("c rec:+3 due:2024-02-30");
    assert_eq!(t3.toggle_done_on(&d(2024, 1, 1)), None);
    // no due date at all
    let mut t4 = Task::new("d rec:3");
    assert_eq!(t4.toggle_done_on(&d(2024, 1, 1)), None);
    // the toggle itself still succeeded every time
    assert!(t1.done && t2.done && t3.done && t4.done);
}

#[test]
fn parse_rec_forms() {
    assert_eq!(parse_rec("10"), Some((false, 10, 'd')));
    assert_eq!(parse_rec("+10"), Some((true, 10, 'd')));
    assert_eq!(parse_rec("3w"), Some((false, 3, 'w')));
    assert_eq!(parse_rec("+2m"), Some((true, 2, 'm')));
    assert_eq!(parse_rec("2y"), Some((false, 2, 'y')));
    assert_eq!(parse_rec(""), None);
    assert_eq!(parse_rec("+"), None);
    assert_eq!(parse_rec("w"), None);
    assert_eq!(parse_rec("12x"), None);
    assert_eq!(parse_rec("99999999999999999999999"), None);
}

#[test]
fn field_extraction() {
    assert_eq!(get_priority("(A) rest"), (" rest", "A"));
    assert_eq!(get_priority("  (B) rest"), (" rest", "B"));
    assert_eq!(get_priority("(a) rest"), ("(a) rest", ""));
    assert_eq!(get_priority("plain"), ("plain", ""));
    assert_eq!(get_date("2024-08-14 tail"), (" tail", "2024-08-14"));
    assert_eq!(get_date("20x4-08-14 tail"), ("20x4-08-14 tail", ""));
    assert_eq!(get_date("short"), ("short", ""));
}

#[test]
fn parse_task_classifies_words() {
    let segs = parse_task("\u{2610} (A) pay +home @phone bill due:2024-09-01 now");
    let tags: Vec<(String, String)> = segs
        .iter()
        .map(|s| (format!("{:?}", s.0), s.1.clone()))
        .collect();
    assert_eq!(
        tags,
        vec![
            ("Other".to_string(), "\u{2610} ".to_string()),
            ("Priority".to_string(), "(A)".to_string()),
            ("Other".to_string(), " pay".to_string()),
            ("Project".to_string(), " +home".to_string()),
            ("Context".to_string(), " @phone".to_string()),
            ("Other".to_string(), " bill".to_string()),
            ("KV".to_string(), " due:2024-09-01".to_string()),
            ("Other".to_string(), " now".to_string()),
        ]
    );
}

#[test]
fn list_partition_through_operations() {
    let lines: Vec<String> = vec![
        "first pending",
        "x already done",
        "second pending",
        "",
        "x",
        "x another done",
    ]
    .into_iter()
    .map(|s| s.to_string())
    .collect();
    let mut list = TaskList::from_lines(&lines, true);
    check_partition(&list);
    assert_eq!(list.len(), 4);
    assert_eq!(list.first_done_index, 2);

    // inserts: a pending line lands at the boundary, a done one at the end
    list.push_line("third pending");
    check_partition(&list);
    assert_eq!(list.first_done_index, 3);
    list.push_line("x finished later");
    check_partition(&list);
    assert_eq!(list.len(), 6);

    // toggling a pending task moves it to the front of the done region
    let spawned = list.toggle_at(0, &d(2024, 8, 25));
    assert_eq!(spawned, None);
    check_partition(&list);
    assert_eq!(list.first_done_index, 2);
    assert_eq!(list.tasks[2].text, "x 2024-08-25 first pending");

    // toggling a done task moves it to the end of the pending region
    list.toggle_at(5, &d(2024, 8, 26));
    check_partition(&list);
    assert_eq!(list.first_done_index, 3);

    // deleting keeps the boundary in step
    list.delete_at(0);
    check_partition(&list);
    list.delete_at(list.len() - 1);
    check_partition(&list);

    // replacing a pending task with a done one crosses the boundary
    let done_task = Task::new("x replacement");
    list.replace_at(0, done_task);
    check_partition(&list);
}

#[test]
fn ungrouped_list_keeps_file_order() {
    let lines: Vec<String> = vec!["x done first", "pending second", "x done third"]
        .into_iter()
        .map(|s| s.to_string())
        .collect();
    let list = TaskList::from_lines(&lines, false);
    assert_eq!(list.first_done_index, usize::MAX);
    let texts: Vec<&str> = list.tasks.iter().map(|t| t.text.as_str()).collect();
    assert_eq!(
        texts,
        vec!["x done first", "\u{2610} pending second", "x done third"]
    );
}

#[test]
fn spawned_task_is_inserted_pending() {
    let lines: Vec<String> = vec!["water rec:+1 due:2024-08-25".to_string()];
    let mut list = TaskList::from_lines(&lines, true);
    let spawned = list.toggle_at(0, &d(2024, 1, 1)).unwrap();
    list.push_line(&spawned);
    check_partition(&list);
    assert_eq!(list.tasks[0].text, "\u{2610} water rec:+1 due:2024-08-26");
    assert_eq!(list.tasks[1].text, "x 2024-01-01 water rec:+1 due:2024-08-25");
}

#[test]
fn filter_semantics() {
    let lines: Vec<String> = vec![
        "errand +work call the office",
        "x done +work send minutes",
        "read a book",
    ]
    .into_iter()
    .map(|s| s.to_string())
    .collect();
    let list = TaskList::from_lines(&lines, true);

    let hits = list.filter_tasks("+work,-done");
    assert_eq!(hits.len(), 1);
    assert_eq!(hits[0].text, "\u{2610} errand +work call the office");

    let all = list.filter_tasks("");
    assert_eq!(all.len(), 3);

    let negative_only = list.filter_tasks("-book");
    assert_eq!(negative_only.len(), 2);
}

#[test]
fn find_and_report() {
    let lines: Vec<String> = vec!["a one", "x b two", "a one"]
        .into_iter()
        .map(|s| s.to_string())
        .collect();
    let list = TaskList::from_lines(&lines, true);
    let needle = "\u{2610} a one".to_string();
    assert_eq!(list.find_by_text(&needle), Some(0));
    let missing = "absent".to_string();
    assert_eq!(list.find_by_text(&missing), None);
    let (total, completed, todo) = list.report_counts();
    assert_eq!((total, completed, todo), (3, 1, 2));
}

#[test]
fn registry_collects_tags_once() {
    let mut reg = TagRegistry::new();
    reg.add_from_text("\u{2610} fix +home @phone and +home again");
    reg.add_from_text("call +office @phone");
    assert_eq!(reg.projects, vec!["home".to_string(), "office".to_string()]);
    assert_eq!(reg.contexts, vec!["phone".to_string()]);
    // bare markers contribute nothing
    reg.add_from_text("+ @ nothing");
    assert_eq!(reg.projects.len(), 2);
    assert_eq!(reg.contexts.len(), 1);
}

#[test]
fn autocomplete_flow() {
    let text = chars("call +ho");
    let (kind, typed) = active_token(&text, text.len()).unwrap();
    assert!(matches!(kind, AutoCompleteKind::Project));
    assert_eq!(typed.iter().collect::<String>(), "ho");

    let entries = vec!["home".to_string(), "work".to_string(), "phone".to_string()];
    let hits = suggestions(&entries, &typed);
    assert_eq!(hits, vec!["home".to_string(), "phone".to_string()]);

    // a space before the cursor clears the suggestion state
    let blank = chars("call ");
    assert!(active_token(&blank, blank.len()).is_none());
    // a plain word offers nothing
    let plain = chars("call ho");
    assert!(active_token(&plain, plain.len()).is_none());

    // selection wraps around in both directions
    assert_eq!(wrap_next(0, 2), 1);
    assert_eq!(wrap_next(1, 2), 0);
    assert_eq!(wrap_prev(1, 2), 0);
    assert_eq!(wrap_prev(0, 2), 1);

    // accepting a suggestion replaces the partial token
    let sel = chars("home");
    let (new_text, new_cursor) =
        apply_suggestion(&text, text.len(), kind_prefix(kind), &sel).unwrap();
    assert_eq!(new_text.iter().collect::<String>(), "call +home");
    assert_eq!(new_cursor, 10);

    // with text after the cursor, the cursor lands after the insertion
    let mid = chars("see @ph later");
    let (new_text2, new_cursor2) = apply_suggestion(&mid, 7, '@', &chars("phone")).unwrap();
    assert_eq!(new_text2.iter().collect::<String>(), "see @phone later");
    assert_eq!(new_cursor2, 10);
}

#[test]
fn blank_edit_clears_nothing_special() {
    // pushing blank input leaves the list alone
    let mut list = TaskList::new(true);
    list.push_line("   ");
    assert_eq!(list.len(), 0);
    list.push_line("real");
    assert_eq!(list.len(), 1);
}
