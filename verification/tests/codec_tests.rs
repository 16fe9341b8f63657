use vault_core::todos::{parse_todo_line, parse_subtask_line, parse_todos, serialize_todos};
use vault_core::todos::{find_subtask_mut, find_todo_mut, Subtask, TodoItem};
use vault_core::todos::extract_due_date;
use vault_core::todos::remove_todo;

fn item(title: &str) -> TodoItem {
    TodoItem {
        id: 1,
        title: title.to_string(),
        completed: false,
        priority: None,
        created_date: None,
        projects: Vec::new(),
        contexts: Vec::new(),
        due_date: None,
        subtasks: Vec::new(),
    }
}

#[test]
fn parses_full_tag_line() {
    let t = parse_todo_line("(A) 2024-01-01 Write report +Work @Office due:2024-01-10", 1)
        .expect("total");
    assert_eq!(t.priority, Some('A'));
    assert_eq!(t.created_date.as_deref(), Some("2024-01-01"));
    assert_eq!(t.title, "Write report");
    assert_eq!(t.projects, vec!["Work".to_string()]);
    assert_eq!(t.contexts, vec!["Office".to_string()]);
    assert_eq!(t.due_date.as_deref(), Some("2024-01-10"));
    assert!(!t.completed);
    assert_eq!(t.id, 1);
}

#[test]
fn parses_completion_marker() {
    let t = parse_todo_line("x Pay rent due:2025-12-25", 3).expect("total");
    assert!(t.completed);
    assert_eq!(t.title, "Pay rent");
    assert_eq!(t.due_date.as_deref(), Some("2025-12-25"));
    assert_eq!(t.id, 3);
}

#[test]
fn marker_needs_no_space() {
    // A line opening with `x` is completed even when no space follows.
    let t = parse_todo_line("xylophone practice", 1).expect("total");
    assert!(t.completed);
    assert_eq!(t.title, "ylophone practice");
}

#[test]
fn collapses_internal_whitespace() {
    let t = parse_todo_line("water   the \t plants", 1).expect("total");
    assert_eq!(t.title, "water the plants");
}

#[test]
fn finds_date_substring_inside_a_word() {
    let t = parse_todo_line("ship2024-03-05build tonight", 1).expect("total");
    assert_eq!(t.created_date.as_deref(), Some("2024-03-05"));
    assert_eq!(t.title, "shipbuild tonight");
}

#[test]
fn due_tag_shields_its_date_from_creation() {
    // The first ISO date lives inside the due tag; it must stay the
    // due date, not become the creation date.
    let t = parse_todo_line("file taxes due:2025-04-15", 1).expect("total");
    assert_eq!(t.created_date, None);
    assert_eq!(t.due_date.as_deref(), Some("2025-04-15"));
    assert_eq!(t.title, "file taxes");
}

#[test]
fn only_first_due_tag_counts() {
    let t = parse_todo_line("a due:1 due:2", 1).expect("total");
    assert_eq!(t.due_date.as_deref(), Some("1"));
    assert_eq!(t.title, "a due:2");
}

#[test]
fn extract_due_date_scans_words() {
    assert_eq!(extract_due_date("call mom due:2025-06-01 @phone").as_deref(), Some("2025-06-01"));
    assert_eq!(extract_due_date("no tag here"), None);
}

#[test]
fn parses_subtask_lines() {
    let s = parse_subtask_line("  - buy milk").expect("total");
    assert_eq!(s.title, "buy milk");
    assert!(!s.completed);
    let s2 = parse_subtask_line("  x - call back").expect("total");
    assert_eq!(s2.title, "call back");
    assert!(s2.completed);
}

#[test]
fn parse_todos_attaches_subtasks_and_skips_blanks() {
    let text = "first\n\n  - child one\n  x - child two\nsecond\n";
    let items = parse_todos(text).expect("total");
    assert_eq!(items.len(), 2);
    assert_eq!(items[0].title, "first");
    assert_eq!(items[0].id, 1);
    assert_eq!(items[0].subtasks.len(), 2);
    assert_eq!(items[0].subtasks[0].title, "child one");
    assert!(!items[0].subtasks[0].completed);
    assert_eq!(items[0].subtasks[1].title, "child two");
    assert!(items[0].subtasks[1].completed);
    assert_eq!(items[1].title, "second");
    assert_eq!(items[1].id, 5);
    assert!(items[1].subtasks.is_empty());
}

#[test]
fn orphan_subtask_line_is_dropped() {
    let items = parse_todos("  - before any task\nreal task\n").expect("total");
    assert_eq!(items.len(), 1);
    assert_eq!(items[0].title, "real task");
    assert!(items[0].subtasks.is_empty());
}

#[test]
fn empty_content_parses_to_nothing() {
    assert!(parse_todos("").expect("total").is_empty());
    assert!(parse_todos("  \n\t\n").expect("total").is_empty());
}

#[test]
fn serializes_in_fixed_token_order() {
    let mut t = item("Write report");
    t.completed = true;
    t.priority = Some('A');
    t.created_date = Some("2024-01-01".to_string());
    t.projects = vec!["Work".to_string()];
    t.contexts = vec!["Office".to_string()];
    t.due_date = Some("2024-01-10".to_string());
    let text = serialize_todos(&[t]);
    assert_eq!(text, "x (A) 2024-01-01 Write report +Work @Office due:2024-01-10\n");
}

#[test]
fn serializes_subtasks_indented() {
    let mut t = item("parent");
    t.subtasks = vec![
        Subtask { title: "open".to_string(), completed: false },
        Subtask { title: "done".to_string(), completed: true },
    ];
    let text = serialize_todos(&[t]);
    assert_eq!(text, "parent\n  - open\n  x - done\n");
}

#[test]
fn round_trip_preserves_all_fields() {
    let mut a = item("Write report");
    a.priority = Some('B');
    a.created_date = Some("2024-01-01".to_string());
    a.projects = vec!["Work".to_string(), "Q1".to_string()];
    a.contexts = vec!["Office".to_string()];
    a.due_date = Some("2024-01-10".to_string());
    let mut b = item("call mom");
    b.completed = true;
    let text = serialize_todos(&[a.clone(), b.clone()]);
    let parsed = parse_todos(&text).expect("total");
    assert_eq!(parsed.len(), 2);
    // Ids are renumbered by line position; everything else is equal.
    assert_eq!(parsed[0].id, 1);
    assert_eq!(parsed[1].id, 2);
    let mut a2 = parsed[0].clone();
    a2.id = a.id;
    assert_eq!(a2, a);
    let mut b2 = parsed[1].clone();
    b2.id = b.id;
    assert_eq!(b2, b);
}

#[test]
fn reserializing_reparse_is_byte_identical() {
    let mut t = item("plan trip");
    t.subtasks = vec![Subtask { title: "book hotel".to_string(), completed: false }];
    let mut u = item("water plants");
    u.due_date = Some("2030-01-02".to_string());
    let once = serialize_todos(&[t, u]);
    let twice = serialize_todos(&parse_todos(&once).expect("total"));
    assert_eq!(once, twice);
}

#[test]
fn find_todo_mut_reports_first_match() {
    let mut a = item("a");
    a.id = 7;
    let mut b = item("b");
    b.id = 9;
    let list = vec![a, b];
    assert_eq!(find_todo_mut(&list, 9), Some(1));
    assert_eq!(find_todo_mut(&list, 8), None);
}

#[test]
fn remove_todo_drops_every_match_in_order() {
    let mut a = item("a");
    a.id = 1;
    let mut b = item("b");
    b.id = 2;
    let mut c = item("c");
    c.id = 1;
    let rest = remove_todo(vec![a, b.clone(), c], 1);
    assert_eq!(rest, vec![b]);
    let none = remove_todo(Vec::new(), 1);
    assert!(none.is_empty());
}

#[test]
fn find_subtask_mut_checks_bounds() {
    let mut t = item("t");
    t.subtasks = vec![Subtask { title: "s".to_string(), completed: false }];
    assert_eq!(find_subtask_mut(&t, 0), Some(0));
    assert_eq!(find_subtask_mut(&t, 1), None);
}
