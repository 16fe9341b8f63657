use vault_core::archive::{archive_completed, list_archive_months, parse_archive, ArchivedTodo};
use vault_core::dates::{date_key, month_key, prev_day, Date};
use vault_core::metadata::{parse_metadata, serialize_metadata};
use vault_core::stats::{compute_streak, day_code_of, month_code_of, Tally, TodoMetadata, TodoStats};
use vault_core::todos::{Subtask, TodoItem};

fn item(title: &str, completed: bool) -> TodoItem {
    TodoItem {
        id: 1,
        title: title.to_string(),
        completed,
        priority: None,
        created_date: None,
        projects: Vec::new(),
        contexts: Vec::new(),
        due_date: None,
        subtasks: Vec::new(),
    }
}

fn day(y: u32, m: u32, d: u32) -> Date {
    Date { year: y, month: m, day: d }
}

#[test]
fn archiving_nothing_changes_nothing() {
    let items = vec![item("a", false), item("b", false)];
    let stats = TodoStats::new();
    let today = day(2024, 5, 10);
    let out = archive_completed(&items, &stats, &today);
    assert_eq!(out.archived_count, 0);
    assert_eq!(out.archive_text, "");
    assert_eq!(out.remaining.len(), 2);
    assert_eq!(out.stats.total_completed, 0);
    assert_eq!(out.stats.current_streak, 0);
    assert_eq!(out.stats.longest_streak, 0);
    assert!(out.stats.completions_by_day.entries.is_empty());
    assert!(out.stats.completions_by_month.entries.is_empty());
}

#[test]
fn archiving_two_items_bumps_counters_and_streak() {
    let items = vec![item("a", true), item("keep", false), item("b", true)];
    let stats = TodoStats::new();
    let today = day(2024, 5, 10);
    let out = archive_completed(&items, &stats, &today);
    assert_eq!(out.archived_count, 2);
    assert_eq!(out.stats.total_completed, 2);
    assert_eq!(out.stats.completions_by_day.get(day_code_of(&today)), 2);
    assert_eq!(out.stats.completions_by_month.get(month_code_of(&today)), 2);
    assert_eq!(out.stats.current_streak, 1);
    assert_eq!(out.stats.longest_streak, 1);
    assert_eq!(out.remaining.len(), 1);
    assert_eq!(out.remaining[0].title, "keep");
    assert_eq!(out.archive_text, "[2024-05-10] a\n[2024-05-10] b\n");
}

#[test]
fn archive_keeps_subtasks_under_their_entry() {
    let mut t = item("done with children", true);
    t.subtasks = vec![
        Subtask { title: "one".to_string(), completed: true },
        Subtask { title: "two".to_string(), completed: false },
    ];
    let out = archive_completed(&vec![t], &TodoStats::new(), &day(2024, 1, 2));
    assert_eq!(out.archive_text, "[2024-01-02] done with children\n  x - one\n  - two\n");
}

#[test]
fn archive_text_reads_back_as_its_entries() {
    let mut t = item("finish the report", true);
    t.subtasks = vec![Subtask { title: "proofread".to_string(), completed: true }];
    let u = item("mail it", true);
    let out = archive_completed(&vec![t, u], &TodoStats::new(), &day(2024, 7, 4));
    let back = parse_archive(&out.archive_text);
    assert_eq!(back.len(), 2);
    assert_eq!(back[0].title, "finish the report");
    assert_eq!(back[0].date, "2024-07-04");
    assert_eq!(back[0].subtasks.len(), 1);
    assert_eq!(back[0].subtasks[0].title, "proofread");
    assert!(back[0].subtasks[0].completed);
    assert_eq!(back[1].title, "mail it");
}

#[test]
fn streak_is_zero_without_a_completion_today() {
    let today = day(2024, 5, 10);
    let yesterday = prev_day(&today);
    let mut days = Tally::new();
    days.add(day_code_of(&yesterday), 3);
    assert_eq!(compute_streak(&days, &today), 0);
}

#[test]
fn streak_counts_consecutive_days_across_month_edge() {
    // Under the thirty-day-month step, the day before 2024-03-01 is
    // 2024-02-30.
    let today = day(2024, 3, 1);
    let mut days = Tally::new();
    days.add(day_code_of(&today), 1);
    days.add(day_code_of(&prev_day(&today)), 2);
    assert_eq!(prev_day(&today), day(2024, 2, 30));
    assert_eq!(compute_streak(&days, &today), 2);
    // One gap further back ends the walk.
    assert_eq!(compute_streak(&days, &day(2024, 3, 2)), 0);
}

#[test]
fn date_keys_render_zero_padded() {
    assert_eq!(date_key(&day(987, 6, 5)), "0987-06-05");
    assert_eq!(month_key(&day(2024, 11, 30)), "2024-11");
}

#[test]
fn parse_archive_reads_entries_and_subtasks() {
    let text = "[2024-01-01] shipped it\n  - note\nnoise line\n[2024-01-02] next\n";
    let entries: Vec<ArchivedTodo> = parse_archive(text);
    assert_eq!(entries.len(), 2);
    assert_eq!(entries[0].date, "2024-01-01");
    assert_eq!(entries[0].title, "shipped it");
    assert_eq!(entries[0].subtasks.len(), 1);
    assert_eq!(entries[0].subtasks[0].title, "note");
    assert_eq!(entries[1].date, "2024-01-02");
    assert!(entries[1].subtasks.is_empty());
}

#[test]
fn parse_archive_drops_leading_subtask_lines() {
    let entries = parse_archive("  - orphan\n[2024-02-03] kept\n");
    assert_eq!(entries.len(), 1);
    assert_eq!(entries[0].title, "kept");
    assert!(entries[0].subtasks.is_empty());
}

#[test]
fn months_list_is_sorted_newest_first() {
    let names = vec![
        "2024-01.txt".to_string(),
        "notes.md".to_string(),
        "2024-11.txt".to_string(),
        "2023-12.txt".to_string(),
        "2024-0a.txt".to_string(),
    ];
    let months = list_archive_months(&names);
    assert_eq!(months, vec!["2024-11".to_string(), "2024-01".to_string(), "2023-12".to_string()]);
}

#[test]
fn metadata_renders_canonically() {
    let mut stats = TodoStats::new();
    stats.total_completed = 5;
    stats.current_streak = 2;
    stats.longest_streak = 4;
    stats.completions_by_month.add(month_code_of(&day(2024, 5, 1)), 5);
    stats.completions_by_day.add(day_code_of(&day(2024, 5, 9)), 3);
    stats.completions_by_day.add(day_code_of(&day(2024, 5, 10)), 2);
    let m = TodoMetadata { daily_limit: 7, stats };
    let text = serialize_metadata(&m);
    assert_eq!(
        text,
        "{\"dailyLimit\":7,\"stats\":{\"totalCompleted\":5,\"currentStreak\":2,\
         \"longestStreak\":4,\"completionsByMonth\":{\"2024-05\":5},\
         \"completionsByDay\":{\"2024-05-09\":3,\"2024-05-10\":2}}}"
    );
}

#[test]
fn metadata_round_trips_through_its_text() {
    let mut stats = TodoStats::new();
    stats.total_completed = 12;
    stats.longest_streak = 3;
    stats.completions_by_day.add(day_code_of(&day(2024, 1, 31)), 12);
    stats.completions_by_month.add(month_code_of(&day(2024, 1, 1)), 12);
    let m = TodoMetadata { daily_limit: 0, stats };
    let text = serialize_metadata(&m);
    let back = parse_metadata(&text).expect("canonical text parses");
    assert_eq!(serialize_metadata(&back), text);
    assert_eq!(back.daily_limit, 0);
    assert_eq!(back.stats.total_completed, 12);
    assert_eq!(back.stats.completions_by_day.get(day_code_of(&day(2024, 1, 31))), 12);
}

#[test]
fn corrupt_metadata_is_refused() {
    assert!(parse_metadata("").is_err());
    assert!(parse_metadata("{}").is_err());
    assert!(parse_metadata("{\"dailyLimit\":oops").is_err());
    // A trailing scrap after a well-formed object is corruption too.
    let good = serialize_metadata(&TodoMetadata { daily_limit: 1, stats: TodoStats::new() });
    let mut bad = good.clone();
    bad.push(' ');
    assert!(parse_metadata(&good).is_ok());
    assert!(parse_metadata(&bad).is_err());
    // Non-canonical numbers are refused rather than reinterpreted.
    assert!(parse_metadata(&good.replace("\"dailyLimit\":1", "\"dailyLimit\":01")).is_err());
}
