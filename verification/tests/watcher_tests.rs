use vault_core::prompts::{build_frontmatter, sort_prompt_entries, split_frontmatter, PromptEntry};
use vault_core::watcher::{
    deleted_note_payload, extract_title_from_filename, make_note_payload, process_events,
    sort_notes_by_modified_desc, FsEventKind, NoteEventPayload, RawEvent, WatcherAction,
    WatcherRoots,
};

fn roots() -> WatcherRoots {
    WatcherRoots {
        notes_dir: "/vault/notes".to_string(),
        prompts_dir: "/vault/prompts".to_string(),
        todo_file: "/vault/todo.txt".to_string(),
    }
}

fn ev(kind: FsEventKind, path: &str) -> RawEvent {
    RawEvent { kind, path: path.to_string() }
}

#[test]
fn burst_of_modifications_coalesces_to_one_update() {
    let events = vec![
        ev(FsEventKind::Modify, "/vault/notes/a.md"),
        ev(FsEventKind::Modify, "/vault/notes/a.md"),
        ev(FsEventKind::Modify, "/vault/notes/a.md"),
        ev(FsEventKind::Modify, "/vault/notes/a.md"),
    ];
    let actions = process_events(&roots(), &events);
    assert_eq!(
        actions,
        vec![
            WatcherAction::NoteUpdated("/vault/notes/a.md".to_string()),
            WatcherAction::RefreshNoteList,
        ]
    );
}

#[test]
fn wrong_extension_in_notes_root_is_ignored() {
    let actions = process_events(&roots(), &vec![ev(FsEventKind::Modify, "/vault/notes/a.txt")]);
    assert!(actions.is_empty());
}

#[test]
fn todo_file_change_yields_only_the_signal() {
    let actions = process_events(&roots(), &vec![ev(FsEventKind::Modify, "/vault/todo.txt")]);
    assert_eq!(actions, vec![WatcherAction::TodoCollectionChanged]);
    let actions2 = process_events(&roots(), &vec![ev(FsEventKind::Create, "/vault/todo.txt")]);
    assert_eq!(actions2, vec![WatcherAction::TodoCollectionChanged]);
    let none = process_events(&roots(), &vec![ev(FsEventKind::Remove, "/vault/todo.txt")]);
    assert!(none.is_empty());
}

#[test]
fn kinds_map_to_their_note_events() {
    let events = vec![
        ev(FsEventKind::Create, "/vault/notes/new.md"),
        ev(FsEventKind::Remove, "/vault/notes/old.md"),
    ];
    let actions = process_events(&roots(), &events);
    assert_eq!(
        actions,
        vec![
            WatcherAction::NoteCreated("/vault/notes/new.md".to_string()),
            WatcherAction::NoteDeleted("/vault/notes/old.md".to_string()),
            WatcherAction::RefreshNoteList,
        ]
    );
}

#[test]
fn paths_outside_tracked_roots_are_ignored() {
    let events = vec![
        ev(FsEventKind::Modify, "/elsewhere/a.md"),
        ev(FsEventKind::Modify, "/vault/prompts/p.md"),
    ];
    assert!(process_events(&roots(), &events).is_empty());
}

#[test]
fn distinct_paths_each_get_one_event() {
    let events = vec![
        ev(FsEventKind::Modify, "/vault/notes/a.md"),
        ev(FsEventKind::Modify, "/vault/notes/b.md"),
        ev(FsEventKind::Modify, "/vault/notes/a.md"),
        ev(FsEventKind::Modify, "/vault/todo.txt"),
    ];
    let actions = process_events(&roots(), &events);
    assert_eq!(
        actions,
        vec![
            WatcherAction::NoteUpdated("/vault/notes/a.md".to_string()),
            WatcherAction::NoteUpdated("/vault/notes/b.md".to_string()),
            WatcherAction::RefreshNoteList,
            WatcherAction::TodoCollectionChanged,
        ]
    );
}

#[test]
fn titles_come_from_file_names() {
    assert_eq!(extract_title_from_filename("/vault/notes/My Note.md"), "My Note");
    assert_eq!(extract_title_from_filename("plain"), "plain");
    assert_eq!(extract_title_from_filename("/vault/notes/"), "Untitled");
    // A lone leading dot is part of the name, not an extension mark.
    assert_eq!(extract_title_from_filename("/vault/notes/.md"), ".md");
    assert_eq!(extract_title_from_filename("archive.tar.gz"), "archive.tar");
}

#[test]
fn payloads_carry_name_title_and_time() {
    let p = make_note_payload("/vault/notes/Trip plan.md".to_string(), 42);
    assert_eq!(p.path, "/vault/notes/Trip plan.md");
    assert_eq!(p.name, "Trip plan.md");
    assert_eq!(p.title.as_deref(), Some("Trip plan"));
    assert_eq!(p.modified, Some(42));
    let d = deleted_note_payload("/vault/notes/gone.md".to_string());
    assert_eq!(d.name, "gone.md");
    assert_eq!(d.title, None);
    assert_eq!(d.modified, None);
}

#[test]
fn listing_sorts_newest_first() {
    let mk = |name: &str, modified: Option<u64>| NoteEventPayload {
        path: format!("/vault/notes/{}", name),
        name: name.to_string(),
        title: Some(name.to_string()),
        modified,
    };
    let sorted = sort_notes_by_modified_desc(vec![
        mk("old.md", Some(10)),
        mk("untimed.md", None),
        mk("new.md", Some(99)),
        mk("mid.md", Some(50)),
    ]);
    let names: Vec<&str> = sorted.iter().map(|p| p.name.as_str()).collect();
    assert_eq!(names, vec!["new.md", "mid.md", "old.md", "untimed.md"]);
}

#[test]
fn frontmatter_splits_at_its_fences() {
    let text = "---\ntitle: Greeting\ntags: []\n---\n\nHello there.\n";
    let (block, body) = split_frontmatter(text).expect("has a block");
    assert_eq!(block, "title: Greeting\ntags: []");
    assert_eq!(body, "Hello there.");
}

#[test]
fn frontmatter_is_absent_without_fences() {
    assert_eq!(split_frontmatter("just text"), None);
    assert_eq!(split_frontmatter("---\nunterminated"), None);
    assert_eq!(split_frontmatter("text before\n---\nx\n---\n"), None);
}

#[test]
fn framing_a_prompt_round_trips() {
    let text = build_frontmatter("title: Greeting\nuseCount: 3", "Hello there.");
    assert_eq!(text, "---\ntitle: Greeting\nuseCount: 3\n---\n\nHello there.");
    let (block, body) = split_frontmatter(&text).expect("framed text has a block");
    assert_eq!(block, "title: Greeting\nuseCount: 3");
    assert_eq!(body, "Hello there.");
}

#[test]
fn prompt_listing_orders_by_recency_then_title() {
    let mk = |id: &str, title: &str, last_used: Option<u64>| PromptEntry {
        id: id.to_string(),
        title: title.to_string(),
        last_used,
        use_count: 0,
    };
    let sorted = sort_prompt_entries(vec![
        mk("a", "zebra", None),
        mk("b", "daily recap", Some(5)),
        mk("c", "apple", None),
        mk("d", "standup", Some(9)),
    ]);
    let titles: Vec<&str> = sorted.iter().map(|p| p.title.as_str()).collect();
    assert_eq!(titles, vec!["standup", "daily recap", "apple", "zebra"]);
}
