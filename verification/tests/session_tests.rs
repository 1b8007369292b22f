use cosmic_ext_applet_scratchpad::session::{
    matching_indices, position_of_title, NoteEntry, PopupToggle, Session, SubmitOutcome,
};

fn note(i: usize, text: &str) -> NoteEntry {
    NoteEntry::loaded(
        format!("/d/pad_{}.md", i + 1),
        format!("pad_{}.md", i + 1),
        text.to_string(),
        Some(100),
        &format!("Note {}", i + 1),
    )
}

fn session(texts: &[&str]) -> Session {
    let notes = texts.iter().enumerate().map(|(i, t)| note(i, t)).collect();
    Session::new(notes, 0, None, true)
}

#[test]
fn loaded_note_has_title_and_counts() {
    let n = note(0, "# Groceries\nmilk eggs");
    assert_eq!(n.title, "Groceries");
    assert_eq!((n.words, n.chars), (4, 21));
    assert!(n.saved);
    let empty = note(4, "  ");
    assert_eq!(empty.title, "Note 5");
    assert_eq!((empty.words, empty.chars), (0, 0));
}

#[test]
fn start_up_picks_remembered_note() {
    let notes = vec![note(0, "a"), note(1, "b"), note(2, "c")];
    let s = Session::new(notes, 0, Some("pad_3.md".to_string()), false);
    assert_eq!(s.active_index(), 2);
    assert_eq!(s.active_tab(), 2);
    assert_eq!(s.active_file(), Some("pad_3.md".to_string()));
    assert_eq!(s.filtered_indices(), &vec![0, 1, 2]);
    assert!(!s.wrap_lines());

    let notes = vec![note(0, "a"), note(1, "b")];
    let s = Session::new(notes, 0, Some("gone.md".to_string()), true);
    assert_eq!(s.active_index(), 0);

    let notes = vec![note(0, "a"), note(1, "b")];
    let s = Session::new(notes, 7, None, true);
    assert_eq!(s.active_index(), 1);

    let s = Session::new(vec![], 3, None, true);
    assert_eq!(s.active_index(), 0);
    assert_eq!(s.active_file(), None);
}

#[test]
fn navigation_wraps_around() {
    let mut s = session(&["a", "b", "c"]);
    assert!(s.prev_note().is_none());
    assert_eq!(s.active_index(), 2);
    s.next_note();
    assert_eq!(s.active_index(), 0);
    s.next_note();
    s.prev_note();
    assert_eq!(s.active_index(), 0);
    let mut one = session(&["only"]);
    one.next_note();
    assert_eq!(one.active_index(), 0);
}

#[test]
fn leaving_an_edited_note_saves_it_once() {
    let mut s = session(&["a", "b"]);
    let idx = s.note_edited("edited text".to_string(), 1000, "Note 1");
    assert_eq!(idx, 0);
    assert!(!s.note(0).saved);
    assert_eq!(s.note(0).title, "edited text");
    let save = s.select_note(1).expect("save of the note left");
    assert_eq!((save.index, save.path.as_str(), save.text.as_str()), (0, "/d/pad_1.md", "edited text"));
    assert!(s.note(0).saved);
    assert!(s.select_note(0).is_none());
    assert!(s.select_note(0).is_none());
    assert!(s.select_note(9).is_none());
}

#[test]
fn switching_notes_saves_the_note_left() {
    let mut s = session(&["a", "b", "c"]);
    s.note_edited("changed a".to_string(), 10, "Note 1");
    let save = s.next_note().expect("save of the note left");
    assert_eq!((save.index, save.path.as_str(), save.text.as_str()), (0, "/d/pad_1.md", "changed a"));
    s.note_edited("changed b".to_string(), 20, "Note 2");
    let save = s.prev_note().expect("save of the note left");
    assert_eq!((save.index, save.path.as_str(), save.text.as_str()), (1, "/d/pad_2.md", "changed b"));
    assert!(s.next_note().is_none());

    s.note_edited("# Groceries\nmilk".to_string(), 30, "Note 2");
    s.toggle_search();
    s.search_input_changed("c".to_string());
    match s.submit_search() {
        SubmitOutcome::Selected(Some(save)) => assert_eq!(
            (save.index, save.path.as_str(), save.text.as_str()),
            (1, "/d/pad_2.md", "# Groceries\nmilk")
        ),
        _ => panic!("expected a selection with a save"),
    }
    assert_eq!(s.active_index(), 2);
}

#[test]
fn debounce_saves_after_quiet_period() {
    let mut s = session(&["a"]);
    s.note_edited("ab".to_string(), 1000, "Note 1");
    assert!(s.debounce_timeout(0, 1349).is_none());
    let save = s.debounce_timeout(0, 1350).expect("due");
    assert_eq!(save.text, "ab");
    assert!(s.debounce_timeout(0, 5000).is_none());
    s.note_saved(0, Some(777));
    assert_eq!(s.note(0).last_mtime, Some(777));
}

#[test]
fn delete_and_undo_restore_the_note() {
    let mut s = session(&["first", "second", "third"]);
    s.select_note(1);
    let deleted = s.delete_active_note().expect("deleted");
    assert_eq!(deleted.path, "/d/pad_2.md");
    assert_eq!(deleted.generation, 1);
    assert!(!deleted.needs_replacement);
    assert_eq!(s.note_count(), 2);
    assert_eq!(s.active_index(), 1);
    assert_eq!(s.note(1).text, "third");
    assert!(s.undo_pending());

    let (path, text) = s.take_undo().expect("undo");
    assert_eq!((path.as_str(), text.as_str()), ("/d/pad_2.md", "second"));
    assert!(!s.undo_pending());
    let removed = s.restore_note(path, "pad_2.md".to_string(), text, Some(5), "Note 3");
    assert_eq!(removed, None);
    assert_eq!(s.note_count(), 3);
    assert_eq!(s.active_index(), 2);
    assert_eq!(s.note(2).text, "second");
    assert_eq!(s.active_file(), Some("pad_2.md".to_string()));
}

#[test]
fn undo_still_works_after_other_messages() {
    let mut s = session(&["first", "second", "third"]);
    s.select_note(1);
    let deleted = s.delete_active_note().expect("deleted");
    s.note_edited("third, edited".to_string(), 1_000, "Note 3");
    s.toggle_search();
    s.search_input_changed("first".to_string());
    s.submit_search();
    s.copy_all();
    s.dismiss_undo_banner(deleted.generation + 1);
    s.next_note();
    assert!(s.undo_pending());

    let (path, text) = s.take_undo().expect("undo");
    assert_eq!((path.as_str(), text.as_str()), ("/d/pad_2.md", "second"));
    s.restore_note(path, "pad_2.md".to_string(), text, Some(5), "Note 2");
    assert!(!s.undo_pending());
    assert_eq!(s.note_count(), 3);
    let a = s.active_index();
    assert_eq!(s.note(a).path, "/d/pad_2.md");
    assert_eq!(s.note(a).text, "second");
    assert_eq!(s.filtered_indices(), &vec![0]);
}

#[test]
fn deleting_the_last_note_and_restoring_it() {
    let mut s = session(&["solo"]);
    let deleted = s.delete_active_note().unwrap();
    assert!(deleted.needs_replacement);
    assert!(s.needs_replacement());
    assert_eq!(s.note_count(), 0);
    s.replacement_created("/d/pad_2.md".to_string(), "pad_2.md".to_string(), None, "Note 1");
    assert_eq!(s.note_count(), 1);
    assert!(!s.needs_replacement());
    assert_eq!(s.note(0).title, "Note 1");
    let (path, text) = s.take_undo().unwrap();
    let removed = s.restore_note(path, "pad_1.md".to_string(), text, None, "Note 2");
    assert_eq!(removed, Some("/d/pad_2.md".to_string()));
    assert_eq!(s.note_count(), 1);
    assert_eq!(s.note(0).text, "solo");
}

#[test]
fn undo_banner_timeouts_follow_generations() {
    let mut s = session(&["a", "b", "c"]);
    let first = s.delete_active_note().unwrap().generation;
    let second = s.delete_active_note().unwrap().generation;
    assert_ne!(first, second);
    s.dismiss_undo_banner(first);
    assert!(s.undo_pending());
    s.dismiss_undo_banner(second);
    assert!(!s.undo_pending());
}

#[test]
fn search_filters_ignoring_case() {
    let mut s = session(&["# Groceries\nMilk", "# Work\nreport", "# Ideas\nmilkshake"]);
    assert!(s.toggle_search());
    s.search_input_changed("  MILK ".to_string());
    assert_eq!(s.filtered_indices(), &vec![0, 2]);
    s.search_input_changed("".to_string());
    assert_eq!(s.filtered_indices(), &vec![0, 1, 2]);
    s.search_input_changed("nothing".to_string());
    assert!(s.filtered_indices().is_empty());
    assert!(!s.shows_no_results());
    assert_eq!(s.create_offer(), Some("nothing".to_string()));
    s.search_input_changed("work".to_string());
    assert_eq!(s.create_offer(), None);
}

#[test]
fn submit_search_selects_or_creates() {
    let mut s = session(&["# Groceries\nmilk", "# Work\nreport milk"]);
    s.toggle_search();
    s.search_input_changed("WORK".to_string());
    match s.submit_search() {
        SubmitOutcome::Selected(save) => assert!(save.is_none()),
        _ => panic!("expected a selection"),
    }
    assert_eq!(s.active_index(), 1);
    assert!(!s.is_searching());

    s.toggle_search();
    s.search_input_changed(" Brand new ".to_string());
    match s.submit_search() {
        SubmitOutcome::CreateNote(title) => assert_eq!(title, "Brand new"),
        _ => panic!("expected a new note"),
    }
    s.new_note_requested();
    s.note_created(
        "/d/pad_3.md".to_string(),
        "pad_3.md".to_string(),
        "# Brand new\n\n".to_string(),
        Some(9),
        "Note 3",
    );
    assert_eq!(s.note_count(), 3);
    assert_eq!(s.active_index(), 2);
    assert_eq!(s.note(2).title, "Brand new");
    assert!(!s.is_searching());
    assert_eq!(s.search_query(), "");
}

#[test]
fn popup_and_escape() {
    let mut s = session(&["a"]);
    assert!(matches!(s.toggle_popup(), PopupToggle::Open));
    s.popup_opened(42);
    assert_eq!(s.popup(), Some(42));
    s.toggle_search();
    assert!(s.escape_pressed().is_none());
    assert!(!s.is_searching());
    s.note_edited("changed".to_string(), 5, "Note 1");
    let close = s.escape_pressed().expect("closes");
    assert_eq!(close.popup, 42);
    assert!(close.save.is_some());
    assert_eq!(s.popup(), None);
    assert!(s.close_requested(42).is_none());
}

#[test]
fn reload_only_touches_saved_notes() {
    let mut s = session(&["a", "b"]);
    s.note_edited("unsaved".to_string(), 1, "Note 1");
    assert!(s.reload_check(0).is_none());
    let (path, mtime) = s.reload_check(1).unwrap();
    assert_eq!((path.as_str(), mtime), ("/d/pad_2.md", Some(100)));
    s.reload_note(1, "# From disk".to_string(), 200, "Note 2");
    assert_eq!(s.note(1).title, "From disk");
    assert_eq!(s.note(1).last_mtime, Some(200));
    s.reload_note(0, "ignored".to_string(), 300, "Note 1");
    assert_eq!(s.note(0).text, "unsaved");
}

#[test]
fn copy_mark_resets_with_latest_generation() {
    let mut s = session(&["copy me"]);
    let (text, g1) = s.copy_all();
    assert_eq!(text, "copy me");
    let (_, g2) = s.copy_all();
    s.reset_copy_status(g1);
    assert!(s.copied_recently());
    s.reset_copy_status(g2);
    assert!(!s.copied_recently());
    s.toggle_settings();
    assert!(s.show_settings());
    s.toggle_wrap_lines();
    assert!(!s.wrap_lines());
}

#[test]
fn labels() {
    let mut s = session(&["# Title\none two three", "b"]);
    assert_eq!(s.card_label(0), "1/2 · 5w");
    assert_eq!(s.header_label(), "1/2 · Title");
    s.next_note();
    assert_eq!(s.header_label(), "2/2 · b");
}

#[test]
fn filtering_and_title_lookup_from_lowercase_forms() {
    let titles = vec!["groceries".to_string(), "work".to_string()];
    let texts = vec!["milk".to_string(), "report".to_string()];
    assert_eq!(matching_indices("or", &titles, &texts), vec![1]);
    assert_eq!(matching_indices("r", &titles, &texts), vec![0, 1]);
    assert_eq!(position_of_title("work", &titles), Some(1));
    assert_eq!(position_of_title("wor", &titles), None);
}
