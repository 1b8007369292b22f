use cosmic_ext_applet_scratchpad::storage::{
    backup_path, create_new_note, data_dir, derive_title, initial_note_file, join, list_notes, modified_since,
    note_sort_key, order_notes, pad_number_of_name, pad_path, trash_dir, trash_file_name, DirEntry,
};
use std::path::Path;

const DIR: &str = "/home/user/.local/share/cosmic-scratchpad";

#[test]
fn test_derive_title() {
    assert_eq!(
        derive_title("# Project Setup\nSome content", "Fallback"),
        "Project Setup"
    );
    assert_eq!(derive_title("### Sub Header", "Fallback"), "Sub Header");
    assert_eq!(derive_title("* Bullet item", "Fallback"), "Bullet item");
    assert_eq!(
        derive_title("- Another bullet", "Fallback"),
        "Another bullet"
    );
    assert_eq!(derive_title("> Quote line", "Fallback"), "Quote line");
    assert_eq!(
        derive_title("Plain text first line\nSecond line", "Fallback"),
        "Plain text first line"
    );
    assert_eq!(
        derive_title("   \n\n#    Spaced Title   \n", "Fallback"),
        "Spaced Title"
    );
    assert_eq!(derive_title("", "Fallback"), "Fallback");
    assert_eq!(derive_title("   \n\t  ", "Fallback"), "Fallback");

    // Long title truncation (capped at 22 chars + ellipsis)
    let long_line = "This is a remarkably long line designed to test title truncation behavior";
    let derived = derive_title(long_line, "Fallback");
    assert!(derived.ends_with('…'));
    assert!(derived.chars().count() <= 23);

    // Markdown bold / formatting preservation
    assert_eq!(derive_title("**Bold Title**", "Fallback"), "**Bold Title**");
    assert_eq!(derive_title("`code snippet`", "Fallback"), "`code snippet`");

    // Unicode and Turkish character handling
    let turkish_line = "Şekerli çay ve öğleden sonra toplantısı";
    let turkish_derived = derive_title(turkish_line, "Fallback");
    assert!(turkish_derived.ends_with('…'));
    assert!(turkish_derived.starts_with("Şekerli çay"));
}

#[test]
fn test_pad_path_indexing() {
    let p0 = pad_path(DIR, 0);
    let p1 = pad_path(DIR, 1);
    let p2 = pad_path(DIR, 2);

    assert!(Path::new(&p0).ends_with("pad_1.md"));
    assert!(Path::new(&p1).ends_with("pad_2.md"));
    assert!(Path::new(&p2).ends_with("pad_3.md"));
}

#[test]
fn derive_title_exact_truncation() {
    let long_line = "This is a remarkably long line designed to test title truncation behavior";
    assert_eq!(derive_title(long_line, "Fallback"), "This is a remarkably l…");
    // trailing whitespace before the cut is dropped
    assert_eq!(
        derive_title("abcdefghijklmnopqrstu  vwxyz", "F"),
        "abcdefghijklmnopqrstu…"
    );
    // exactly 22 characters are kept whole
    assert_eq!(
        derive_title("abcdefghijklmnopqrstuv", "F"),
        "abcdefghijklmnopqrstuv"
    );
}

#[test]
fn derive_title_line_endings_and_markers() {
    assert_eq!(derive_title("\r\n  \r\nHello\r\nWorld", "F"), "Hello");
    assert_eq!(derive_title("#\n##\n+ plus item", "F"), "plus item");
    assert_eq!(derive_title("-not a bullet", "F"), "-not a bullet");
    assert_eq!(derive_title("- ", "F"), "-");
    assert_eq!(derive_title("#  - nested", "F"), "nested");
    assert_eq!(derive_title("last\r", "F"), "last");
}

#[test]
fn pad_and_backup_and_trash_paths() {
    assert_eq!(pad_path(DIR, 0), format!("{}/pad_1.md", DIR));
    assert_eq!(pad_path("dir/", 9), "dir/pad_10.md");
    assert_eq!(pad_path("", 4), "pad_5.md");
    assert_eq!(backup_path(DIR, 2), format!("{}/pad_3.md.bak", DIR));
    assert_eq!(trash_dir(DIR), format!("{}/trash", DIR));
    assert_eq!(join("a", "b"), "a/b");
}

#[test]
fn data_dir_resolution() {
    assert_eq!(data_dir(Some("/x"), Some("/home/u")), "/x/cosmic-scratchpad");
    assert_eq!(
        data_dir(Some("   "), Some("/home/u")),
        "/home/u/.local/share/cosmic-scratchpad"
    );
    assert_eq!(
        data_dir(None, Some("/home/u")),
        "/home/u/.local/share/cosmic-scratchpad"
    );
    assert_eq!(data_dir(Some(""), None), "/tmp/cosmic-scratchpad");
    assert_eq!(data_dir(None, None), "/tmp/cosmic-scratchpad");
}

#[test]
fn pad_numbers_and_sort_keys() {
    assert_eq!(pad_number_of_name("pad_12.md"), Some(12));
    assert_eq!(pad_number_of_name("pad_+7.md"), Some(7));
    assert_eq!(pad_number_of_name("pad_007.md"), Some(7));
    assert_eq!(pad_number_of_name("pad_.md"), None);
    assert_eq!(pad_number_of_name("pad_-1.md"), None);
    assert_eq!(pad_number_of_name("pad_x.md"), None);
    assert_eq!(pad_number_of_name("pad_99999999999999999999.md"), None);
    assert_eq!(
        pad_number_of_name("pad_18446744073709551615.md"),
        Some(u64::MAX)
    );
    let k = note_sort_key("pad_3.md");
    assert_eq!((k.group, k.number, k.name.as_str()), (0, 3, ""));
    let k = note_sort_key("Ideas.MD.md");
    assert_eq!((k.group, k.number, k.name.as_str()), (1, 0, "ideas.md.md"));
}

fn entry(name: &str, is_file: bool) -> DirEntry {
    DirEntry {
        name: name.to_string(),
        is_file,
    }
}

#[test]
fn list_notes_orders_naturally() {
    let entries = vec![
        entry("pad_10.md", true),
        entry("Zeta.md", true),
        entry("pad_2.md", true),
        entry("alpha.md", true),
        entry(".hidden.md", true),
        entry("pad_1.md.bak", true),
        entry("notes.txt", true),
        entry("pad_3.md", false),
        entry("pad_1.md", true),
    ];
    let listed = list_notes(&entries);
    assert_eq!(
        listed,
        vec!["pad_1.md", "pad_2.md", "pad_10.md", "alpha.md", "Zeta.md"]
    );
    assert!(list_notes(&vec![entry("a.txt", true)]).is_empty());
}

#[test]
fn empty_directory_gets_a_first_note() {
    let listed = list_notes(&vec![entry("a.txt", true)]);
    assert_eq!(initial_note_file(&listed), Some("pad_1.md".to_string()));
    let listed = list_notes(&vec![entry("pad_3.md", true)]);
    assert_eq!(initial_note_file(&listed), None);
}

#[test]
fn equal_keys_keep_directory_order() {
    let entries = vec![entry("pad_01.md", true), entry("a.md", true), entry("pad_1.md", true), entry("A.md", true)];
    assert_eq!(list_notes(&entries), vec!["pad_01.md", "pad_1.md", "a.md", "A.md"]);
}

#[test]
fn create_new_note_plans() {
    let none = create_new_note(&vec![], None);
    assert_eq!(none.file_name, "pad_1.md");
    assert_eq!(none.content, "");

    let entries = vec![
        entry("pad_1.md", true),
        entry("pad_7.md", true),
        entry("pad_9.md", false),
        entry("other.md", true),
    ];
    let titled = create_new_note(&entries, Some("  Meeting Notes "));
    assert_eq!(titled.file_name, "pad_8.md");
    assert_eq!(titled.content, "# Meeting Notes\n\n");
    let blank = create_new_note(&entries, Some("   "));
    assert_eq!(blank.content, "");
}

#[test]
fn trash_names_and_modification() {
    assert_eq!(trash_file_name(0, "pad_2.md"), "0_pad_2.md");
    assert_eq!(
        trash_file_name(1700000000123456789, "pad_2.md"),
        "1700000000123456789_pad_2.md"
    );
    assert!(modified_since(5, None));
    assert!(modified_since(5, Some(4)));
    assert!(!modified_since(5, Some(5)));
    assert!(!modified_since(-3, Some(0)));
}

#[test]
fn order_notes_from_given_lowercase_names() {
    let entries = vec![
        entry("b.md", true),
        entry("pad_2.md", true),
        entry("A.md", true),
        entry("skip.txt", true),
    ];
    let lowered = vec![
        "zz.md".to_string(),
        "pad_2.md".to_string(),
        "aa.md".to_string(),
        "skip.txt".to_string(),
    ];
    assert_eq!(order_notes(&entries, &lowered), vec![1, 2, 0]);

    // equal keys keep directory order
    let entries = vec![entry("B.md", true), entry("b.md", true), entry("pad_1.md", true)];
    let lowered = vec!["b.md".to_string(), "b.md".to_string(), "pad_1.md".to_string()];
    assert_eq!(order_notes(&entries, &lowered), vec![2, 0, 1]);
    let listed = list_notes(&entries);
    assert_eq!(listed, vec!["pad_1.md", "B.md", "b.md"]);
}

#[test]
fn new_note_is_titled_with_its_title() {
    let plan = create_new_note(&vec![], Some("Meeting Notes"));
    assert_eq!(derive_title(&plan.content, "Fallback"), "Meeting Notes");
    let plan = create_new_note(&vec![], Some("A rather long title for a brand new note"));
    assert_eq!(derive_title(&plan.content, "Fallback"), "A rather long title fo…");
    let plan = create_new_note(&vec![], None);
    assert_eq!(derive_title(&plan.content, "Fallback"), "Fallback");
}
