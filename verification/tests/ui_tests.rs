use cosmic_ext_applet_scratchpad::ui::{
    count_words_and_chars, get_preview_snippet, preview_from_lowered,
};

#[test]
fn test_word_and_char_counter_empty() {
    assert_eq!(count_words_and_chars(""), (0, 0));
    assert_eq!(count_words_and_chars("   \n\t  "), (0, 0));
}

#[test]
fn test_word_and_char_counter_unicode_and_multiline() {
    assert_eq!(count_words_and_chars("hello world"), (2, 11));
    assert_eq!(
        count_words_and_chars("Merhaba dünya! Şekerli çay."),
        (4, 27)
    );
    assert_eq!(
        count_words_and_chars("curl -X POST https://api.com/v1\nAuthorization: Bearer xyz"),
        (7, 57)
    );
}

#[test]
fn test_get_preview_snippet_matching_query() {
    let text = "# Meeting\nDiscuss architecture\nAction item: buy milk";
    assert_eq!(get_preview_snippet(text, "milk"), "Action item: buy milk");
}

#[test]
fn test_get_preview_snippet_empty_or_fallback() {
    let text = "# Only Title";
    assert_eq!(get_preview_snippet(text, ""), "…");

    let multiline = "# Title\nFirst line of body text here";
    assert_eq!(
        get_preview_snippet(multiline, ""),
        "First line of body text here"
    );
}

#[test]
fn counter_counts_leading_and_trailing_whitespace_chars() {
    assert_eq!(count_words_and_chars("  a  b \n"), (2, 8));
    assert_eq!(count_words_and_chars("\u{3000}x\u{A0}y"), (2, 4));
}

#[test]
fn preview_case_insensitive_and_truncated() {
    let text = "# Title\n## MILK Section\nbody";
    assert_eq!(get_preview_snippet(text, "  Milk "), "MILK Section");
    assert_eq!(get_preview_snippet(text, "absent"), "MILK Section");
    let long = "t\nabcdefghijklmnopqrstuvwxyzabcdefghijklmnopqrstuvwxyz";
    assert_eq!(
        get_preview_snippet(long, ""),
        "abcdefghijklmnopqrstuvwxyzabcdefghijklmnop…"
    );
}

#[test]
fn preview_from_given_lowercase_forms() {
    let text = "A\nB\nC";
    let lowered = vec!["x".to_string(), "needle".to_string(), "y".to_string()];
    assert_eq!(preview_from_lowered(text, "needle", &lowered), "B");
    assert_eq!(preview_from_lowered(text, "", &lowered), "B");
    assert_eq!(preview_from_lowered("only", "zzz", &lowered), "…");
}
