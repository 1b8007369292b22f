use cosmic_ext_applet_scratchpad::config::{default_tab_names, default_wrap_lines};
use cosmic_ext_applet_scratchpad::keys::{shortcut_for, KeyInput, Shortcut};

fn ch(s: &str) -> KeyInput {
    KeyInput::Character(s.to_string())
}

#[test]
fn shortcuts() {
    assert_eq!(shortcut_for(&KeyInput::Escape, false, false, false), Some(Shortcut::Escape));
    assert_eq!(shortcut_for(&ch("f"), true, false, false), Some(Shortcut::ToggleSearch));
    assert_eq!(shortcut_for(&ch("K"), true, true, false), Some(Shortcut::ToggleSearch));
    assert_eq!(shortcut_for(&ch("f"), false, false, false), None);
    assert_eq!(shortcut_for(&ch("N"), true, false, false), Some(Shortcut::NewNote));
    assert_eq!(shortcut_for(&ch("["), true, false, false), Some(Shortcut::PrevNote));
    assert_eq!(shortcut_for(&KeyInput::ArrowLeft, true, false, false), Some(Shortcut::PrevNote));
    assert_eq!(shortcut_for(&KeyInput::ArrowRight, true, false, false), Some(Shortcut::NextNote));
    assert_eq!(shortcut_for(&ch("]"), true, false, false), Some(Shortcut::NextNote));
    assert_eq!(shortcut_for(&ch("C"), true, true, false), Some(Shortcut::CopyAll));
    assert_eq!(shortcut_for(&ch("c"), true, false, false), None);
    assert_eq!(shortcut_for(&ch("ff"), true, false, false), None);
    assert_eq!(shortcut_for(&KeyInput::Other, true, true, false), None);
    assert_eq!(shortcut_for(&KeyInput::ArrowLeft, false, false, false), None);
}

#[test]
fn alt_arrows_switch_notes() {
    assert_eq!(shortcut_for(&KeyInput::ArrowLeft, false, false, true), Some(Shortcut::PrevNote));
    assert_eq!(shortcut_for(&KeyInput::ArrowRight, false, false, true), Some(Shortcut::NextNote));
    assert_eq!(shortcut_for(&ch("["), false, false, true), None);
    assert_eq!(shortcut_for(&ch("n"), false, false, true), None);
    assert_eq!(shortcut_for(&KeyInput::Escape, false, false, true), Some(Shortcut::Escape));
}

#[test]
fn config_defaults() {
    assert!(default_wrap_lines());
    let names = default_tab_names();
    assert_eq!(names, ["Notes".to_string(), "Snippets".to_string(), "Scratch".to_string()]);
}
