//! Keyboard shortcuts of the popup and the editor.
use vstd::prelude::*;
use crate::text::chars_of;

verus! {

/// A key as the shortcut logic sees it.
pub enum KeyInput {
    Escape,
    ArrowLeft,
    ArrowRight,
    /// A key that produces text, with that text.
    Character(String),
    /// Any other key.
    Other,
}

/// What a shortcut asks for.
#[derive(PartialEq, Eq, Structural, Clone, Copy, Debug)]
pub enum Shortcut {
    /// Close the search view, or else the popup.
    Escape,
    /// Open or close the search view.
    ToggleSearch,
    /// Create a new note.
    NewNote,
    /// Move to the previous note.
    PrevNote,
    /// Move to the next note.
    NextNote,
    /// Copy the active note.
    CopyAll,
}

/// Whether `k` is the character key producing exactly `a` or `b`.
pub open spec fn is_char_key(k: KeyInput, a: char, b: char) -> bool {
    match k {
        KeyInput::Character(s) => s@ == seq![a] || s@ == seq![b],
        _ => false,
    }
}

/// The shortcut for a key pressed with the command (Ctrl), shift and Alt
/// modifiers as given: Escape alone; with the command modifier `f`/`k`
/// (search), `n` (new note), `[` or Left (previous), `]` or Right (next);
/// with Alt, Left (previous) and Right (next); and `c` with both command
/// and shift (copy). Letters in either case.
pub open spec fn shortcut_spec(k: KeyInput, command: bool, shift: bool, alt: bool) -> Option<Shortcut> {
    if k is Escape {
        Some(Shortcut::Escape)
    } else if command && (is_char_key(k, 'f', 'F') || is_char_key(k, 'k', 'K')) {
        Some(Shortcut::ToggleSearch)
    } else if command && is_char_key(k, 'n', 'N') {
        Some(Shortcut::NewNote)
    } else if (command && (is_char_key(k, '[', '[') || k is ArrowLeft)) || (alt && k is ArrowLeft) {
        Some(Shortcut::PrevNote)
    } else if (command && (is_char_key(k, ']', ']') || k is ArrowRight)) || (alt && k is ArrowRight) {
        Some(Shortcut::NextNote)
    } else if command && shift && is_char_key(k, 'c', 'C') {
        Some(Shortcut::CopyAll)
    } else {
        None
    }
}

fn char_key_is(k: &KeyInput, a: char, b: char) -> (r: bool)
    ensures
        r == is_char_key(*k, a, b),
{
    match k {
        KeyInput::Character(s) => {
            let v = chars_of(s.as_str());
            let r = v.len() == 1 && (v[0] == a || v[0] == b);
            proof {
                if v@ == seq![a] || v@ == seq![b] {
                    assert(v@[0] == a || v@[0] == b);
                }
                if r {
                    if v[0] == a {
                        assert(v@ =~= seq![a]);
                    } else {
                        assert(v@ =~= seq![b]);
                    }
                }
            }
            r
        },
        _ => false,
    }
}

/// The shortcut for a key pressed with the given modifiers, if any (the
/// popup's key listener and the editor's key bindings both use it; the
/// editor handles any other key itself).
pub fn shortcut_for(k: &KeyInput, command: bool, shift: bool, alt: bool) -> (r: Option<Shortcut>)
    ensures
        r == shortcut_spec(*k, command, shift, alt),
{
    let is_escape = match k {
        KeyInput::Escape => true,
        _ => false,
    };
    let is_left = match k {
        KeyInput::ArrowLeft => true,
        _ => false,
    };
    let is_right = match k {
        KeyInput::ArrowRight => true,
        _ => false,
    };
    if is_escape {
        Some(Shortcut::Escape)
    } else if command && (char_key_is(k, 'f', 'F') || char_key_is(k, 'k', 'K')) {
        Some(Shortcut::ToggleSearch)
    } else if command && char_key_is(k, 'n', 'N') {
        Some(Shortcut::NewNote)
    } else if (command && (char_key_is(k, '[', '[') || is_left)) || (alt && is_left) {
        Some(Shortcut::PrevNote)
    } else if (command && (char_key_is(k, ']', ']') || is_right)) || (alt && is_right) {
        Some(Shortcut::NextNote)
    } else if command && shift && char_key_is(k, 'c', 'C') {
        Some(Shortcut::CopyAll)
    } else {
        None
    }
}

/// Each shortcut of the README's table is bound as listed, whatever other
/// modifiers are held: with the command modifier `f`, `F`, `k` or `K`
/// toggles the search, `n` or `N` creates a note, `[` and Left go to the
/// previous note, `]` and Right to the next; with command and shift `c` or
/// `C` copies; Alt with Left or Right switches notes too; Escape always
/// escapes. A character key without the command modifier is no shortcut.
pub proof fn law_shortcut_table(s: String, shift: bool, alt: bool, command: bool)
    ensures
        (s@ == seq!['f'] || s@ == seq!['F'] || s@ == seq!['k'] || s@ == seq!['K'])
            ==> shortcut_spec(KeyInput::Character(s), true, shift, alt) == Some(Shortcut::ToggleSearch),
        (s@ == seq!['n'] || s@ == seq!['N']) ==> shortcut_spec(KeyInput::Character(s), true, shift, alt)
            == Some(Shortcut::NewNote),
        s@ == seq!['['] ==> shortcut_spec(KeyInput::Character(s), true, shift, alt) == Some(
            Shortcut::PrevNote,
        ),
        s@ == seq![']'] ==> shortcut_spec(KeyInput::Character(s), true, shift, alt) == Some(
            Shortcut::NextNote,
        ),
        (s@ == seq!['c'] || s@ == seq!['C']) ==> shortcut_spec(KeyInput::Character(s), true, true, alt)
            == Some(Shortcut::CopyAll),
        shortcut_spec(KeyInput::Character(s), false, shift, alt) is None,
        shortcut_spec(KeyInput::ArrowLeft, true, shift, alt) == Some(Shortcut::PrevNote),
        shortcut_spec(KeyInput::ArrowRight, true, shift, alt) == Some(Shortcut::NextNote),
        shortcut_spec(KeyInput::ArrowLeft, command, shift, true) == Some(Shortcut::PrevNote),
        shortcut_spec(KeyInput::ArrowRight, command, shift, true) == Some(Shortcut::NextNote),
        shortcut_spec(KeyInput::Escape, command, shift, alt) == Some(Shortcut::Escape),
        shortcut_spec(KeyInput::Other, command, shift, alt) is None,
{
    let keys = seq!['f', 'F', 'k', 'K', 'n', 'N', '[', ']', 'c', 'C'];
    assert forall|i: int, j: int|
        0 <= i < keys.len() && 0 <= j < keys.len() && i != j implies seq![keys[i]] != seq![keys[j]] by {
        assert(seq![keys[i]][0] != seq![keys[j]][0]);
    }
}

} // verus!
