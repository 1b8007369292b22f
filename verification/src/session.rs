//! The applet's session: the open notes, which one is active, the search
//! view, the undo buffer of a deleted note and the popup. Each method is
//! one decision of the applet: it takes what happened, updates the session
//! and says what the caller has to do (save a note, delete a file, ...).
use vstd::prelude::*;
use crate::storage::{derive_title, derive_title_spec, FileTime};
use crate::text::{
    all_ws, chars_of, contains_chars, contains_seq, decimal, lowercase, push_char, push_decimal,
    push_str,
    range_all_ws, string_from_range, to_lowercase, trim, trim_range,
};
use crate::ui::{count_words_and_chars, counts_spec};

verus! {

/// How long after the last edit a pending save is carried out, in
/// milliseconds (the debounce delay less a margin of 50 ms).
pub const SAVE_AFTER_EDIT_MILLIS: u64 = 350;

// ---------------------------------------------------------------------
// Notes
// ---------------------------------------------------------------------

/// One open note.
pub struct NoteEntry {
    pub path: String,
    pub file_name: String,
    pub title: String,
    pub text: String,
    pub words: usize,
    pub chars: usize,
    /// When the note was last edited (milliseconds of a monotonic clock),
    /// while a save is pending.
    pub last_edit_ms: Option<u64>,
    /// The modification time of the file when it was last read or written.
    pub last_mtime: Option<FileTime>,
    /// Whether the text on disk is the text shown.
    pub saved: bool,
}

/// The mathematical model of a note.
#[verifier::ext_equal]
pub struct NoteModel {
    pub path: Seq<char>,
    pub file_name: Seq<char>,
    pub title: Seq<char>,
    pub text: Seq<char>,
    pub words: nat,
    pub chars: nat,
    pub last_edit_ms: Option<u64>,
    pub last_mtime: Option<FileTime>,
    pub saved: bool,
}

impl NoteModel {
    /// A note just read from disk: title and counts derived from its text,
    /// nothing pending.
    pub open spec fn fresh(
        path: Seq<char>,
        file_name: Seq<char>,
        text: Seq<char>,
        last_mtime: Option<FileTime>,
        fallback: Seq<char>,
    ) -> NoteModel {
        NoteModel {
            path,
            file_name,
            title: derive_title_spec(text, fallback),
            text,
            words: counts_spec(text).0,
            chars: counts_spec(text).1,
            last_edit_ms: None,
            last_mtime,
            saved: true,
        }
    }

    /// The note with new text: title and counts derived again.
    pub open spec fn with_text(self, text: Seq<char>, fallback: Seq<char>) -> NoteModel {
        NoteModel {
            title: derive_title_spec(text, fallback),
            text,
            words: counts_spec(text).0,
            chars: counts_spec(text).1,
            ..self
        }
    }
}

impl NoteEntry {
    pub open spec fn model(&self) -> NoteModel {
        NoteModel {
            path: self.path@,
            file_name: self.file_name@,
            title: self.title@,
            text: self.text@,
            words: self.words as nat,
            chars: self.chars as nat,
            last_edit_ms: self.last_edit_ms,
            last_mtime: self.last_mtime,
            saved: self.saved,
        }
    }

    /// A note just read from disk, its title derived with `fallback`.
    pub fn loaded(
        path: String,
        file_name: String,
        text: String,
        last_mtime: Option<FileTime>,
        fallback: &str,
    ) -> (n: NoteEntry)
        ensures
            n.model() == NoteModel::fresh(path@, file_name@, text@, last_mtime, fallback@),
    {
        let title = derive_title(text.as_str(), fallback);
        let (words, chars) = count_words_and_chars(text.as_str());
        NoteEntry {
            path,
            file_name,
            title,
            text,
            words,
            chars,
            last_edit_ms: None,
            last_mtime,
            saved: true,
        }
    }

    fn set_text(&mut self, text: String, fallback: &str)
        ensures
            final(self).model() == old(self).model().with_text(text@, fallback@),
    {
        self.title = derive_title(text.as_str(), fallback);
        let (words, chars) = count_words_and_chars(text.as_str());
        self.words = words;
        self.chars = chars;
        self.text = text;
    }
}

/// The characters of an optional string.
pub open spec fn opt_view(o: Option<String>) -> Option<Seq<char>> {
    match o {
        Some(s) => Some(s@),
        None => None,
    }
}

/// The models of a list of notes.
pub open spec fn note_models(notes: Seq<NoteEntry>) -> Seq<NoteModel> {
    notes.map_values(|n: NoteEntry| n.model())
}

proof fn lemma_models_update(notes: Seq<NoteEntry>, i: int, n: NoteEntry)
    requires
        0 <= i < notes.len(),
    ensures
        note_models(notes.update(i, n)) == note_models(notes).update(i, n.model()),
{
    assert(note_models(notes.update(i, n)) =~= note_models(notes).update(i, n.model()));
}

proof fn lemma_models_push(notes: Seq<NoteEntry>, n: NoteEntry)
    ensures
        note_models(notes.push(n)) == note_models(notes).push(n.model()),
{
    assert(note_models(notes.push(n)) =~= note_models(notes).push(n.model()));
}

proof fn lemma_models_remove(notes: Seq<NoteEntry>, i: int)
    requires
        0 <= i < notes.len(),
    ensures
        note_models(notes.remove(i)) == note_models(notes).remove(i),
{
    assert(note_models(notes.remove(i)) =~= note_models(notes).remove(i));
}

// ---------------------------------------------------------------------
// Search filter
// ---------------------------------------------------------------------

/// The indices `i < k`, ascending, whose lowercase title or lowercase text
/// contains `q`.
pub open spec fn matching_upto(
    q: Seq<char>,
    titles: Seq<Seq<char>>,
    texts: Seq<Seq<char>>,
    k: nat,
) -> Seq<usize>
    decreases k,
{
    if k == 0 {
        Seq::empty()
    } else {
        let r = matching_upto(q, titles, texts, (k - 1) as nat);
        if contains_seq(titles[k - 1], q) || contains_seq(texts[k - 1], q) {
            r.push((k - 1) as usize)
        } else {
            r
        }
    }
}

/// Every index `0..n`.
pub open spec fn all_indices(n: nat) -> Seq<usize> {
    Seq::new(n, |i: int| i as usize)
}

/// The notes listed by the search view for `query`: every note when the
/// trimmed query is empty, else those whose title or text contains it,
/// ignoring case; in note order.
pub open spec fn filter_spec(notes: Seq<NoteModel>, query: Seq<char>) -> Seq<usize> {
    let q = lowercase(trim(query));
    if q.len() == 0 {
        all_indices(notes.len())
    } else {
        matching_upto(
            q,
            notes.map_values(|n: NoteModel| lowercase(n.title)),
            notes.map_values(|n: NoteModel| lowercase(n.text)),
            notes.len(),
        )
    }
}

proof fn lemma_matching_bounds(q: Seq<char>, titles: Seq<Seq<char>>, texts: Seq<Seq<char>>, k: nat)
    ensures
        forall|i: int|
            0 <= i < matching_upto(q, titles, texts, k).len() ==> (#[trigger] matching_upto(
                q,
                titles,
                texts,
                k,
            )[i] as int) < k,
    decreases k,
{
    if k > 0 {
        lemma_matching_bounds(q, titles, texts, (k - 1) as nat);
        let r = matching_upto(q, titles, texts, (k - 1) as nat);
        let m = matching_upto(q, titles, texts, k);
        assert forall|i: int| 0 <= i < m.len() implies (#[trigger] m[i] as int) < k by {
            if i < r.len() {
                assert(m[i] == r[i]);
            }
        }
    }
}

/// The filter lists only notes that exist, each once and in note order.
pub proof fn lemma_filter_bounds(notes: Seq<NoteModel>, query: Seq<char>)
    requires
        notes.len() <= usize::MAX,
    ensures
        forall|i: int|
            0 <= i < filter_spec(notes, query).len() ==> (#[trigger] filter_spec(notes, query)[i]
                as int) < notes.len(),
        forall|a: int, b: int|
            0 <= a < b < filter_spec(notes, query).len() ==> #[trigger] filter_spec(notes, query)[a]
                < #[trigger] filter_spec(notes, query)[b],
{
    let q = lowercase(trim(query));
    let titles = notes.map_values(|n: NoteModel| lowercase(n.title));
    let texts = notes.map_values(|n: NoteModel| lowercase(n.text));
    lemma_matching_bounds(q, titles, texts, notes.len());
    if q.len() == 0 {
        let all = all_indices(notes.len());
        assert forall|a: int, b: int| 0 <= a < b < all.len() implies #[trigger] all[a]
            < #[trigger] all[b] by {
            assert(all[a] == a as usize);
            assert(all[b] == b as usize);
        }
    } else {
        lemma_matching_members(q, titles, texts, notes.len(), 0);
    }
}

/// The indices of the notes whose lowercase title or lowercase text (given
/// note by note) contains the lowercase query `query_lower`, ascending.
pub fn matching_indices(query_lower: &str, titles_lower: &Vec<String>, texts_lower: &Vec<String>) -> (r:
    Vec<usize>)
    requires
        titles_lower.len() == texts_lower.len(),
    ensures
        r@ == matching_upto(
            query_lower@,
            titles_lower@.map_values(|s: String| s@),
            texts_lower@.map_values(|s: String| s@),
            titles_lower.len() as nat,
        ),
{
    let q = chars_of(query_lower);
    let ghost titles = titles_lower@.map_values(|s: String| s@);
    let ghost texts = texts_lower@.map_values(|s: String| s@);
    let mut r: Vec<usize> = Vec::new();
    let mut k: usize = 0;
    while k < titles_lower.len()
        invariant
            k <= titles_lower.len(),
            titles_lower.len() == texts_lower.len(),
            q@ == query_lower@,
            titles == titles_lower@.map_values(|s: String| s@),
            texts == texts_lower@.map_values(|s: String| s@),
            r@ == matching_upto(q@, titles, texts, k as nat),
        decreases titles_lower.len() - k,
    {
        let t = chars_of(titles_lower[k].as_str());
        let x = chars_of(texts_lower[k].as_str());
        assert(titles[k as int] == t@);
        assert(texts[k as int] == x@);
        if contains_chars(&t, &q) || contains_chars(&x, &q) {
            r.push(k);
        }
        k += 1;
    }
    r
}

// ---------------------------------------------------------------------
// The session model
// ---------------------------------------------------------------------

/// The mathematical model of the session.
#[verifier::ext_equal]
pub struct SessionModel {
    pub notes: Seq<NoteModel>,
    pub active: nat,
    pub popup: Option<u64>,
    pub copied_recently: bool,
    pub copy_generation: u64,
    pub show_settings: bool,
    pub undo_generation: u64,
    /// The generation, path and text of the last deleted note.
    pub undo: Option<(u64, Seq<char>, Seq<char>)>,
    pub searching: bool,
    pub query: Seq<char>,
    pub filtered: Seq<usize>,
    pub active_tab: nat,
    pub active_file: Option<Seq<char>>,
    pub wrap_lines: bool,
}

/// `g + 1`, wrapping to 0 after `u64::MAX`.
pub open spec fn next_generation(g: u64) -> u64 {
    if g == u64::MAX {
        0
    } else {
        (g + 1) as u64
    }
}

/// The note after `a` among `len` notes, wrapping around to the first.
pub open spec fn next_index(len: nat, a: nat) -> nat {
    if a + 1 >= len {
        0
    } else {
        a + 1
    }
}

/// The note before `a` among `len` notes, wrapping around to the last.
pub open spec fn prev_index(len: nat, a: nat) -> nat {
    if a == 0 {
        (len - 1) as nat
    } else {
        (a - 1) as nat
    }
}

/// The first note whose file is at `path`, searching from `k`.
pub open spec fn index_of_path(notes: Seq<NoteModel>, path: Seq<char>, k: nat) -> Option<nat>
    decreases notes.len() - k,
{
    if k >= notes.len() {
        None
    } else if notes[k as int].path == path {
        Some(k)
    } else {
        index_of_path(notes, path, k + 1)
    }
}

/// The first note whose file is named `name`, searching from `k`.
pub open spec fn index_of_file(notes: Seq<NoteModel>, name: Seq<char>, k: nat) -> Option<nat>
    decreases notes.len() - k,
{
    if k >= notes.len() {
        None
    } else if notes[k as int].file_name == name {
        Some(k)
    } else {
        index_of_file(notes, name, k + 1)
    }
}

/// The note active when the applet starts: the one whose file was active
/// last time (the first note when it is gone), or else the remembered tab,
/// capped to the last note.
pub open spec fn initial_active(
    notes: Seq<NoteModel>,
    active_tab: nat,
    active_file: Option<Seq<char>>,
) -> nat {
    match active_file {
        Some(f) => match index_of_file(notes, f, 0) {
            Some(p) => p,
            None => 0,
        },
        None => if notes.len() == 0 {
            0
        } else if active_tab < notes.len() {
            active_tab
        } else {
            (notes.len() - 1) as nat
        },
    }
}

/// The first of `items`, from index `k` on, equal to `q`.
pub open spec fn first_equal(q: Seq<char>, items: Seq<Seq<char>>, k: nat) -> Option<nat>
    decreases items.len() - k,
{
    if k >= items.len() {
        None
    } else if items[k as int] == q {
        Some(k)
    } else {
        first_equal(q, items, k + 1)
    }
}

proof fn lemma_first_equal_bound(q: Seq<char>, items: Seq<Seq<char>>, k: nat)
    ensures
        first_equal(q, items, k) matches Some(p) ==> k <= p < items.len() && items[p as int] == q
            && forall|j: int| k <= j < p ==> items[j] != q,
        first_equal(q, items, k) is None ==> forall|j: int| k <= j < items.len() ==> items[j] != q,
    decreases items.len() - k,
{
    if k < items.len() && items[k as int] != q {
        lemma_first_equal_bound(q, items, k + 1);
    }
}

/// The first note whose lowercase title equals `q`.
pub open spec fn index_of_title(notes: Seq<NoteModel>, q: Seq<char>) -> Option<nat> {
    first_equal(q, notes.map_values(|n: NoteModel| lowercase(n.title)), 0)
}

/// The index of the first of the lowercase titles `titles_lower` equal to
/// the lowercase query `query_lower`.
pub fn position_of_title(query_lower: &str, titles_lower: &Vec<String>) -> (r: Option<usize>)
    ensures
        match first_equal(query_lower@, titles_lower@.map_values(|s: String| s@), 0) {
            Some(p) => r == Some(p as usize),
            None => r is None,
        },
{
    let ghost items = titles_lower@.map_values(|s: String| s@);
    let q = query_lower.to_owned();
    let mut k: usize = 0;
    while k < titles_lower.len()
        invariant
            k <= titles_lower.len(),
            q@ == query_lower@,
            items == titles_lower@.map_values(|s: String| s@),
            first_equal(query_lower@, items, 0) == first_equal(query_lower@, items, k as nat),
        decreases titles_lower.len() - k,
    {
        assert(items[k as int] == titles_lower@[k as int]@);
        if titles_lower[k] == q {
            return Some(k);
        }
        k += 1;
    }
    None
}

impl SessionModel {
    /// The session's invariant: the notes fit in memory, the active note
    /// exists (or there is no note and it is 0), the search lists only
    /// existing notes, each once and in note order, and the remembered tab
    /// and file are those of the active note.
    pub open spec fn wf(self) -> bool {
        &&& self.notes.len() <= usize::MAX
        &&& (self.notes.len() == 0 ==> self.active == 0)
        &&& (self.notes.len() > 0 ==> self.active < self.notes.len())
        &&& forall|i: int|
            0 <= i < self.filtered.len() ==> (#[trigger] self.filtered[i] as int)
                < self.notes.len()
        &&& forall|a: int, b: int|
            0 <= a < b < self.filtered.len() ==> #[trigger] self.filtered[a]
                < #[trigger] self.filtered[b]
        &&& self.active_tab == self.active
        &&& self.active_file == self.file_at(self.active)
    }

    /// The file name of note `i`, if there is one.
    pub open spec fn file_at(self, i: nat) -> Option<Seq<char>> {
        if i < self.notes.len() {
            Some(self.notes[i as int].file_name)
        } else {
            None
        }
    }

    /// Note `i` becomes active, and is remembered as the active tab and file.
    pub open spec fn focus(self, i: nat) -> SessionModel {
        SessionModel { active: i, active_tab: i, active_file: self.file_at(i), ..self }
    }

    /// The search list computed again.
    pub open spec fn refiltered(self) -> SessionModel {
        SessionModel { filtered: filter_spec(self.notes, self.query), ..self }
    }

    /// Whether note `i` exists and has unsaved changes.
    pub open spec fn save_due(self, i: int) -> bool {
        0 <= i < self.notes.len() && !self.notes[i].saved
    }

    /// The session after a save of note `i` is started: the note counts as
    /// saved and no edit is pending. Nothing changes when no save is due.
    pub open spec fn after_save(self, i: int) -> SessionModel {
        if self.save_due(i) {
            SessionModel {
                notes: self.notes.update(
                    i,
                    NoteModel { saved: true, last_edit_ms: None, ..self.notes[i] },
                ),
                ..self
            }
        } else {
            self
        }
    }

    /// The session after selecting note `t`: when `t` is another existing
    /// note it becomes active, the search view closes and the previously
    /// active note is saved.
    pub open spec fn after_select(self, t: int) -> SessionModel {
        if 0 <= t < self.notes.len() && t != self.active {
            SessionModel { searching: false, ..self.focus(t as nat) }.after_save(
                self.active as int,
            )
        } else {
            self
        }
    }

    /// The session after the popup closes: it is gone and the active note
    /// is saved.
    pub open spec fn after_close(self) -> SessionModel {
        SessionModel { popup: None, ..self }.after_save(self.active as int)
    }

    /// The session after the active note is deleted: it leaves the list,
    /// its path and text are kept for undo under a new generation, and the
    /// note at the same position (or the last one) becomes active.
    pub open spec fn after_delete(self) -> SessionModel {
        if self.notes.len() == 0 {
            self
        } else {
            let a = self.active;
            let n = self.notes[a as int];
            let g = next_generation(self.undo_generation);
            let notes = self.notes.remove(a as int);
            let active = if notes.len() == 0 {
                0
            } else if a < notes.len() {
                a
            } else {
                (notes.len() - 1) as nat
            };
            SessionModel {
                notes,
                undo_generation: g,
                undo: Some((g, n.path, n.text)),
                ..self
            }.focus(active).refiltered()
        }
    }

    /// The session after a note is added at the end of the list: the active
    /// note stays where it was, or becomes the new note when the list was
    /// empty.
    pub open spec fn after_replacement(self, n: NoteModel) -> SessionModel {
        let notes = self.notes.push(n);
        let active = if self.active < notes.len() {
            self.active
        } else {
            (notes.len() - 1) as nat
        };
        SessionModel { notes, ..self }.focus(active).refiltered()
    }

    /// The session after a new note is created: it is added at the end and
    /// becomes active, and the search view closes with its query cleared.
    pub open spec fn after_create(self, n: NoteModel) -> SessionModel {
        SessionModel {
            notes: self.notes.push(n),
            searching: false,
            query: Seq::empty(),
            ..self
        }.focus(self.notes.len()).refiltered()
    }

    /// The session after a deleted note `n` is restored: it replaces the
    /// note with the same path, or else a lone empty saved note, or else it
    /// is added at the end; in each case it becomes active.
    pub open spec fn after_restore(self, n: NoteModel) -> SessionModel {
        match index_of_path(self.notes, n.path, 0) {
            Some(pos) => SessionModel {
                notes: self.notes.update(pos as int, n),
                ..self
            }.focus(pos).refiltered(),
            None => if self.replaces_lone_empty_note() {
                SessionModel { notes: self.notes.update(0, n), ..self }.focus(0).refiltered()
            } else {
                SessionModel { notes: self.notes.push(n), ..self }.focus(
                    self.notes.len(),
                ).refiltered()
            },
        }
    }

    /// The session after note `i` was found changed on disk: when it is a
    /// saved note it takes the new text, title and counts and the new
    /// modification time.
    pub open spec fn after_reload(
        self,
        i: int,
        text: Seq<char>,
        mtime: FileTime,
        fallback: Seq<char>,
    ) -> SessionModel {
        if 0 <= i < self.notes.len() && self.notes[i].saved {
            SessionModel {
                notes: self.notes.update(
                    i,
                    NoteModel { last_mtime: Some(mtime), ..self.notes[i].with_text(text, fallback) },
                ),
                ..self
            }
        } else {
            self
        }
    }

    /// The session after the active note was edited to `text` at `now_ms`:
    /// it takes the text, title and counts, and a save becomes pending.
    pub open spec fn after_edit(self, text: Seq<char>, now_ms: u64, fallback: Seq<char>) -> SessionModel {
        if self.active < self.notes.len() {
            let a = self.active as int;
            SessionModel {
                notes: self.notes.update(
                    a,
                    NoteModel {
                        saved: false,
                        last_edit_ms: Some(now_ms),
                        ..self.notes[a].with_text(text, fallback)
                    },
                ),
                ..self
            }
        } else {
            self
        }
    }

    /// Whether the pending save of note `i` is due at `now_ms`: its last
    /// edit is at least [`SAVE_AFTER_EDIT_MILLIS`] old.
    pub open spec fn debounce_due(self, i: int, now_ms: u64) -> bool {
        &&& 0 <= i < self.notes.len()
        &&& self.notes[i].last_edit_ms matches Some(t)
        &&& t <= now_ms
        &&& now_ms - t >= SAVE_AFTER_EDIT_MILLIS
    }

    /// The text of the active note, empty when there is none.
    pub open spec fn active_text(self) -> Seq<char> {
        if self.active < self.notes.len() {
            self.notes[self.active as int].text
        } else {
            Seq::empty()
        }
    }

    /// The note that submitting the search selects: with an empty trimmed
    /// query the first listed note; else the first note whose title equals
    /// the query ignoring case, or failing that the first listed note.
    pub open spec fn submit_target(self) -> Option<int> {
        let q = trim(self.query);
        if q.len() == 0 {
            if self.filtered.len() > 0 {
                Some(self.filtered[0] as int)
            } else {
                None
            }
        } else {
            match index_of_title(self.notes, lowercase(q)) {
                Some(p) => Some(p as int),
                None => if self.filtered.len() > 0 {
                    Some(self.filtered[0] as int)
                } else {
                    None
                },
            }
        }
    }

    /// Whether submitting the search creates a note titled with the query:
    /// it has text and neither a title nor any listed note matches.
    pub open spec fn submit_creates(self) -> bool {
        trim(self.query).len() > 0 && self.submit_target() is None
    }

    /// The session after the search is submitted.
    pub open spec fn after_submit(self) -> SessionModel {
        match self.submit_target() {
            Some(t) => self.after_select(t),
            None => if trim(self.query).len() == 0 {
                SessionModel { searching: false, ..self }
            } else {
                self
            },
        }
    }

    /// The session after the undo banner of `generation` times out: the
    /// undo buffer is cleared only when it holds that deletion.
    pub open spec fn after_dismiss(self, generation: u64) -> SessionModel {
        if self.undo matches Some(u) && u.0 == generation {
            SessionModel { undo: None, ..self }
        } else {
            self
        }
    }

    /// The session after the "copied" mark of `generation` times out: it is
    /// cleared only when no later copy happened.
    pub open spec fn after_copy_reset(self, generation: u64) -> SessionModel {
        if self.copy_generation == generation {
            SessionModel { copied_recently: false, ..self }
        } else {
            self
        }
    }

    /// The session after a copy: the mark is shown under a new generation.
    pub open spec fn after_copy(self) -> SessionModel {
        SessionModel {
            copied_recently: true,
            copy_generation: next_generation(self.copy_generation),
            ..self
        }
    }

    /// The session after moving to the previous note, wrapping from the
    /// first to the last; unchanged with fewer than two notes.
    pub open spec fn after_prev(self) -> SessionModel {
        if self.notes.len() > 1 {
            self.after_select(prev_index(self.notes.len(), self.active) as int)
        } else {
            self
        }
    }

    /// The session after moving to the next note, wrapping from the last
    /// to the first; unchanged with fewer than two notes.
    pub open spec fn after_next(self) -> SessionModel {
        if self.notes.len() > 1 {
            self.after_select(next_index(self.notes.len(), self.active) as int)
        } else {
            self
        }
    }

    /// The session after the panel button is pressed: an open popup
    /// closes; otherwise nothing changes until the popup is opened.
    pub open spec fn after_toggle_popup(self) -> SessionModel {
        if self.popup is Some {
            self.after_close()
        } else {
            self
        }
    }

    /// The session after popup `id` opened: the search list is computed
    /// afresh.
    pub open spec fn after_popup_opened(self, id: u64) -> SessionModel {
        SessionModel { popup: Some(id), ..self }.refiltered()
    }

    /// The session after the window system asked to close window `id`: the
    /// popup closes when it is that window.
    pub open spec fn after_close_request(self, id: u64) -> SessionModel {
        if self.popup == Some(id) {
            self.after_close()
        } else {
            self
        }
    }

    /// The session after Escape: the search view closes with its query
    /// cleared, or else an open popup closes.
    pub open spec fn after_escape(self) -> SessionModel {
        if self.searching {
            SessionModel { searching: false, query: Seq::empty(), ..self }
        } else {
            self.after_toggle_popup()
        }
    }

    /// The session after the undo buffer is taken.
    pub open spec fn after_take_undo(self) -> SessionModel {
        SessionModel { undo: None, ..self }
    }

    /// The session after the search view is opened (with the list
    /// computed afresh) or closed.
    pub open spec fn after_toggle_search(self) -> SessionModel {
        if self.searching {
            SessionModel { searching: false, ..self }
        } else {
            SessionModel { searching: true, ..self }.refiltered()
        }
    }

    /// The session after the search query became `query`.
    pub open spec fn after_search_input(self, query: Seq<char>) -> SessionModel {
        SessionModel { query, ..self }.refiltered()
    }

    /// The session after the debounce delay of an edit to note `i` ran
    /// out at `now_ms`: the note is saved when the save is due.
    pub open spec fn after_debounce(self, i: int, now_ms: u64) -> SessionModel {
        if self.debounce_due(i, now_ms) {
            self.after_save(i)
        } else {
            self
        }
    }

    /// The session after a save of note `i` finished, with the file's new
    /// modification time when it could be read.
    pub open spec fn after_note_saved(self, i: int, mtime: Option<FileTime>) -> SessionModel {
        if 0 <= i < self.notes.len() && mtime is Some {
            SessionModel {
                notes: self.notes.update(i, NoteModel { last_mtime: mtime, ..self.notes[i] }),
                ..self
            }
        } else {
            self
        }
    }

    /// The session after the settings drawer is opened or closed.
    pub open spec fn after_toggle_settings(self) -> SessionModel {
        SessionModel { show_settings: !self.show_settings, ..self }
    }

    /// The session after line wrapping is turned on or off.
    pub open spec fn after_toggle_wrap(self) -> SessionModel {
        SessionModel { wrap_lines: !self.wrap_lines, ..self }
    }

    /// Whether the session holds a single note, saved and empty.
    pub open spec fn replaces_lone_empty_note(self) -> bool {
        self.notes.len() == 1 && all_ws(self.notes[0].text) && self.notes[0].saved
    }

    /// The file that a restore makes obsolete: that of the lone empty note
    /// it replaces, when its path differs.
    pub open spec fn restore_removes(self, path: Seq<char>) -> Option<Seq<char>> {
        if index_of_path(self.notes, path, 0) is None && self.replaces_lone_empty_note()
            && self.notes[0].path != path {
            Some(self.notes[0].path)
        } else {
            None
        }
    }
}

/// A save to start: write `text` to the file at `path` for note `index`.
pub struct SaveRequest {
    pub index: usize,
    pub path: String,
    pub text: String,
}

/// Whether `r` is the save of note `i` of `m` (when one is due).
pub open spec fn is_save_of(r: Option<SaveRequest>, m: SessionModel, i: int) -> bool {
    match r {
        Some(req) => m.save_due(i) && req.index == i && req.path@ == m.notes[i].path && req.text@
            == m.notes[i].text,
        None => !m.save_due(i),
    }
}

/// Whether `r` is what selecting note `t` in `m` asks to save: when `t` is
/// another existing note, the save of the note left (see [`is_save_of`]);
/// else nothing.
pub open spec fn is_select_save(r: Option<SaveRequest>, m: SessionModel, t: int) -> bool {
    if 0 <= t < m.notes.len() && t != m.active {
        is_save_of(r, m, m.active as int)
    } else {
        r is None
    }
}

/// The popup to close and the save that goes with closing it.
pub struct PopupClose {
    pub popup: u64,
    pub save: Option<SaveRequest>,
}

/// What toggling the popup asks for.
pub enum PopupToggle {
    /// Close the popup.
    Close(PopupClose),
    /// Open a popup; first reload the saved notes changed on disk.
    Open,
}

/// What submitting the search asks for.
pub enum SubmitOutcome {
    /// A note was selected, maybe with a save of the one left.
    Selected(Option<SaveRequest>),
    /// No note matches: create one with this title.
    CreateNote(String),
    /// Nothing to do.
    Unchanged,
}

/// A deleted note: its file to move to the trash, the generation of its
/// undo entry, and whether it was the last note, so that a fresh empty
/// note is to be created in its place (see
/// [`Session::replacement_created`]).
pub struct DeletedNote {
    pub path: String,
    pub generation: u64,
    pub needs_replacement: bool,
}

// ---------------------------------------------------------------------
// The session
// ---------------------------------------------------------------------

/// The applet's session.
pub struct Session {
    notes: Vec<NoteEntry>,
    active: usize,
    popup: Option<u64>,
    copied_recently: bool,
    copy_generation: u64,
    show_settings: bool,
    undo_generation: u64,
    undo: Option<(u64, String, String)>,
    searching: bool,
    query: String,
    filtered: Vec<usize>,
    active_tab: usize,
    active_file: Option<String>,
    wrap_lines: bool,
}

impl View for Session {
    type V = SessionModel;

    closed spec fn view(&self) -> SessionModel {
        SessionModel {
            notes: note_models(self.notes@),
            active: self.active as nat,
            popup: self.popup,
            copied_recently: self.copied_recently,
            copy_generation: self.copy_generation,
            show_settings: self.show_settings,
            undo_generation: self.undo_generation,
            undo: match self.undo {
                Some((g, p, t)) => Some((g, p@, t@)),
                None => None,
            },
            searching: self.searching,
            query: self.query@,
            filtered: self.filtered@,
            active_tab: self.active_tab as nat,
            active_file: opt_view(self.active_file),
            wrap_lines: self.wrap_lines,
        }
    }
}

impl Session {
    /// The session at start-up over the loaded `notes`, with the tab, file
    /// and line wrapping remembered in the configuration.
    pub fn new(
        notes: Vec<NoteEntry>,
        active_tab: usize,
        active_file: Option<String>,
        wrap_lines: bool,
    ) -> (s: Session)
        ensures
            s@.wf(),
            s@ == (SessionModel {
                notes: note_models(notes@),
                active: 0,
                popup: None,
                copied_recently: false,
                copy_generation: 0,
                show_settings: false,
                undo_generation: 0,
                undo: None,
                searching: false,
                query: Seq::empty(),
                filtered: all_indices(notes.len() as nat),
                active_tab: 0,
                active_file: None,
                wrap_lines,
            }).focus(
                initial_active(note_models(notes@), active_tab as nat, opt_view(active_file)),
            ),
    {
        let ghost models = note_models(notes@);
        let ghost want = initial_active(models, active_tab as nat, opt_view(active_file));
        let len: usize = notes.len();
        let active: usize = match &active_file {
            Some(f) => {
                let mut k: usize = 0;
                let mut found: usize = 0;
                while k < len
                    invariant_except_break
                        found == 0,
                    invariant
                        k <= len,
                        len == notes.len(),
                        models == note_models(notes@),
                        index_of_file(models, f@, 0) == index_of_file(models, f@, k as nat),
                    ensures
                        found as nat == (match index_of_file(models, f@, 0) {
                            Some(p) => p,
                            None => 0,
                        }),
                    decreases len - k,
                {
                    if notes[k].file_name == *f {
                        found = k;
                        break ;
                    }
                    k += 1;
                }
                found
            },
            None => {
                if len == 0 {
                    0
                } else if active_tab < len {
                    active_tab
                } else {
                    len - 1
                }
            },
        };
        assert(active as nat == want);
        proof {
            if len > 0 && active_file is Some {
                lemma_index_of_file_bound(models, active_file->0@, 0);
            }
        }
        let active_name = if active < len {
            Some(notes[active].file_name.clone())
        } else {
            None
        };
        let mut filtered: Vec<usize> = Vec::new();
        let mut k: usize = 0;
        while k < len
            invariant
                k <= len,
                filtered@ == all_indices(k as nat),
            decreases len - k,
        {
            filtered.push(k);
            assert(filtered@ =~= all_indices((k + 1) as nat));
            k += 1;
        }
        let s = Session {
            notes,
            active,
            popup: None,
            copied_recently: false,
            copy_generation: 0,
            show_settings: false,
            undo_generation: 0,
            undo: None,
            searching: false,
            query: String::new(),
            filtered,
            active_tab: active,
            active_file: active_name,
            wrap_lines,
        };
        assert(s@.query =~= Seq::<char>::empty());
        s
    }
}

proof fn lemma_index_of_file_bound(notes: Seq<NoteModel>, name: Seq<char>, k: nat)
    ensures
        index_of_file(notes, name, k) matches Some(p) ==> k <= p < notes.len() && notes[p as int].file_name == name,
    decreases notes.len() - k,
{
    if k < notes.len() && notes[k as int].file_name != name {
        lemma_index_of_file_bound(notes, name, k + 1);
    }
}

impl Session {
    // -----------------------------------------------------------------
    // Reading the session
    // -----------------------------------------------------------------

    /// The number of open notes.
    pub fn note_count(&self) -> (r: usize)
        ensures
            r == self@.notes.len(),
    {
        self.notes.len()
    }

    /// Whether the session holds no note, so that a fresh empty note is to
    /// be created (see [`Session::replacement_created`]).
    pub fn needs_replacement(&self) -> (r: bool)
        ensures
            r == (self@.notes.len() == 0),
    {
        self.notes.len() == 0
    }

    /// The index of the active note.
    pub fn active_index(&self) -> (r: usize)
        ensures
            r == self@.active,
    {
        self.active
    }

    /// Note `i`.
    pub fn note(&self, i: usize) -> (r: &NoteEntry)
        requires
            i < self@.notes.len(),
        ensures
            r.model() == self@.notes[i as int],
    {
        &self.notes[i]
    }

    /// The notes listed by the search view.
    pub fn filtered_indices(&self) -> (r: &Vec<usize>)
        ensures
            r@ == self@.filtered,
    {
        &self.filtered
    }

    /// Whether the search view is shown.
    pub fn is_searching(&self) -> (r: bool)
        ensures
            r == self@.searching,
    {
        self.searching
    }

    /// The search query as typed.
    pub fn search_query(&self) -> (r: &str)
        ensures
            r@ == self@.query,
    {
        self.query.as_str()
    }

    /// Whether a deleted note can be restored.
    pub fn undo_pending(&self) -> (r: bool)
        ensures
            r == self@.undo is Some,
    {
        self.undo.is_some()
    }

    /// Whether the copy button shows that the note was just copied.
    pub fn copied_recently(&self) -> (r: bool)
        ensures
            r == self@.copied_recently,
    {
        self.copied_recently
    }

    /// Whether the settings drawer is open.
    pub fn show_settings(&self) -> (r: bool)
        ensures
            r == self@.show_settings,
    {
        self.show_settings
    }

    /// Whether long lines wrap.
    pub fn wrap_lines(&self) -> (r: bool)
        ensures
            r == self@.wrap_lines,
    {
        self.wrap_lines
    }

    /// The open popup, if any.
    pub fn popup(&self) -> (r: Option<u64>)
        ensures
            r == self@.popup,
    {
        self.popup
    }

    /// The tab to remember in the configuration.
    pub fn active_tab(&self) -> (r: usize)
        ensures
            r == self@.active_tab,
    {
        self.active_tab
    }

    /// The file name to remember in the configuration.
    pub fn active_file(&self) -> (r: Option<String>)
        ensures
            opt_view(r) == self@.active_file,
    {
        match &self.active_file {
            Some(f) => Some(f.clone()),
            None => None,
        }
    }

    // -----------------------------------------------------------------
    // Internal steps
    // -----------------------------------------------------------------

    fn set_focus(&mut self, i: usize)
        ensures
            final(self)@ == old(self)@.focus(i as nat),
    {
        self.active = i;
        self.active_tab = i;
        self.active_file = if i < self.notes.len() {
            Some(self.notes[i].file_name.clone())
        } else {
            None
        };
        assert(self@ =~= old(self)@.focus(i as nat));
    }

    fn trimmed_query(&self) -> (r: String)
        ensures
            r@ == trim(self@.query),
    {
        let qv = chars_of(self.query.as_str());
        let (a, b) = trim_range(&qv, 0, qv.len());
        assert(qv@.subrange(0, qv.len() as int) =~= qv@);
        string_from_range(&qv, a, b)
    }

    fn refilter(&mut self)
        ensures
            final(self)@ == old(self)@.refiltered(),
            final(self)@.notes.len() <= usize::MAX,
    {
        let qs = self.trimmed_query();
        let q = to_lowercase(qs.as_str());
        let len: usize = self.notes.len();
        let ghost notes = self@.notes;
        if q.as_str().is_empty() {
            let mut filtered: Vec<usize> = Vec::new();
            let mut k: usize = 0;
            while k < len
                invariant
                    k <= len,
                    filtered@ == all_indices(k as nat),
                decreases len - k,
            {
                filtered.push(k);
                assert(filtered@ =~= all_indices((k + 1) as nat));
                k += 1;
            }
            self.filtered = filtered;
        } else {
            let mut titles: Vec<String> = Vec::new();
            let mut texts: Vec<String> = Vec::new();
            let mut k: usize = 0;
            while k < len
                invariant
                    k <= len,
                    len == self.notes.len(),
                    notes == note_models(self.notes@),
                    titles.len() == k,
                    texts.len() == k,
                    forall|j: int|
                        0 <= j < k ==> #[trigger] titles@[j]@ == lowercase(notes[j].title),
                    forall|j: int| 0 <= j < k ==> #[trigger] texts@[j]@ == lowercase(notes[j].text),
                decreases len - k,
            {
                titles.push(to_lowercase(self.notes[k].title.as_str()));
                texts.push(to_lowercase(self.notes[k].text.as_str()));
                k += 1;
            }
            assert(titles@.map_values(|s: String| s@) =~= notes.map_values(
                |n: NoteModel| lowercase(n.title),
            ));
            assert(texts@.map_values(|s: String| s@) =~= notes.map_values(
                |n: NoteModel| lowercase(n.text),
            ));
            self.filtered = matching_indices(q.as_str(), &titles, &texts);
        }
        assert(self@ =~= old(self)@.refiltered());
    }

    fn mark_saved(&mut self, i: usize) -> (r: Option<SaveRequest>)
        ensures
            final(self)@ == old(self)@.after_save(i as int),
            is_save_of(r, old(self)@, i as int),
    {
        if i < self.notes.len() && !self.notes[i].saved {
            let ghost old_notes = self.notes@;
            let mut n = self.notes.remove(i);
            n.saved = true;
            n.last_edit_ms = None;
            let req = SaveRequest { index: i, path: n.path.clone(), text: n.text.clone() };
            self.notes.insert(i, n);
            proof {
                assert(self.notes@ =~= old_notes.update(i as int, n));
                lemma_models_update(old_notes, i as int, n);
            }
            assert(self@ =~= old(self)@.after_save(i as int));
            Some(req)
        } else {
            None
        }
    }

    // -----------------------------------------------------------------
    // Moving between notes
    // -----------------------------------------------------------------

    /// Selects note `target`: when it is another existing note it becomes
    /// active, the search view closes and the note left is saved (the save
    /// to start is returned).
    pub fn select_note(&mut self, target: usize) -> (r: Option<SaveRequest>)
        requires
            old(self)@.wf(),
        ensures
            final(self)@.wf(),
            final(self)@ == old(self)@.after_select(target as int),
            is_select_save(r, old(self)@, target as int),
    {
        if target < self.notes.len() && target != self.active {
            let prev: usize = self.active;
            self.set_focus(target);
            self.searching = false;
            let ghost mid = self@;
            let r = self.mark_saved(prev);
            assert(mid =~= SessionModel { searching: false, ..old(self)@.focus(target as nat) });
            r
        } else {
            None
        }
    }

    /// Moves to the previous note, wrapping from the first to the last;
    /// nothing happens with fewer than two notes.
    pub fn prev_note(&mut self) -> (r: Option<SaveRequest>)
        requires
            old(self)@.wf(),
        ensures
            final(self)@.wf(),
            final(self)@ == old(self)@.after_prev(),
            old(self)@.notes.len() > 1 ==> is_save_of(r, old(self)@, old(self)@.active as int),
            old(self)@.notes.len() <= 1 ==> r is None,
    {
        if self.notes.len() > 1 {
            let target: usize = if self.active == 0 {
                self.notes.len() - 1
            } else {
                self.active - 1
            };
            self.select_note(target)
        } else {
            None
        }
    }

    /// Moves to the next note, wrapping from the last to the first;
    /// nothing happens with fewer than two notes.
    pub fn next_note(&mut self) -> (r: Option<SaveRequest>)
        requires
            old(self)@.wf(),
        ensures
            final(self)@.wf(),
            final(self)@ == old(self)@.after_next(),
            old(self)@.notes.len() > 1 ==> is_save_of(r, old(self)@, old(self)@.active as int),
            old(self)@.notes.len() <= 1 ==> r is None,
    {
        if self.notes.len() > 1 {
            let target: usize = if self.active + 1 >= self.notes.len() {
                0
            } else {
                self.active + 1
            };
            self.select_note(target)
        } else {
            None
        }
    }
}

impl Session {
    // -----------------------------------------------------------------
    // The popup
    // -----------------------------------------------------------------

    fn close_popup(&mut self, p: u64) -> (r: PopupClose)
        requires
            old(self)@.wf(),
            old(self)@.popup == Some(p),
        ensures
            final(self)@.wf(),
            final(self)@ == old(self)@.after_close(),
            r.popup == p,
            is_save_of(r.save, old(self)@, old(self)@.active as int),
    {
        self.popup = None;
        let a: usize = self.active;
        let save = self.mark_saved(a);
        PopupClose { popup: p, save }
    }

    /// The panel button was pressed: an open popup closes, with a save of
    /// the active note; otherwise a popup is to be opened (the session does
    /// not change until [`Session::popup_opened`]).
    pub fn toggle_popup(&mut self) -> (r: PopupToggle)
        requires
            old(self)@.wf(),
        ensures
            final(self)@.wf(),
            final(self)@ == old(self)@.after_toggle_popup(),
            match old(self)@.popup {
                Some(p) => {
                    &&& r matches PopupToggle::Close(c) && c.popup == p && is_save_of(
                        c.save,
                        old(self)@,
                        old(self)@.active as int,
                    )
                },
                None => r is Open,
            },
    {
        match self.popup {
            Some(p) => PopupToggle::Close(self.close_popup(p)),
            None => PopupToggle::Open,
        }
    }

    /// The popup `id` is open: the search list is computed afresh.
    pub fn popup_opened(&mut self, id: u64)
        requires
            old(self)@.wf(),
        ensures
            final(self)@.wf(),
            final(self)@ == old(self)@.after_popup_opened(id),
    {
        self.popup = Some(id);
        self.refilter();
        proof {
            lemma_filter_bounds(self@.notes, self@.query);
        }
    }

    /// The window system asks to close window `id`: when it is the popup,
    /// it closes with a save of the active note.
    pub fn close_requested(&mut self, id: u64) -> (r: Option<PopupClose>)
        requires
            old(self)@.wf(),
        ensures
            final(self)@.wf(),
            final(self)@ == old(self)@.after_close_request(id),
            old(self)@.popup == Some(id) ==> (r matches Some(c) && c.popup == id && is_save_of(
                c.save,
                old(self)@,
                old(self)@.active as int,
            )),
            old(self)@.popup != Some(id) ==> r is None,
    {
        if self.popup == Some(id) {
            Some(self.close_popup(id))
        } else {
            None
        }
    }

    /// Escape was pressed: the search view closes and its query is
    /// cleared; else an open popup closes, with a save of the active note.
    pub fn escape_pressed(&mut self) -> (r: Option<PopupClose>)
        requires
            old(self)@.wf(),
        ensures
            final(self)@.wf(),
            final(self)@ == old(self)@.after_escape(),
            old(self)@.searching ==> r is None,
            !old(self)@.searching && old(self)@.popup is Some ==> (r matches Some(c)
                && old(self)@.popup == Some(c.popup) && is_save_of(
                c.save,
                old(self)@,
                old(self)@.active as int,
            )),
            !old(self)@.searching && old(self)@.popup is None ==> r is None,
    {
        if self.searching {
            self.searching = false;
            self.query = String::new();
            assert(self@ =~= SessionModel { searching: false, query: Seq::empty(), ..old(self)@ });
            return None;
        }
        match self.popup {
            Some(p) => Some(self.close_popup(p)),
            None => None,
        }
    }

    /// Whether note `i` is to be checked for changes on disk when the popup
    /// opens (it is saved); then its path and last seen modification time.
    pub fn reload_check(&self, i: usize) -> (r: Option<(String, Option<FileTime>)>)
        ensures
            r is Some <==> i < self@.notes.len() && self@.notes[i as int].saved,
            r matches Some(x) ==> x.0@ == self@.notes[i as int].path && x.1 == self@.notes[i as int].last_mtime,
    {
        if i < self.notes.len() && self.notes[i].saved {
            Some((self.notes[i].path.clone(), self.notes[i].last_mtime))
        } else {
            None
        }
    }

    /// Note `i` was found changed on disk, with `text` and modification
    /// time `mtime`; `fallback` is its title when no line has text.
    pub fn reload_note(&mut self, i: usize, text: String, mtime: FileTime, fallback: &str)
        requires
            old(self)@.wf(),
        ensures
            final(self)@.wf(),
            final(self)@ == old(self)@.after_reload(i as int, text@, mtime, fallback@),
    {
        if i < self.notes.len() && self.notes[i].saved {
            let ghost old_notes = self.notes@;
            let mut n = self.notes.remove(i);
            n.set_text(text, fallback);
            n.last_mtime = Some(mtime);
            self.notes.insert(i, n);
            proof {
                assert(self.notes@ =~= old_notes.update(i as int, n));
                lemma_models_update(old_notes, i as int, n);
            }
            assert(self@ =~= old(self)@.after_reload(i as int, text@, mtime, fallback@));
        }
    }

    // -----------------------------------------------------------------
    // Creating, deleting and restoring notes
    // -----------------------------------------------------------------

    /// A new note is requested: the active note is saved first.
    pub fn new_note_requested(&mut self) -> (r: Option<SaveRequest>)
        requires
            old(self)@.wf(),
        ensures
            final(self)@.wf(),
            final(self)@ == old(self)@.after_save(old(self)@.active as int),
            is_save_of(r, old(self)@, old(self)@.active as int),
    {
        let a: usize = self.active;
        self.mark_saved(a)
    }

    /// A new note was created on disk: it is added and becomes active, and
    /// the search view closes with its query cleared.
    pub fn note_created(
        &mut self,
        path: String,
        file_name: String,
        text: String,
        mtime: Option<FileTime>,
        fallback: &str,
    )
        requires
            old(self)@.wf(),
        ensures
            final(self)@.wf(),
            final(self)@ == old(self)@.after_create(
                NoteModel::fresh(path@, file_name@, text@, mtime, fallback@),
            ),
    {
        let n = NoteEntry::loaded(path, file_name, text, mtime, fallback);
        let ghost old_notes = self.notes@;
        self.notes.push(n);
        proof {
            lemma_models_push(old_notes, n);
        }
        self.searching = false;
        self.query = String::new();
        let last: usize = self.notes.len() - 1;
        self.set_focus(last);
        self.refilter();
        proof {
            lemma_filter_bounds(self@.notes, self@.query);
        }
        assert(self@ =~= old(self)@.after_create(
            NoteModel::fresh(path@, file_name@, text@, mtime, fallback@),
        ));
    }

    /// Deletes the active note: it leaves the list and is kept for undo
    /// under a new generation; the note at the same position (or the last)
    /// becomes active. Returns the file to move to the trash and the undo
    /// generation; nothing happens when there is no note.
    pub fn delete_active_note(&mut self) -> (r: Option<DeletedNote>)
        requires
            old(self)@.wf(),
        ensures
            final(self)@.wf(),
            final(self)@ == old(self)@.after_delete(),
            r is Some <==> old(self)@.notes.len() > 0,
            r matches Some(d) ==> d.path@ == old(self)@.notes[old(self)@.active as int].path
                && d.generation == final(self)@.undo_generation
                && d.needs_replacement == (final(self)@.notes.len() == 0),
    {
        if self.notes.len() == 0 {
            return None;
        }
        let a: usize = self.active;
        let ghost old_notes = self.notes@;
        let n = self.notes.remove(a);
        proof {
            lemma_models_remove(old_notes, a as int);
        }
        let g: u64 = if self.undo_generation == u64::MAX {
            0
        } else {
            self.undo_generation + 1
        };
        self.undo_generation = g;
        let path = n.path.clone();
        self.undo = Some((g, n.path, n.text));
        let len: usize = self.notes.len();
        let active: usize = if len == 0 {
            0
        } else if a < len {
            a
        } else {
            len - 1
        };
        self.set_focus(active);
        self.refilter();
        proof {
            lemma_filter_bounds(self@.notes, self@.query);
        }
        assert(self@ =~= old(self)@.after_delete());
        Some(DeletedNote { path, generation: g, needs_replacement: len == 0 })
    }

    /// After the last note was deleted, a fresh empty note was created on
    /// disk in its place: it is added, titled `fallback`.
    pub fn replacement_created(
        &mut self,
        path: String,
        file_name: String,
        mtime: Option<FileTime>,
        fallback: &str,
    )
        requires
            old(self)@.wf(),
        ensures
            final(self)@.wf(),
            final(self)@ == old(self)@.after_replacement(
                NoteModel::fresh(path@, file_name@, Seq::empty(), mtime, fallback@),
            ),
    {
        let n = NoteEntry::loaded(path, file_name, String::new(), mtime, fallback);
        let ghost old_notes = self.notes@;
        self.notes.push(n);
        proof {
            lemma_models_push(old_notes, n);
        }
        let len: usize = self.notes.len();
        let active: usize = if self.active < len {
            self.active
        } else {
            len - 1
        };
        self.set_focus(active);
        self.refilter();
        proof {
            lemma_filter_bounds(self@.notes, self@.query);
        }
        assert(self@ =~= old(self)@.after_replacement(
            NoteModel::fresh(path@, file_name@, Seq::empty(), mtime, fallback@),
        ));
    }

    /// Takes the deleted note out of the undo buffer: its path and text, to
    /// be written back to disk and then given to [`Session::restore_note`].
    pub fn take_undo(&mut self) -> (r: Option<(String, String)>)
        requires
            old(self)@.wf(),
        ensures
            final(self)@.wf(),
            final(self)@ == old(self)@.after_take_undo(),
            match old(self)@.undo {
                Some(u) => r matches Some(x) && x.0@ == u.1 && x.1@ == u.2,
                None => r is None,
            },
    {
        let u = self.undo.take();
        assert(self@ =~= SessionModel { undo: None, ..old(self)@ });
        match u {
            Some((_, p, t)) => Some((p, t)),
            None => None,
        }
    }

    /// A deleted note was written back to `path`: it returns to the list
    /// (see [`SessionModel::after_restore`]) and becomes active. Returns
    /// the file of the lone empty note it replaces, to remove from disk.
    pub fn restore_note(
        &mut self,
        path: String,
        file_name: String,
        text: String,
        mtime: Option<FileTime>,
        fallback: &str,
    ) -> (r: Option<String>)
        requires
            old(self)@.wf(),
        ensures
            final(self)@.wf(),
            final(self)@ == old(self)@.after_restore(
                NoteModel::fresh(path@, file_name@, text@, mtime, fallback@),
            ),
            opt_view(r) == old(self)@.restore_removes(path@),
    {
        let ghost m = NoteModel::fresh(path@, file_name@, text@, mtime, fallback@);
        let ghost models = self@.notes;
        let len: usize = self.notes.len();
        let mut k: usize = 0;
        let mut found: Option<usize> = None;
        while k < len
            invariant_except_break
                found is None,
            invariant
                k <= len,
                len == self.notes.len(),
                models == note_models(self.notes@),
                index_of_path(models, path@, 0) == index_of_path(models, path@, k as nat),
            ensures
                match found {
                    Some(p) => index_of_path(models, path@, 0) == Some(p as nat) && p < len,
                    None => index_of_path(models, path@, 0) is None,
                },
            decreases len - k,
        {
            if self.notes[k].path == path {
                found = Some(k);
                break ;
            }
            k += 1;
        }
        let lone_empty: bool = if len == 1 {
            let v = chars_of(self.notes[0].text.as_str());
            assert(v@.subrange(0, v.len() as int) =~= v@);
            range_all_ws(&v, 0, v.len()) && self.notes[0].saved
        } else {
            false
        };
        let n = NoteEntry::loaded(path, file_name, text, mtime, fallback);
        let ghost old_notes = self.notes@;
        let removed: Option<String>;
        match found {
            Some(pos) => {
                self.notes.set(pos, n);
                proof {
                    lemma_models_update(old_notes, pos as int, n);
                }
                self.set_focus(pos);
                removed = None;
            },
            None => {
                if lone_empty {
                    removed = if self.notes[0].path != n.path {
                        Some(self.notes[0].path.clone())
                    } else {
                        None
                    };
                    self.notes.set(0, n);
                    proof {
                        lemma_models_update(old_notes, 0, n);
                    }
                    self.set_focus(0);
                } else {
                    self.notes.push(n);
                    proof {
                        lemma_models_push(old_notes, n);
                    }
                    self.set_focus(len);
                    removed = None;
                }
            },
        }
        self.refilter();
        proof {
            lemma_filter_bounds(self@.notes, self@.query);
        }
        assert(self@ =~= old(self)@.after_restore(m));
        removed
    }

    /// The undo banner of generation `generation` times out: the undo
    /// buffer is cleared when it still holds that deletion, and kept when a
    /// later deletion replaced it.
    pub fn dismiss_undo_banner(&mut self, generation: u64)
        requires
            old(self)@.wf(),
        ensures
            final(self)@.wf(),
            final(self)@ == old(self)@.after_dismiss(generation),
    {
        let clear = match &self.undo {
            Some((g, _, _)) => *g == generation,
            None => false,
        };
        if clear {
            self.undo = None;
            assert(self@ =~= SessionModel { undo: None, ..old(self)@ });
        }
    }
}

impl Session {
    // -----------------------------------------------------------------
    // Search
    // -----------------------------------------------------------------

    /// Opens or closes the search view; when it opens the list is
    /// computed afresh and `true` is returned (the input gets the focus).
    pub fn toggle_search(&mut self) -> (r: bool)
        requires
            old(self)@.wf(),
        ensures
            final(self)@.wf(),
            r == !old(self)@.searching,
            final(self)@ == old(self)@.after_toggle_search(),
    {
        self.searching = !self.searching;
        if self.searching {
            self.refilter();
            proof {
                lemma_filter_bounds(self@.notes, self@.query);
            }
        }
        self.searching
    }

    /// The search query changed: the list is computed afresh.
    pub fn search_input_changed(&mut self, query: String)
        requires
            old(self)@.wf(),
        ensures
            final(self)@.wf(),
            final(self)@ == old(self)@.after_search_input(query@),
            final(self)@.filtered == filter_spec(old(self)@.notes, query@),
    {
        self.query = query;
        self.refilter();
        proof {
            lemma_filter_bounds(self@.notes, self@.query);
        }
    }

    /// The search was submitted (Enter): selects the matching note, or asks
    /// for a new note titled with the query when nothing matches.
    pub fn submit_search(&mut self) -> (r: SubmitOutcome)
        requires
            old(self)@.wf(),
        ensures
            final(self)@.wf(),
            final(self)@ == old(self)@.after_submit(),
            old(self)@.submit_target() matches Some(t) ==> (r matches SubmitOutcome::Selected(
                sv,
            ) && is_select_save(sv, old(self)@, t)),
            old(self)@.submit_creates() ==> (r matches SubmitOutcome::CreateNote(title)
                && title@ == trim(old(self)@.query)),
            old(self)@.submit_target() is None && !old(self)@.submit_creates() ==> r is Unchanged,
    {
        let qs = self.trimmed_query();
        if qs.as_str().is_empty() {
            if self.filtered.len() > 0 {
                let t: usize = self.filtered[0];
                return SubmitOutcome::Selected(self.select_note(t));
            }
            self.searching = false;
            assert(self@ =~= SessionModel { searching: false, ..old(self)@ });
            return SubmitOutcome::Unchanged;
        }
        let ql = to_lowercase(qs.as_str());
        let mut titles: Vec<String> = Vec::new();
        let mut k: usize = 0;
        let ghost notes = self@.notes;
        while k < self.notes.len()
            invariant
                k <= self.notes.len(),
                notes == note_models(self.notes@),
                titles.len() == k,
                forall|j: int| 0 <= j < k ==> #[trigger] titles@[j]@ == lowercase(notes[j].title),
            decreases self.notes.len() - k,
        {
            titles.push(to_lowercase(self.notes[k].title.as_str()));
            k += 1;
        }
        assert(titles@.map_values(|s: String| s@) =~= notes.map_values(
            |n: NoteModel| lowercase(n.title),
        ));
        let found = position_of_title(ql.as_str(), &titles);
        assert(index_of_title(notes, lowercase(trim(old(self)@.query))) == first_equal(
            ql@,
            titles@.map_values(|s: String| s@),
            0,
        ));
        proof {
            lemma_first_equal_bound(ql@, titles@.map_values(|s: String| s@), 0);
        }
        match found {
            Some(p) => SubmitOutcome::Selected(self.select_note(p)),
            None => {
                if self.filtered.len() > 0 {
                    let t: usize = self.filtered[0];
                    SubmitOutcome::Selected(self.select_note(t))
                } else {
                    SubmitOutcome::CreateNote(qs)
                }
            },
        }
    }

    // -----------------------------------------------------------------
    // Editing and saving
    // -----------------------------------------------------------------

    /// The active note was edited to `text` at `now_ms`: it takes the new
    /// text, title and counts and a save becomes pending. Returns the note
    /// whose save is to be checked after the debounce delay.
    pub fn note_edited(&mut self, text: String, now_ms: u64, fallback: &str) -> (r: usize)
        requires
            old(self)@.wf(),
        ensures
            final(self)@.wf(),
            final(self)@ == old(self)@.after_edit(text@, now_ms, fallback@),
            r == old(self)@.active,
    {
        let a: usize = self.active;
        if a < self.notes.len() {
            let ghost old_notes = self.notes@;
            let mut n = self.notes.remove(a);
            n.set_text(text, fallback);
            n.saved = false;
            n.last_edit_ms = Some(now_ms);
            self.notes.insert(a, n);
            proof {
                assert(self.notes@ =~= old_notes.update(a as int, n));
                lemma_models_update(old_notes, a as int, n);
            }
            assert(self@ =~= old(self)@.after_edit(text@, now_ms, fallback@));
        }
        a
    }

    /// The debounce delay of an edit to note `index` ran out at `now_ms`:
    /// when no later edit came since, the note is saved.
    pub fn debounce_timeout(&mut self, index: usize, now_ms: u64) -> (r: Option<SaveRequest>)
        requires
            old(self)@.wf(),
        ensures
            final(self)@.wf(),
            final(self)@ == old(self)@.after_debounce(index as int, now_ms),
            r is Some ==> old(self)@.debounce_due(index as int, now_ms),
            old(self)@.debounce_due(index as int, now_ms) ==> is_save_of(r, old(self)@, index as int),
    {
        if index < self.notes.len() {
            if let Some(t) = self.notes[index].last_edit_ms {
                if t <= now_ms && now_ms - t >= SAVE_AFTER_EDIT_MILLIS {
                    return self.mark_saved(index);
                }
            }
        }
        None
    }

    /// A save of note `index` finished; `mtime` is the file's new
    /// modification time when it could be read.
    pub fn note_saved(&mut self, index: usize, mtime: Option<FileTime>)
        requires
            old(self)@.wf(),
        ensures
            final(self)@.wf(),
            final(self)@ == old(self)@.after_note_saved(index as int, mtime),
    {
        if index < self.notes.len() && mtime.is_some() {
            let ghost old_notes = self.notes@;
            let mut n = self.notes.remove(index);
            n.last_mtime = mtime;
            self.notes.insert(index, n);
            proof {
                assert(self.notes@ =~= old_notes.update(index as int, n));
                lemma_models_update(old_notes, index as int, n);
            }
            assert(self@ =~= SessionModel {
                notes: old(self)@.notes.update(
                    index as int,
                    NoteModel { last_mtime: mtime, ..old(self)@.notes[index as int] },
                ),
                ..old(self)@
            });
        }
    }

    // -----------------------------------------------------------------
    // Copying and settings
    // -----------------------------------------------------------------

    /// Copy was requested: returns the text of the active note (empty when
    /// there is none) and the new copy generation, and the copy button shows
    /// that the note was copied.
    pub fn copy_all(&mut self) -> (r: (String, u64))
        requires
            old(self)@.wf(),
        ensures
            final(self)@.wf(),
            final(self)@ == old(self)@.after_copy(),
            r.0@ == old(self)@.active_text(),
            old(self)@.active < old(self)@.notes.len() ==> r.0@ == old(self)@.notes[old(
                self,
            )@.active as int].text,
            old(self)@.notes.len() == 0 ==> r.0@ == Seq::<char>::empty(),
            r.1 == final(self)@.copy_generation,
    {
        let text = if self.active < self.notes.len() {
            self.notes[self.active].text.clone()
        } else {
            String::new()
        };
        self.copied_recently = true;
        self.copy_generation = if self.copy_generation == u64::MAX {
            0
        } else {
            self.copy_generation + 1
        };
        assert(self@ =~= SessionModel {
            copied_recently: true,
            copy_generation: next_generation(old(self)@.copy_generation),
            ..old(self)@
        });
        (text, self.copy_generation)
    }

    /// The "copied" mark of copy generation `generation` times out: it is
    /// cleared unless a later copy happened since.
    pub fn reset_copy_status(&mut self, generation: u64)
        requires
            old(self)@.wf(),
        ensures
            final(self)@.wf(),
            final(self)@ == old(self)@.after_copy_reset(generation),
    {
        if self.copy_generation == generation {
            self.copied_recently = false;
            assert(self@ =~= SessionModel { copied_recently: false, ..old(self)@ });
        }
    }

    /// Opens or closes the settings drawer.
    pub fn toggle_settings(&mut self)
        requires
            old(self)@.wf(),
        ensures
            final(self)@.wf(),
            final(self)@ == old(self)@.after_toggle_settings(),
    {
        self.show_settings = !self.show_settings;
        assert(self@ =~= SessionModel { show_settings: !old(self)@.show_settings, ..old(self)@ });
    }

    /// Turns line wrapping on or off.
    pub fn toggle_wrap_lines(&mut self)
        requires
            old(self)@.wf(),
        ensures
            final(self)@.wf(),
            final(self)@ == old(self)@.after_toggle_wrap(),
    {
        self.wrap_lines = !self.wrap_lines;
        assert(self@ =~= SessionModel { wrap_lines: !old(self)@.wrap_lines, ..old(self)@ });
    }
}

// ---------------------------------------------------------------------
// Laws
// ---------------------------------------------------------------------

/// Moving to the next note and then to the previous one comes back to the
/// note one started from (with two or more notes), and each step makes a
/// different note active.
pub proof fn law_next_then_prev(m: SessionModel)
    requires
        m.wf(),
        m.notes.len() > 1,
    ensures
        ({
            let n = m.after_select(next_index(m.notes.len(), m.active) as int);
            let p = n.after_select(prev_index(n.notes.len(), n.active) as int);
            &&& n.wf()
            &&& n.active != m.active
            &&& n.notes.len() == m.notes.len()
            &&& p.active == m.active
            &&& p.wf()
        }),
{
}

/// Moving to the previous note and then to the next one comes back to the
/// note one started from (with two or more notes).
pub proof fn law_prev_then_next(m: SessionModel)
    requires
        m.wf(),
        m.notes.len() > 1,
    ensures
        ({
            let n = m.after_select(prev_index(m.notes.len(), m.active) as int);
            let p = n.after_select(next_index(n.notes.len(), n.active) as int);
            &&& n.active != m.active
            &&& p.active == m.active
        }),
{
}

/// Selecting an existing note makes it the active note, remembered as the
/// active tab and file.
pub proof fn law_select_makes_active(m: SessionModel, t: int)
    requires
        m.wf(),
        0 <= t < m.notes.len(),
    ensures
        m.after_select(t).active == t,
        m.after_select(t).active_file == Some(m.notes[t].file_name),
        m.after_select(t).wf(),
{
}

/// Once a save of a note has started, no second save of it is due until
/// it is edited again.
pub proof fn law_save_once(m: SessionModel, i: int)
    ensures
        !m.after_save(i).save_due(i),
{
}

proof fn lemma_index_of_path_bound(notes: Seq<NoteModel>, path: Seq<char>, k: nat)
    ensures
        index_of_path(notes, path, k) matches Some(p) ==> k <= p < notes.len()
            && notes[p as int].path == path,
    decreases notes.len() - k,
{
    if k < notes.len() && notes[k as int].path != path {
        lemma_index_of_path_bound(notes, path, k + 1);
    }
}

/// Deleting the active note and undoing the deletion brings the note
/// back: the undo buffer holds its path and text, and once restored from
/// them it is the active note again, with the same path and text.
pub proof fn law_delete_then_undo(
    m: SessionModel,
    file_name: Seq<char>,
    mtime: Option<FileTime>,
    fallback: Seq<char>,
)
    requires
        m.wf(),
        m.notes.len() > 0,
    ensures
        ({
            let d = m.after_delete();
            let gone = m.notes[m.active as int];
            &&& d.wf()
            &&& d.notes.len() == m.notes.len() - 1
            &&& d.undo == Some((d.undo_generation, gone.path, gone.text))
            &&& ({
                let s = SessionModel { undo: None, ..d };
                let r = s.after_restore(
                    NoteModel::fresh(gone.path, file_name, gone.text, mtime, fallback),
                );
                &&& r.active < r.notes.len()
                &&& r.notes[r.active as int].path == gone.path
                &&& r.notes[r.active as int].text == gone.text
                &&& r.wf()
            })
        }),
{
    let d = m.after_delete();
    lemma_filter_bounds(d.notes, d.query);
    let gone = m.notes[m.active as int];
    let s = SessionModel { undo: None, ..d };
    let n = NoteModel::fresh(gone.path, file_name, gone.text, mtime, fallback);
    lemma_index_of_path_bound(s.notes, gone.path, 0);
    let r = s.after_restore(n);
    lemma_filter_bounds(r.notes, r.query);
}

/// A later deletion outlives the banner timeout of an earlier one: after
/// two deletions, the timeout of the first leaves the second restorable.
pub proof fn law_second_delete_survives_first_timeout(m: SessionModel)
    requires
        m.wf(),
        m.notes.len() >= 2,
    ensures
        ({
            let d1 = m.after_delete();
            let d2 = d1.after_delete();
            &&& d2.after_dismiss(d1.undo_generation) == d2
            &&& d2.after_dismiss(d2.undo_generation).undo is None
        }),
{
    let d1 = m.after_delete();
    lemma_filter_bounds(d1.notes, d1.query);
}

/// The "copied" mark lasts until the timeout of the latest copy: the
/// timeout of that copy clears it, the timeout of the copy before does not.
pub proof fn law_copy_mark(m: SessionModel)
    ensures
        m.after_copy().copied_recently,
        !m.after_copy().after_copy_reset(m.after_copy().copy_generation).copied_recently,
        m.after_copy().after_copy().after_copy_reset(m.after_copy().copy_generation)
            == m.after_copy().after_copy(),
{
}

/// Deleting the active note of two or more keeps the view where it was:
/// the note that followed the deleted one becomes active, or, when the
/// last note was deleted, the one before it; the other notes stay in
/// order.
pub proof fn law_delete_keeps_position(m: SessionModel)
    requires
        m.wf(),
        m.notes.len() >= 2,
    ensures
        m.after_delete().notes.len() == m.notes.len() - 1,
        forall|j: int| 0 <= j < m.active ==> m.after_delete().notes[j] == #[trigger] m.notes[j],
        forall|j: int|
            m.active < j < m.notes.len() ==> m.after_delete().notes[j - 1] == #[trigger] m.notes[j],
        m.active < m.notes.len() - 1 ==> m.after_delete().active == m.active,
        m.active == m.notes.len() - 1 ==> m.after_delete().active == m.notes.len() - 2,
{
}

/// Submitting a search that lists at least one note never creates a note:
/// it selects the first note whose title equals the trimmed query ignoring
/// case, and otherwise the first listed note.
pub proof fn law_submit_selects_listed(m: SessionModel)
    requires
        m.wf(),
        m.filtered.len() > 0,
    ensures
        !m.submit_creates(),
        m.after_submit().active < m.notes.len(),
        ({
            let q = lowercase(trim(m.query));
            let t = m.after_submit().active as int;
            &&& (trim(m.query).len() == 0 || forall|j: int|
                0 <= j < m.notes.len() ==> lowercase(#[trigger] m.notes[j].title) != q) ==> t
                == m.filtered[0]
            &&& (trim(m.query).len() > 0 && exists|j: int|
                0 <= j < m.notes.len() && lowercase(#[trigger] m.notes[j].title) == q) ==> (
            lowercase(m.notes[t].title) == q && forall|j: int|
                0 <= j < t ==> lowercase(#[trigger] m.notes[j].title) != q)
            &&& t != m.active ==> !m.after_submit().searching
        }),
{
    let q = lowercase(trim(m.query));
    let titles = m.notes.map_values(|n: NoteModel| lowercase(n.title));
    lemma_first_equal_bound(q, titles, 0);
    assert forall|j: int| 0 <= j < m.notes.len() implies titles[j] == lowercase(
        #[trigger] m.notes[j].title,
    ) by {}
}

/// Copying puts the whole text of the active note on the clipboard.
pub proof fn law_copy_takes_whole_text(m: SessionModel)
    requires
        m.wf(),
        m.notes.len() > 0,
    ensures
        m.active_text() == m.notes[m.active as int].text,
{
}

proof fn lemma_matching_members(
    q: Seq<char>,
    titles: Seq<Seq<char>>,
    texts: Seq<Seq<char>>,
    k: nat,
    i: int,
)
    requires
        k <= titles.len(),
        k <= texts.len(),
        k <= usize::MAX,
    ensures
        0 <= i < k ==> (matching_upto(q, titles, texts, k).contains(i as usize) <==> (
        contains_seq(titles[i], q) || contains_seq(texts[i], q))),
        forall|a: int, b: int|
            0 <= a < b < matching_upto(q, titles, texts, k).len() ==> #[trigger] matching_upto(
                q,
                titles,
                texts,
                k,
            )[a] < #[trigger] matching_upto(q, titles, texts, k)[b],
    decreases k,
{
    if k > 0 {
        lemma_matching_members(q, titles, texts, (k - 1) as nat, i);
        lemma_matching_bounds(q, titles, texts, (k - 1) as nat);
        let r = matching_upto(q, titles, texts, (k - 1) as nat);
        let full = matching_upto(q, titles, texts, k);
        if contains_seq(titles[k - 1], q) || contains_seq(texts[k - 1], q) {
            assert(full == r.push((k - 1) as usize));
            if 0 <= i < k - 1 {
                if r.contains(i as usize) {
                    let j = choose|j: int| 0 <= j < r.len() && r[j] == i as usize;
                    assert(full[j] == i as usize);
                }
                if full.contains(i as usize) {
                    let j = choose|j: int| 0 <= j < full.len() && full[j] == i as usize;
                    if j == r.len() {
                        assert(full[j] == (k - 1) as usize);
                    } else {
                        assert(r[j] == i as usize);
                    }
                }
            } else if i == k - 1 {
                assert(full[r.len() as int] == i as usize);
            }
            assert forall|a: int, b: int| 0 <= a < b < full.len() implies #[trigger] full[a]
                < #[trigger] full[b] by {
                if b == r.len() {
                    assert(full[a] == r[a]);
                    assert((r[a] as int) < k - 1);
                    assert(full[b] == (k - 1) as usize);
                } else {
                    assert(full[a] == r[a]);
                    assert(full[b] == r[b]);
                }
            }
        } else {
            if i == k - 1 {
                if full.contains(i as usize) {
                    let j = choose|j: int| 0 <= j < full.len() && full[j] == i as usize;
                    assert((full[j] as int) < k - 1);
                }
            }
        }
    }
}

/// The search lists exactly the notes whose title or text contains the
/// trimmed query ignoring case (every note for an empty query), each once
/// and in note order.
pub proof fn law_search_lists_matches(notes: Seq<NoteModel>, query: Seq<char>, i: int)
    requires
        0 <= i < notes.len(),
        notes.len() <= usize::MAX,
    ensures
        filter_spec(notes, query).contains(i as usize) <==> (lowercase(trim(query)).len() == 0
            || contains_seq(lowercase(notes[i].title), lowercase(trim(query))) || contains_seq(
            lowercase(notes[i].text),
            lowercase(trim(query)),
        )),
        forall|a: int, b: int|
            0 <= a < b < filter_spec(notes, query).len() ==> #[trigger] filter_spec(notes, query)[a]
                < #[trigger] filter_spec(notes, query)[b],
{
    let q = lowercase(trim(query));
    let titles = notes.map_values(|n: NoteModel| lowercase(n.title));
    let texts = notes.map_values(|n: NoteModel| lowercase(n.text));
    if q.len() == 0 {
        assert(all_indices(notes.len())[i] == i as usize);
        assert forall|a: int, b: int|
            0 <= a < b < all_indices(notes.len()).len() implies #[trigger] all_indices(
            notes.len(),
        )[a] < #[trigger] all_indices(notes.len())[b] by {
            assert(all_indices(notes.len())[a] == a as usize);
            assert(all_indices(notes.len())[b] == b as usize);
        }
    } else {
        lemma_matching_members(q, titles, texts, notes.len(), i);
        assert(titles[i] == lowercase(notes[i].title));
        assert(texts[i] == lowercase(notes[i].text));
    }
}

// ---------------------------------------------------------------------
// Every message
// ---------------------------------------------------------------------

/// What can happen to the session: one variant for each method that
/// changes it, with the method's arguments.
pub enum SessionEvent {
    Select(usize),
    Prev,
    Next,
    TogglePopup,
    PopupOpened(u64),
    CloseRequested(u64),
    Escape,
    Reload { index: usize, text: Seq<char>, modified: FileTime, fallback: Seq<char> },
    NewNoteRequested,
    NoteCreated {
        path: Seq<char>,
        file_name: Seq<char>,
        text: Seq<char>,
        mtime: Option<FileTime>,
        fallback: Seq<char>,
    },
    Delete,
    ReplacementCreated {
        path: Seq<char>,
        file_name: Seq<char>,
        mtime: Option<FileTime>,
        fallback: Seq<char>,
    },
    TakeUndo,
    Restore {
        path: Seq<char>,
        file_name: Seq<char>,
        text: Seq<char>,
        mtime: Option<FileTime>,
        fallback: Seq<char>,
    },
    DismissUndo(u64),
    ToggleSearch,
    SearchInput(Seq<char>),
    Submit,
    Edited { text: Seq<char>, now_ms: u64, fallback: Seq<char> },
    DebounceTimeout { index: usize, now_ms: u64 },
    NoteSaved { index: usize, mtime: Option<FileTime> },
    Copy,
    CopyReset(u64),
    ToggleSettings,
    ToggleWrap,
}

impl SessionModel {
    /// The session after `e`, as the method for `e` leaves it.
    #[verifier::opaque]
    pub open spec fn step(self, e: SessionEvent) -> SessionModel {
        match e {
            SessionEvent::Select(t) => self.after_select(t as int),
            SessionEvent::Prev => self.after_prev(),
            SessionEvent::Next => self.after_next(),
            SessionEvent::TogglePopup => self.after_toggle_popup(),
            SessionEvent::PopupOpened(id) => self.after_popup_opened(id),
            SessionEvent::CloseRequested(id) => self.after_close_request(id),
            SessionEvent::Escape => self.after_escape(),
            SessionEvent::Reload { index, text, modified, fallback } => self.after_reload(
                index as int,
                text,
                modified,
                fallback,
            ),
            SessionEvent::NewNoteRequested => self.after_save(self.active as int),
            SessionEvent::NoteCreated { path, file_name, text, mtime, fallback } => self.after_create(
                NoteModel::fresh(path, file_name, text, mtime, fallback),
            ),
            SessionEvent::Delete => self.after_delete(),
            SessionEvent::ReplacementCreated { path, file_name, mtime, fallback } =>
                self.after_replacement(NoteModel::fresh(path, file_name, Seq::empty(), mtime, fallback)),
            SessionEvent::TakeUndo => self.after_take_undo(),
            SessionEvent::Restore { path, file_name, text, mtime, fallback } => self.after_restore(
                NoteModel::fresh(path, file_name, text, mtime, fallback),
            ),
            SessionEvent::DismissUndo(g) => self.after_dismiss(g),
            SessionEvent::ToggleSearch => self.after_toggle_search(),
            SessionEvent::SearchInput(q) => self.after_search_input(q),
            SessionEvent::Submit => self.after_submit(),
            SessionEvent::Edited { text, now_ms, fallback } => self.after_edit(text, now_ms, fallback),
            SessionEvent::DebounceTimeout { index, now_ms } => self.after_debounce(index as int, now_ms),
            SessionEvent::NoteSaved { index, mtime } => self.after_note_saved(index as int, mtime),
            SessionEvent::Copy => self.after_copy(),
            SessionEvent::CopyReset(g) => self.after_copy_reset(g),
            SessionEvent::ToggleSettings => self.after_toggle_settings(),
            SessionEvent::ToggleWrap => self.after_toggle_wrap(),
        }
    }
}

/// The session after the events `es`, in order.
pub open spec fn run(m: SessionModel, es: Seq<SessionEvent>) -> SessionModel
    decreases es.len(),
{
    if es.len() == 0 {
        m
    } else {
        run(m, es.drop_last()).step(es.last())
    }
}

/// Whether `e` leaves the undo buffer `undo` in place: it is no deletion,
/// does not take the buffer, and is not the timeout of its banner.
pub open spec fn keeps_undo(e: SessionEvent, undo: Option<(u64, Seq<char>, Seq<char>)>) -> bool {
    match e {
        SessionEvent::Delete => false,
        SessionEvent::TakeUndo => false,
        SessionEvent::DismissUndo(g) => !(undo matches Some(u) && u.0 == g),
        _ => true,
    }
}

/// Every message keeps the session's invariant, as long as the notes
/// still fit in memory afterwards.
pub proof fn law_step_keeps_wf(m: SessionModel, e: SessionEvent)
    requires
        m.wf(),
        m.step(e).notes.len() <= usize::MAX,
    ensures
        m.step(e).wf(),
{
    reveal(SessionModel::step);
    let r = m.step(e);
    lemma_filter_bounds(r.notes, r.query);
    match e {
        SessionEvent::Select(t) => {},
        SessionEvent::Prev => {},
        SessionEvent::Next => {},
        SessionEvent::TogglePopup => {},
        SessionEvent::PopupOpened(id) => {},
        SessionEvent::CloseRequested(id) => {},
        SessionEvent::Escape => {},
        SessionEvent::Reload { .. } => {},
        SessionEvent::NewNoteRequested => {},
        SessionEvent::NoteCreated { .. } => {},
        SessionEvent::Delete => {},
        SessionEvent::ReplacementCreated { .. } => {},
        SessionEvent::TakeUndo => {},
        SessionEvent::Restore { path, .. } => {
            lemma_index_of_path_bound(m.notes, path, 0);
        },
        SessionEvent::DismissUndo(g) => {},
        SessionEvent::ToggleSearch => {},
        SessionEvent::SearchInput(q) => {},
        SessionEvent::Submit => {},
        SessionEvent::Edited { .. } => {},
        SessionEvent::DebounceTimeout { .. } => {},
        SessionEvent::NoteSaved { .. } => {},
        SessionEvent::Copy => {},
        SessionEvent::CopyReset(g) => {},
        SessionEvent::ToggleSettings => {},
        SessionEvent::ToggleWrap => {},
    }
}

/// Any sequence of messages keeps the session's invariant, as long as
/// the notes fit in memory after each of them.
pub proof fn law_run_keeps_wf(m: SessionModel, es: Seq<SessionEvent>)
    requires
        m.wf(),
        forall|k: int| 0 < k <= es.len() ==> (#[trigger] run(m, es.take(k))).notes.len() <= usize::MAX,
    ensures
        run(m, es).wf(),
    decreases es.len(),
{
    if es.len() > 0 {
        let front = es.drop_last();
        assert forall|k: int| 0 < k <= front.len() implies (#[trigger] run(m, front.take(k))).notes.len()
            <= usize::MAX by {
            assert(front.take(k) =~= es.take(k));
        }
        law_run_keeps_wf(m, front);
        assert(es.take(es.len() as int) =~= es);
        law_step_keeps_wf(run(m, front), es.last());
    }
}

/// Only a deletion can take the last note away: every other message
/// leaves a session with notes with at least as many notes.
pub proof fn law_only_delete_removes_notes(m: SessionModel, e: SessionEvent)
    requires
        !(e is Delete),
    ensures
        m.step(e).notes.len() >= m.notes.len(),
{
    reveal(SessionModel::step);
    if let SessionEvent::Restore { path, .. } = e {
        lemma_index_of_path_bound(m.notes, path, 0);
    }
}

/// The session as the applet leaves it after `e`: when `e` left no note,
/// the fresh empty note created on disk in its place (at `path`, named
/// `file_name`, titled `fallback`) is added.
pub open spec fn step_with_replacement(
    m: SessionModel,
    e: SessionEvent,
    path: Seq<char>,
    file_name: Seq<char>,
    mtime: Option<FileTime>,
    fallback: Seq<char>,
) -> SessionModel {
    let s = m.step(e);
    if s.notes.len() == 0 {
        s.step(SessionEvent::ReplacementCreated { path, file_name, mtime, fallback })
    } else {
        s
    }
}

/// At least one note always exists: from a session with notes, every
/// message, followed by the replacement of a deleted last note, leaves a
/// session that still has notes and keeps the invariant (as long as the
/// notes still fit in memory).
pub proof fn law_notes_never_run_out(
    m: SessionModel,
    e: SessionEvent,
    path: Seq<char>,
    file_name: Seq<char>,
    mtime: Option<FileTime>,
    fallback: Seq<char>,
)
    requires
        m.wf(),
        m.notes.len() > 0,
        m.step(e).notes.len() < usize::MAX,
    ensures
        step_with_replacement(m, e, path, file_name, mtime, fallback).notes.len() > 0,
        step_with_replacement(m, e, path, file_name, mtime, fallback).wf(),
{
    law_step_keeps_wf(m, e);
    let s = m.step(e);
    let x = SessionEvent::ReplacementCreated { path, file_name, mtime, fallback };
    if s.notes.len() == 0 {
        reveal(SessionModel::step);
        law_step_keeps_wf(s, x);
    }
}

proof fn lemma_step_keeps_undo(m: SessionModel, e: SessionEvent)
    requires
        keeps_undo(e, m.undo),
    ensures
        m.step(e).undo == m.undo,
{
    reveal(SessionModel::step);
    match e {
        SessionEvent::Select(t) => {},
        SessionEvent::Prev => {},
        SessionEvent::Next => {},
        SessionEvent::TogglePopup => {},
        SessionEvent::PopupOpened(id) => {},
        SessionEvent::CloseRequested(id) => {},
        SessionEvent::Escape => {},
        SessionEvent::Reload { .. } => {},
        SessionEvent::NewNoteRequested => {},
        SessionEvent::NoteCreated { .. } => {},
        SessionEvent::Delete => {},
        SessionEvent::ReplacementCreated { .. } => {},
        SessionEvent::TakeUndo => {},
        SessionEvent::Restore { .. } => {},
        SessionEvent::DismissUndo(g) => {},
        SessionEvent::ToggleSearch => {},
        SessionEvent::SearchInput(q) => {},
        SessionEvent::Submit => {},
        SessionEvent::Edited { .. } => {},
        SessionEvent::DebounceTimeout { .. } => {},
        SessionEvent::NoteSaved { .. } => {},
        SessionEvent::Copy => {},
        SessionEvent::CopyReset(g) => {},
        SessionEvent::ToggleSettings => {},
        SessionEvent::ToggleWrap => {},
    }
}

/// The undo buffer outlasts every message but a deletion, taking the
/// buffer, and the timeout of its own banner.
pub proof fn law_undo_survives(m: SessionModel, es: Seq<SessionEvent>)
    requires
        forall|k: int| 0 <= k < es.len() ==> keeps_undo(#[trigger] es[k], m.undo),
    ensures
        run(m, es).undo == m.undo,
    decreases es.len(),
{
    if es.len() > 0 {
        let front = es.drop_last();
        assert forall|k: int| 0 <= k < front.len() implies keeps_undo(#[trigger] front[k], m.undo) by {
            assert(front[k] == es[k]);
        }
        law_undo_survives(m, front);
        lemma_step_keeps_undo(run(m, front), es.last());
    }
}

/// A deleted note can be brought back however many other messages came
/// after the deletion, as long as none of them was another deletion, took
/// the undo buffer, or was the timeout of the deletion's banner: the
/// buffer still holds the note's path and text, and once restored from
/// them the note is the active note, with the same path and text, and the
/// buffer is empty.
pub proof fn law_delete_then_undo_later(
    m: SessionModel,
    es: Seq<SessionEvent>,
    file_name: Seq<char>,
    mtime: Option<FileTime>,
    fallback: Seq<char>,
)
    requires
        m.wf(),
        m.notes.len() > 0,
        forall|k: int| 0 <= k < es.len() ==> keeps_undo(#[trigger] es[k], m.after_delete().undo),
    ensures
        ({
            let gone = m.notes[m.active as int];
            let d = m.after_delete();
            let s = run(d, es);
            &&& s.undo == Some((d.undo_generation, gone.path, gone.text))
            &&& ({
                let r = s.step(SessionEvent::TakeUndo).step(
                    SessionEvent::Restore {
                        path: gone.path,
                        file_name,
                        text: gone.text,
                        mtime,
                        fallback,
                    },
                );
                &&& r.active < r.notes.len()
                &&& r.notes[r.active as int].path == gone.path
                &&& r.notes[r.active as int].text == gone.text
                &&& r.undo is None
            })
        }),
{
    let gone = m.notes[m.active as int];
    let d = m.after_delete();
    reveal(SessionModel::step);
    law_undo_survives(d, es);
    let s = run(d, es).after_take_undo();
    lemma_index_of_path_bound(s.notes, gone.path, 0);
}

// ---------------------------------------------------------------------
// What the popup shows
// ---------------------------------------------------------------------

/// `c` with ASCII capitals lowered, as a code point.
pub open spec fn ascii_fold(c: char) -> u32 {
    if 'A' <= c && c <= 'Z' {
        ((c as u32) + 32) as u32
    } else {
        c as u32
    }
}

/// Whether `a` and `b` are equal ignoring ASCII case.
pub open spec fn eq_ignore_ascii_case(a: Seq<char>, b: Seq<char>) -> bool {
    a.len() == b.len() && forall|i: int| 0 <= i < a.len() ==> #[trigger] ascii_fold(a[i])
        == ascii_fold(b[i])
}

fn fold_char(c: char) -> (r: u32)
    ensures
        r == ascii_fold(c),
{
    if 'A' <= c && c <= 'Z' {
        (c as u32) + 32
    } else {
        c as u32
    }
}

fn chars_eq_ignore_ascii_case(a: &Vec<char>, b: &Vec<char>) -> (r: bool)
    ensures
        r == eq_ignore_ascii_case(a@, b@),
{
    if a.len() != b.len() {
        return false;
    }
    let mut i: usize = 0;
    while i < a.len()
        invariant
            i <= a.len(),
            a.len() == b.len(),
            forall|j: int| 0 <= j < i ==> #[trigger] ascii_fold(a@[j]) == ascii_fold(b@[j]),
        decreases a.len() - i,
    {
        if fold_char(a[i]) != fold_char(b[i]) {
            return false;
        }
        i += 1;
    }
    true
}

/// The label of a search result card: `"<idx+1>/<count> · <words>w"`.
pub open spec fn card_label_spec(idx: nat, count: nat, words: nat) -> Seq<char> {
    decimal(idx + 1) + seq!['/'] + decimal(count) + seq![' ', '·', ' '] + decimal(words) + seq!['w']
}

/// The title line of the editor: `"<active+1>/<count> · <title>"`.
pub open spec fn header_label_spec(active: nat, count: nat, title: Seq<char>) -> Seq<char> {
    decimal(active + 1) + seq!['/'] + decimal(count) + seq![' ', '·', ' '] + title
}

impl SessionModel {
    /// The "create" entry of the search view: the trimmed query, offered
    /// when it has text and no note's title equals it ignoring ASCII case.
    pub open spec fn create_offer(self) -> Option<Seq<char>> {
        let q = trim(self.query);
        if q.len() > 0 && !(exists|i: int|
            0 <= i < self.notes.len() && eq_ignore_ascii_case(#[trigger] self.notes[i].title, q)) {
            Some(q)
        } else {
            None
        }
    }
}

impl Session {
    /// The "create note" entry of the search view, if it is shown: the
    /// trimmed query, when it has text and no title equals it ignoring
    /// ASCII case.
    pub fn create_offer(&self) -> (r: Option<String>)
        ensures
            opt_view(r) == self@.create_offer(),
    {
        let q = self.trimmed_query();
        if q.as_str().is_empty() {
            return None;
        }
        let qc = chars_of(q.as_str());
        let mut k: usize = 0;
        while k < self.notes.len()
            invariant
                k <= self.notes.len(),
                qc@ == trim(self@.query),
                forall|j: int|
                    0 <= j < k ==> !eq_ignore_ascii_case(#[trigger] self@.notes[j].title, qc@),
            decreases self.notes.len() - k,
        {
            let t = chars_of(self.notes[k].title.as_str());
            assert(self@.notes[k as int].title == t@);
            if chars_eq_ignore_ascii_case(&t, &qc) {
                return None;
            }
            k += 1;
        }
        Some(q)
    }

    /// Whether the search view shows its "no results" line: nothing is
    /// listed and the query has no text.
    pub fn shows_no_results(&self) -> (r: bool)
        ensures
            r == (self@.filtered.len() == 0 && trim(self@.query).len() == 0),
    {
        let q = self.trimmed_query();
        self.filtered.len() == 0 && q.as_str().is_empty()
    }

    /// The label of the search result card of note `idx`.
    pub fn card_label(&self, idx: usize) -> (r: String)
        requires
            idx < self@.notes.len(),
        ensures
            r@ == card_label_spec(idx as nat, self@.notes.len(), self@.notes[idx as int].words),
    {
        let mut s = String::new();
        push_decimal(&mut s, idx as u128 + 1);
        push_char(&mut s, '/');
        push_decimal(&mut s, self.notes.len() as u128);
        push_char(&mut s, ' ');
        push_char(&mut s, '·');
        push_char(&mut s, ' ');
        push_decimal(&mut s, self.notes[idx].words as u128);
        push_char(&mut s, 'w');
        assert(s@ =~= card_label_spec(idx as nat, self@.notes.len(), self@.notes[idx as int].words));
        s
    }

    /// The title line of the editor for the active note.
    pub fn header_label(&self) -> (r: String)
        requires
            self@.active < self@.notes.len(),
        ensures
            r@ == header_label_spec(
                self@.active,
                self@.notes.len(),
                self@.notes[self@.active as int].title,
            ),
    {
        let mut s = String::new();
        push_decimal(&mut s, self.active as u128 + 1);
        push_char(&mut s, '/');
        push_decimal(&mut s, self.notes.len() as u128);
        push_char(&mut s, ' ');
        push_char(&mut s, '·');
        push_char(&mut s, ' ');
        push_str(&mut s, self.notes[self.active].title.as_str());
        assert(s@ =~= header_label_spec(
            self@.active,
            self@.notes.len(),
            self@.notes[self@.active as int].title,
        ));
        s
    }
}

} // verus!
