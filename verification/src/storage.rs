//! Note storage rules: where notes live, how note files are named, found,
//! ordered and titled. The file system itself is touched by the caller;
//! these functions decide what to read and write.
use vstd::prelude::*;
use crate::text::{
    all_ws, chars_of, decimal, find_line_end, is_ws, strip_cr, strip_leading, trim_end, trim_start, heading_range, lemma_lines_step, lemma_trim_end_len,
    line_bounds, lines, push_range, push_shortened, shorten, strip_heading, trim, trim_range, lemma_decimal_value, lemma_parse_decimal, lowercase, parse_u64_range,
    parse_u64_spec, push_char, push_decimal, push_str, range_all_ws, string_from_range, to_lowercase,
};

verus! {

// ---------------------------------------------------------------------
// Paths
// ---------------------------------------------------------------------

/// `dir` joined with the relative path `name`, with one `'/'` between them
/// (as `Path::join` does on Unix).
pub open spec fn join_path(dir: Seq<char>, name: Seq<char>) -> Seq<char> {
    if dir.len() == 0 || dir.last() == '/' {
        dir + name
    } else {
        dir + seq!['/'] + name
    }
}

/// `dir` joined with the relative path `name`.
pub fn join(dir: &str, name: &str) -> (r: String)
    ensures
        r@ == join_path(dir@, name@),
{
    let d = chars_of(dir);
    let mut s = string_from_range(&d, 0, d.len());
    assert(d@.subrange(0, d.len() as int) =~= d@);
    if d.len() > 0 && d[d.len() - 1] != '/' {
        push_char(&mut s, '/');
    }
    push_str(&mut s, name);
    s
}

/// The directory that holds the notes: `$XDG_DATA_HOME/cosmic-scratchpad`
/// when that variable holds more than whitespace, else
/// `$HOME/.local/share/cosmic-scratchpad`, else `/tmp/cosmic-scratchpad`.
pub open spec fn data_dir_spec(xdg: Option<Seq<char>>, home: Option<Seq<char>>) -> Seq<char> {
    match xdg {
        Some(x) if !all_ws(x) => join_path(x, "cosmic-scratchpad"@),
        _ => match home {
            Some(h) => join_path(
                join_path(join_path(h, ".local"@), "share"@),
                "cosmic-scratchpad"@,
            ),
            None => "/tmp/cosmic-scratchpad"@,
        },
    }
}

/// The notes directory, from the values of `XDG_DATA_HOME` and `HOME`
/// (`None` where a variable is unset or not valid Unicode).
pub fn data_dir(xdg_data_home: Option<&str>, home: Option<&str>) -> (r: String)
    ensures
        r@ == data_dir_spec(
            match xdg_data_home {
                Some(x) => Some(x@),
                None => None,
            },
            match home {
                Some(h) => Some(h@),
                None => None,
            },
        ),
{
    if let Some(x) = xdg_data_home {
        let v = chars_of(x);
        if !range_all_ws(&v, 0, v.len()) {
            assert(v@.subrange(0, v.len() as int) =~= v@);
            return join(x, "cosmic-scratchpad");
        }
        assert(v@.subrange(0, v.len() as int) =~= v@);
    }
    if let Some(h) = home {
        let a = join(h, ".local");
        let b = join(a.as_str(), "share");
        return join(b.as_str(), "cosmic-scratchpad");
    }
    let mut s = String::new();
    push_str(&mut s, "/tmp/cosmic-scratchpad");
    assert(Seq::<char>::empty() + "/tmp/cosmic-scratchpad"@ =~= "/tmp/cosmic-scratchpad"@);
    s
}

/// The directory that holds deleted notes.
pub fn trash_dir(data_dir: &str) -> (r: String)
    ensures
        r@ == join_path(data_dir@, "trash"@),
{
    join(data_dir, "trash")
}

// ---------------------------------------------------------------------
// Note file names
// ---------------------------------------------------------------------

/// `"pad_"`.
pub open spec fn pad_prefix() -> Seq<char> {
    seq!['p', 'a', 'd', '_']
}

/// `".md"`.
pub open spec fn md_suffix() -> Seq<char> {
    seq!['.', 'm', 'd']
}

/// `"pad_<n>.md"`.
pub open spec fn pad_file_name(n: nat) -> Seq<char> {
    pad_prefix() + decimal(n) + md_suffix()
}

/// The number `n` of a note file named `pad_<n>.md`, where `<n>` is what
/// `str::parse::<u64>` accepts.
pub open spec fn pad_number(name: Seq<char>) -> Option<u64> {
    if name.len() >= 7 && name.take(4) == pad_prefix() && name.skip(name.len() - 3)
        == md_suffix() {
        parse_u64_spec(name.subrange(4, name.len() - 3))
    } else {
        None
    }
}

fn push_pad_file_name(s: &mut String, n: u64)
    ensures
        final(s)@ == old(s)@ + pad_file_name(n as nat),
{
    push_char(s, 'p');
    push_char(s, 'a');
    push_char(s, 'd');
    push_char(s, '_');
    push_decimal(s, n as u128);
    push_char(s, '.');
    push_char(s, 'm');
    push_char(s, 'd');
    assert(final(s)@ =~= old(s)@ + pad_file_name(n as nat));
}

/// The path of the note with 0-based `index`: `<data_dir>/pad_<index+1>.md`.
pub fn pad_path(data_dir: &str, index: usize) -> (r: String)
    requires
        index < usize::MAX,
    ensures
        r@ == join_path(data_dir@, pad_file_name((index + 1) as nat)),
{
    let mut name = String::new();
    push_pad_file_name(&mut name, (index + 1) as u64);
    assert(Seq::<char>::empty() + pad_file_name((index + 1) as nat) =~= pad_file_name(
        (index + 1) as nat,
    ));
    join(data_dir, name.as_str())
}

/// The path of the backup copy of the note with 0-based `index`:
/// `<data_dir>/pad_<index+1>.md.bak`.
pub fn backup_path(data_dir: &str, index: usize) -> (r: String)
    requires
        index < usize::MAX,
    ensures
        r@ == join_path(data_dir@, pad_file_name((index + 1) as nat) + ".bak"@),
{
    let mut name = String::new();
    push_pad_file_name(&mut name, (index + 1) as u64);
    push_str(&mut name, ".bak");
    assert(Seq::<char>::empty() + pad_file_name((index + 1) as nat) + ".bak"@ =~= pad_file_name(
        (index + 1) as nat,
    ) + ".bak"@);
    join(data_dir, name.as_str())
}

/// The name under which a deleted note is kept in the trash:
/// `<timestamp>_<file name>`, the timestamp in nanoseconds.
pub fn trash_file_name(timestamp_nanos: u128, file_name: &str) -> (r: String)
    ensures
        r@ == decimal(timestamp_nanos as nat) + seq!['_'] + file_name@,
{
    let mut s = String::new();
    push_decimal(&mut s, timestamp_nanos);
    push_char(&mut s, '_');
    push_str(&mut s, file_name);
    assert(s@ =~= decimal(timestamp_nanos as nat) + seq!['_'] + file_name@);
    s
}

/// A modification time, in nanoseconds relative to the Unix epoch.
pub type FileTime = i128;

/// Whether a file modified at `mtime` changed since `last_seen`: always
/// when nothing was seen before, else when it is strictly later.
pub fn modified_since(mtime: FileTime, last_seen: Option<FileTime>) -> (b: bool)
    ensures
        b == match last_seen {
            Some(prev) => mtime > prev,
            None => true,
        },
{
    match last_seen {
        Some(prev) => mtime > prev,
        None => true,
    }
}

/// Whether `v` is `"pad_"` at `0..4` and `".md"` at the end, and long
/// enough to hold both.
fn has_pad_shape(v: &Vec<char>) -> (b: bool)
    ensures
        b == (v.len() >= 7 && v@.take(4) == pad_prefix() && v@.skip(v.len() - 3) == md_suffix()),
{
    if v.len() < 7 {
        return false;
    }
    let n: usize = v.len();
    let b = v[0] == 'p' && v[1] == 'a' && v[2] == 'd' && v[3] == '_' && v[n - 3] == '.' && v[n
        - 2] == 'm' && v[n - 1] == 'd';
    if b {
        assert(v@.take(4) =~= pad_prefix());
        assert(v@.skip(n - 3) =~= md_suffix());
    } else {
        proof {
            if v@.take(4) == pad_prefix() && v@.skip(n - 3) == md_suffix() {
                assert(v@.take(4)[0] == v@[0]);
                assert(v@.take(4)[1] == v@[1]);
                assert(v@.take(4)[2] == v@[2]);
                assert(v@.take(4)[3] == v@[3]);
                assert(v@.skip(n - 3)[0] == v@[n - 3]);
                assert(v@.skip(n - 3)[1] == v@[n - 2]);
                assert(v@.skip(n - 3)[2] == v@[n - 1]);
            }
        }
    }
    b
}

fn pad_number_of(v: &Vec<char>) -> (r: Option<u64>)
    ensures
        r == pad_number(v@),
{
    if has_pad_shape(v) {
        parse_u64_range(v, 4, v.len() - 3)
    } else {
        None
    }
}

/// The number of a note file named `pad_<n>.md`.
pub fn pad_number_of_name(name: &str) -> (r: Option<u64>)
    ensures
        r == pad_number(name@),
{
    let v = chars_of(name);
    pad_number_of(&v)
}

/// A note file named for `n` carries the number `n`.
pub proof fn lemma_pad_number_of_file_name(n: u64)
    ensures
        pad_number(pad_file_name(n as nat)) == Some(n),
{
    let name = pad_file_name(n as nat);
    lemma_decimal_value(n as nat);
    lemma_parse_decimal(n);
    assert(name.take(4) =~= pad_prefix());
    assert(name.skip(name.len() - 3) =~= md_suffix());
    assert(name.subrange(4, name.len() - 3) =~= decimal(n as nat));
}

// ---------------------------------------------------------------------
// Ordering of notes
// ---------------------------------------------------------------------

/// Lexicographic order on character sequences, by code point.
pub open spec fn seq_le(a: Seq<char>, b: Seq<char>) -> bool
    decreases a.len(),
{
    if a.len() == 0 {
        true
    } else if b.len() == 0 {
        false
    } else if a[0] < b[0] {
        true
    } else if a[0] > b[0] {
        false
    } else {
        seq_le(a.drop_first(), b.drop_first())
    }
}

/// The key by which note files are ordered: files named `pad_<n>.md`
/// first, by `n`; then every other file, by its lowercase name.
pub open spec fn sort_key(name: Seq<char>) -> (u8, u64, Seq<char>) {
    key_with(name, lowercase(name))
}

/// The order of sort keys: by group, then number, then name.
pub open spec fn key_le(a: (u8, u64, Seq<char>), b: (u8, u64, Seq<char>)) -> bool {
    ||| a.0 < b.0
    ||| (a.0 == b.0 && a.1 < b.1)
    ||| (a.0 == b.0 && a.1 == b.1 && seq_le(a.2, b.2))
}

/// The key by which a note file is ordered among the others.
pub struct NoteSortKey {
    pub group: u8,
    pub number: u64,
    pub name: String,
}

impl NoteSortKey {
    pub open spec fn key(&self) -> (u8, u64, Seq<char>) {
        (self.group, self.number, self.name@)
    }
}

/// The sort key of the note file `filename`.
pub fn note_sort_key(filename: &str) -> (k: NoteSortKey)
    ensures
        k.key() == sort_key(filename@),
{
    let v = chars_of(filename);
    match pad_number_of(&v) {
        Some(n) => NoteSortKey { group: 0, number: n, name: String::new() },
        None => NoteSortKey { group: 1, number: 0, name: to_lowercase(filename) },
    }
}

proof fn lemma_seq_le_total(a: Seq<char>, b: Seq<char>)
    ensures
        seq_le(a, b) || seq_le(b, a),
    decreases a.len(),
{
    if a.len() > 0 && b.len() > 0 && a[0] == b[0] {
        lemma_seq_le_total(a.drop_first(), b.drop_first());
    }
}

proof fn lemma_seq_le_trans(a: Seq<char>, b: Seq<char>, c: Seq<char>)
    requires
        seq_le(a, b),
        seq_le(b, c),
    ensures
        seq_le(a, c),
    decreases a.len(),
{
    if a.len() > 0 && b.len() > 0 && c.len() > 0 && a[0] == b[0] && b[0] == c[0] {
        lemma_seq_le_trans(a.drop_first(), b.drop_first(), c.drop_first());
    }
}

/// `seq_le` is the usual lexicographic order: `a` comes first exactly when
/// it is a prefix of `b`, or when at the first position where they differ
/// `a` has the smaller character.
pub proof fn law_seq_le_lexicographic(a: Seq<char>, b: Seq<char>)
    ensures
        seq_le(a, b) <==> ((a.len() <= b.len() && a == b.take(a.len() as int)) || exists|i: int|
            0 <= i < a.len() && i < b.len() && a.take(i) == b.take(i) && #[trigger] a[i] < b[i]),
    decreases a.len(),
{
    if a.len() == 0 {
        assert(a =~= b.take(0));
    } else if b.len() == 0 {
    } else if a[0] < b[0] {
        assert(a.take(0) =~= b.take(0));
    } else if a[0] > b[0] {
        if a.len() <= b.len() && a == b.take(a.len() as int) {
            assert(a[0] == b.take(a.len() as int)[0]);
        }
        if exists|i: int| 0 <= i < a.len() && i < b.len() && a.take(i) == b.take(i) && #[trigger] a[i] < b[i] {
            let i = choose|i: int| 0 <= i < a.len() && i < b.len() && a.take(i) == b.take(i) && #[trigger] a[i] < b[i];
            if i > 0 {
                assert(a[0] == a.take(i)[0]);
                assert(b[0] == b.take(i)[0]);
            }
        }
    } else {
        let a1 = a.drop_first();
        let b1 = b.drop_first();
        law_seq_le_lexicographic(a1, b1);
        if a.len() <= b.len() && a == b.take(a.len() as int) {
            assert(a1 =~= b1.take(a1.len() as int));
        }
        if a1.len() <= b1.len() && a1 == b1.take(a1.len() as int) {
            assert forall|k: int| 0 <= k < a.len() implies a[k] == b.take(a.len() as int)[k] by {
                if k > 0 {
                    assert(a[k] == a1[k - 1]);
                    assert(b1.take(a1.len() as int)[k - 1] == b[k]);
                }
            }
            assert(a =~= b.take(a.len() as int));
        }
        if exists|i: int| 0 <= i < a.len() && i < b.len() && a.take(i) == b.take(i) && #[trigger] a[i] < b[i] {
            let i = choose|i: int| 0 <= i < a.len() && i < b.len() && a.take(i) == b.take(i) && #[trigger] a[i] < b[i];
            assert(i > 0);
            assert(a1.take(i - 1) =~= a.take(i).drop_first());
            assert(b1.take(i - 1) =~= b.take(i).drop_first());
            assert(a1[i - 1] < b1[i - 1]);
        }
        if exists|i: int| 0 <= i < a1.len() && i < b1.len() && a1.take(i) == b1.take(i) && #[trigger] a1[i] < b1[i] {
            let i = choose|i: int| 0 <= i < a1.len() && i < b1.len() && a1.take(i) == b1.take(i) && #[trigger] a1[i] < b1[i];
            assert(a.take(i + 1) =~= seq![a[0]] + a1.take(i));
            assert(b.take(i + 1) =~= seq![b[0]] + b1.take(i));
            assert(a[i + 1] < b[i + 1]);
        }
    }
}

/// Two sequences each ordered before the other are equal: the order of
/// names decides between any two different names.
pub proof fn law_seq_le_antisymmetric(a: Seq<char>, b: Seq<char>)
    requires
        seq_le(a, b),
        seq_le(b, a),
    ensures
        a == b,
    decreases a.len(),
{
    if a.len() == 0 {
        assert(b.len() == 0);
        assert(a =~= b);
    } else {
        law_seq_le_antisymmetric(a.drop_first(), b.drop_first());
        assert(a =~= seq![a[0]] + a.drop_first());
        assert(b =~= seq![b[0]] + b.drop_first());
    }
}

/// Any two keys are ordered one way or the other.
pub proof fn lemma_key_le_total(a: (u8, u64, Seq<char>), b: (u8, u64, Seq<char>))
    ensures
        key_le(a, b) || key_le(b, a),
{
    lemma_seq_le_total(a.2, b.2);
}

/// The order of keys is transitive.
pub proof fn lemma_key_le_trans(
    a: (u8, u64, Seq<char>),
    b: (u8, u64, Seq<char>),
    c: (u8, u64, Seq<char>),
)
    requires
        key_le(a, b),
        key_le(b, c),
    ensures
        key_le(a, c),
{
    if a.0 == b.0 && b.0 == c.0 && a.1 == b.1 && b.1 == c.1 {
        lemma_seq_le_trans(a.2, b.2, c.2);
    }
}

/// Notes are ordered naturally: `pad_<m>.md` comes strictly before
/// `pad_<n>.md` when `m < n` (so `pad_2.md` before `pad_10.md`), and every
/// `pad_<n>.md` strictly before any file not so named.
pub proof fn lemma_natural_order(a: Seq<char>, b: Seq<char>)
    requires
        pad_number(a) is Some,
        pad_number(b) is None || pad_number(a)->0 < pad_number(b)->0,
    ensures
        key_le(sort_key(a), sort_key(b)),
        !key_le(sort_key(b), sort_key(a)),
{
}

fn seq_le_exec(a: &Vec<char>, b: &Vec<char>) -> (r: bool)
    ensures
        r == seq_le(a@, b@),
{
    let mut i: usize = 0;
    assert(a@.skip(0) =~= a@);
    assert(b@.skip(0) =~= b@);
    while i < a.len() && i < b.len() && a[i] == b[i]
        invariant
            i <= a.len(),
            i <= b.len(),
            seq_le(a@, b@) == seq_le(a@.skip(i as int), b@.skip(i as int)),
        decreases a.len() - i,
    {
        assert(a@.skip(i as int).drop_first() =~= a@.skip(i + 1));
        assert(b@.skip(i as int).drop_first() =~= b@.skip(i + 1));
        i += 1;
    }
    if i == a.len() {
        return true;
    }
    if i == b.len() {
        return false;
    }
    assert(a@.skip(i as int)[0] == a@[i as int]);
    assert(b@.skip(i as int)[0] == b@[i as int]);
    a[i] < b[i]
}

/// A note file with the parts of its key, kept while sorting.
struct Keyed {
    group: u8,
    number: u64,
    low: Vec<char>,
    name: String,
    idx: usize,
}

impl Keyed {
    spec fn key(&self) -> (u8, u64, Seq<char>) {
        (self.group, self.number, self.low@)
    }
}

fn keyed_le(a: &Keyed, b: &Keyed) -> (r: bool)
    ensures
        r == key_le(a.key(), b.key()),
{
    if a.group != b.group {
        return a.group < b.group;
    }
    if a.number != b.number {
        return a.number < b.number;
    }
    seq_le_exec(&a.low, &b.low)
}

/// The sort key of a file named `name` whose lowercase name is `lower`.
pub open spec fn key_with(name: Seq<char>, lower: Seq<char>) -> (u8, u64, Seq<char>) {
    match pad_number(name) {
        Some(n) => (0u8, n, Seq::<char>::empty()),
        None => (1u8, 0u64, lower),
    }
}

/// An entry of the notes directory: its name and whether it is a regular
/// file.
pub struct DirEntry {
    pub name: String,
    pub is_file: bool,
}

/// Whether a directory entry is a note: a regular file whose name ends in
/// `.md`, does not start with `'.'` and does not end in `.bak`.
pub open spec fn is_note_entry(name: Seq<char>, is_file: bool) -> bool {
    &&& is_file
    &&& name.len() >= 3 && name.skip(name.len() - 3) == md_suffix()
    &&& !(name.len() > 0 && name[0] == '.')
    &&& !(name.len() >= 4 && name.skip(name.len() - 4) == ".bak"@)
}

/// The names of the note entries among `entries`, in directory order.
pub open spec fn note_names(entries: Seq<DirEntry>) -> Seq<Seq<char>>
    decreases entries.len(),
{
    if entries.len() == 0 {
        Seq::empty()
    } else {
        let rest = note_names(entries.drop_last());
        let e = entries.last();
        if is_note_entry(e.name@, e.is_file) {
            rest.push(e.name@)
        } else {
            rest
        }
    }
}

/// The positions of the note entries among `entries`, ascending.
pub open spec fn note_indices(entries: Seq<DirEntry>) -> Seq<usize>
    decreases entries.len(),
{
    if entries.len() == 0 {
        Seq::empty()
    } else {
        let rest = note_indices(entries.drop_last());
        let e = entries.last();
        if is_note_entry(e.name@, e.is_file) {
            rest.push((entries.len() - 1) as usize)
        } else {
            rest
        }
    }
}

fn is_note_entry_exec(e: &DirEntry) -> (b: bool)
    ensures
        b == is_note_entry(e.name@, e.is_file),
{
    if !e.is_file {
        return false;
    }
    let v = chars_of(e.name.as_str());
    let n: usize = v.len();
    proof {
        reveal_strlit(".bak");
    }
    if n < 3 || !(v[n - 3] == '.' && v[n - 2] == 'm' && v[n - 1] == 'd') {
        proof {
            if n >= 3 && v@.skip(n - 3) == md_suffix() {
                assert(v@.skip(n - 3)[0] == v@[n - 3]);
                assert(v@.skip(n - 3)[1] == v@[n - 2]);
                assert(v@.skip(n - 3)[2] == v@[n - 1]);
            }
        }
        return false;
    }
    assert(v@.skip(n - 3) =~= md_suffix());
    if v[0] == '.' {
        return false;
    }
    if n >= 4 && v[n - 4] == '.' && v[n - 3] == 'b' && v[n - 2] == 'a' && v[n - 1] == 'k' {
        assert(v@.skip(n - 4) =~= ".bak"@);
        return false;
    }
    proof {
        if n >= 4 && v@.skip(n - 4) == ".bak"@ {
            assert(v@.skip(n - 4)[0] == v@[n - 4]);
            assert(v@.skip(n - 4)[1] == v@[n - 3]);
            assert(v@.skip(n - 4)[2] == v@[n - 2]);
            assert(v@.skip(n - 4)[3] == v@[n - 1]);
        }
    }
    true
}

fn keyed_of(name: &String, lower: &String, idx: usize) -> (k: Keyed)
    ensures
        k.key() == key_with(name@, lower@),
        k.name@ == name@,
        k.idx == idx,
{
    let v = chars_of(name.as_str());
    match pad_number_of(&v) {
        Some(n) => Keyed { group: 0, number: n, low: Vec::new(), name: name.clone(), idx },
        None => Keyed {
            group: 1,
            number: 0,
            low: chars_of(lower.as_str()),
            name: name.clone(),
            idx,
        },
    }
}

spec fn keyed_names(s: Seq<Keyed>) -> Seq<Seq<char>> {
    s.map_values(|k: Keyed| k.name@)
}

spec fn keyed_indices(s: Seq<Keyed>) -> Seq<usize> {
    s.map_values(|k: Keyed| k.idx)
}

proof fn lemma_insert_multiset<A>(old: Seq<A>, new: Seq<A>, p: int, x: A)
    requires
        0 <= p <= old.len(),
        new.len() == old.len() + 1,
        new[p] == x,
        new.remove(p) == old,
    ensures
        new.to_multiset() =~= old.to_multiset().insert(x),
{
    new.to_multiset_ensures();
    assert(new.contains(x)) by {
        assert(new[p] == x);
    }
}

/// Sorts the note entries by key, stably (an insertion sort).
fn sort_notes(entries: &Vec<DirEntry>, lowered: &Vec<String>) -> (sorted: Vec<Keyed>)
    requires
        lowered.len() == entries.len(),
    ensures
        keyed_names(sorted@).to_multiset() == note_names(entries@).to_multiset(),
        keyed_indices(sorted@).to_multiset() == note_indices(entries@).to_multiset(),
        forall|k: int|
            0 <= k < sorted.len() ==> (#[trigger] sorted@[k]).idx < entries.len()
                && sorted@[k].name@ == entries@[sorted@[k].idx as int].name@
                && sorted@[k].key() == key_with(
                sorted@[k].name@,
                lowered@[sorted@[k].idx as int]@,
            ),
        forall|a: int, b: int|
            0 <= a < b < sorted.len() ==> key_le(
                #[trigger] sorted@[a].key(),
                #[trigger] sorted@[b].key(),
            ),
        forall|a: int, b: int|
            0 <= a < b < sorted.len() && key_le(#[trigger] sorted@[b].key(), #[trigger] sorted@[a].key())
                ==> sorted@[a].idx < sorted@[b].idx,
{
    broadcast use vstd::seq_lib::group_to_multiset_ensures;

    let mut sorted: Vec<Keyed> = Vec::new();
    let mut i: usize = 0;
    while i < entries.len()
        invariant
            i <= entries.len(),
            lowered.len() == entries.len(),
            keyed_names(sorted@).to_multiset() == note_names(entries@.take(i as int)).to_multiset(),
            keyed_indices(sorted@).to_multiset() == note_indices(
                entries@.take(i as int),
            ).to_multiset(),
            forall|k: int|
                0 <= k < sorted.len() ==> (#[trigger] sorted@[k]).idx < i && sorted@[k].name@
                    == entries@[sorted@[k].idx as int].name@ && sorted@[k].key() == key_with(
                    sorted@[k].name@,
                    lowered@[sorted@[k].idx as int]@,
                ),
            forall|a: int, b: int|
                0 <= a < b < sorted.len() ==> key_le(
                    #[trigger] sorted@[a].key(),
                    #[trigger] sorted@[b].key(),
                ),
            forall|a: int, b: int|
                0 <= a < b < sorted.len() && key_le(#[trigger] sorted@[b].key(), #[trigger] sorted@[a].key())
                    ==> sorted@[a].idx < sorted@[b].idx,
        decreases entries.len() - i,
    {
        let e = &entries[i];
        assert(entries@.take(i + 1).drop_last() =~= entries@.take(i as int));
        assert(entries@.take(i + 1).last() == entries@[i as int]);
        proof {
            note_names(entries@.take(i as int)).to_multiset_ensures();
            note_indices(entries@.take(i as int)).to_multiset_ensures();
        }
        if is_note_entry_exec(e) {
            let x = keyed_of(&e.name, &lowered[i], i);
            let mut p: usize = 0;
            while p < sorted.len() && keyed_le(&sorted[p], &x)
                invariant
                    p <= sorted.len(),
                    forall|k: int| 0 <= k < p ==> key_le(#[trigger] sorted@[k].key(), x.key()),
                decreases sorted.len() - p,
            {
                p += 1;
            }
            let ghost old_sorted = sorted@;
            proof {
                if p < sorted.len() {
                    lemma_key_le_total(sorted@[p as int].key(), x.key());
                }
            }
            sorted.insert(p, x);
            proof {
                assert forall|a: int, b: int|
                    0 <= a < b < sorted.len() implies key_le(
                    #[trigger] sorted@[a].key(),
                    #[trigger] sorted@[b].key(),
                ) by {
                    if b == p {
                        assert(sorted@[a] == old_sorted[a]);
                    } else if a == p {
                        assert(sorted@[b] == old_sorted[b - 1]);
                        if b - 1 > p {
                            assert(key_le(old_sorted[p as int].key(), old_sorted[b - 1].key()));
                            lemma_key_le_trans(
                                x.key(),
                                old_sorted[p as int].key(),
                                old_sorted[b - 1].key(),
                            );
                        }
                    } else {
                        let a0 = if a < p {
                            a
                        } else {
                            a - 1
                        };
                        let b0 = if b < p {
                            b
                        } else {
                            b - 1
                        };
                        assert(sorted@[a] == old_sorted[a0]);
                        assert(sorted@[b] == old_sorted[b0]);
                        if a < p && b > p {
                            assert(key_le(old_sorted[a0].key(), x.key()));
                            lemma_key_le_trans(
                                old_sorted[a0].key(),
                                x.key(),
                                old_sorted[p as int].key(),
                            );
                            if b0 > p {
                                lemma_key_le_trans(
                                    old_sorted[a0].key(),
                                    old_sorted[p as int].key(),
                                    old_sorted[b0].key(),
                                );
                            }
                        }
                    }
                }
                assert forall|a: int, b: int|
                    0 <= a < b < sorted.len() && key_le(
                        #[trigger] sorted@[b].key(),
                        #[trigger] sorted@[a].key(),
                    ) implies sorted@[a].idx < sorted@[b].idx by {
                    if b == p {
                        assert(sorted@[a] == old_sorted[a]);
                    } else if a == p {
                        assert(sorted@[b] == old_sorted[b - 1]);
                        if b - 1 > p {
                            assert(key_le(old_sorted[p as int].key(), old_sorted[b - 1].key()));
                            lemma_key_le_trans(
                                old_sorted[p as int].key(),
                                old_sorted[b - 1].key(),
                                x.key(),
                            );
                        }
                    } else {
                        let a0 = if a < p {
                            a
                        } else {
                            a - 1
                        };
                        let b0 = if b < p {
                            b
                        } else {
                            b - 1
                        };
                        assert(sorted@[a] == old_sorted[a0]);
                        assert(sorted@[b] == old_sorted[b0]);
                    }
                }
                assert forall|k: int| 0 <= k < sorted.len() implies (#[trigger] sorted@[k]).idx
                    < i + 1 && sorted@[k].name@ == entries@[sorted@[k].idx as int].name@
                    && sorted@[k].key() == key_with(
                    sorted@[k].name@,
                    lowered@[sorted@[k].idx as int]@,
                ) by {
                    if k < p {
                        assert(sorted@[k] == old_sorted[k]);
                    } else if k > p {
                        assert(sorted@[k] == old_sorted[k - 1]);
                    }
                }
                assert(keyed_names(sorted@).remove(p as int) =~= keyed_names(old_sorted));
                lemma_insert_multiset(keyed_names(old_sorted), keyed_names(sorted@), p as int, x.name@);
                assert(keyed_indices(sorted@).remove(p as int) =~= keyed_indices(old_sorted));
                lemma_insert_multiset(keyed_indices(old_sorted), keyed_indices(sorted@), p as int, i);
            }
        } else {
            proof {
                assert forall|k: int| 0 <= k < sorted.len() implies (#[trigger] sorted@[k]).idx
                    < i + 1 by {}
            }
        }
        i += 1;
    }
    assert(entries@.take(entries.len() as int) =~= entries@);
    sorted
}

/// The positions of the note entries in display order, given the
/// lowercase form of each entry's name: every note entry once, sorted by
/// [`key_with`]: `pad_<n>.md` files first by `n`, then other files by
/// lowercase name; entries with equal keys keep their directory order.
pub fn order_notes(entries: &Vec<DirEntry>, lowered: &Vec<String>) -> (r: Vec<usize>)
    requires
        lowered.len() == entries.len(),
    ensures
        r@.to_multiset() == note_indices(entries@).to_multiset(),
        forall|k: int| 0 <= k < r.len() ==> #[trigger] r@[k] < entries.len(),
        forall|a: int, b: int|
            0 <= a < b < r.len() ==> key_le(
                key_with(entries@[#[trigger] r@[a] as int].name@, lowered@[r@[a] as int]@),
                key_with(entries@[#[trigger] r@[b] as int].name@, lowered@[r@[b] as int]@),
            ),
        forall|a: int, b: int|
            0 <= a < b < r.len() && key_le(
                key_with(entries@[#[trigger] r@[b] as int].name@, lowered@[r@[b] as int]@),
                key_with(entries@[#[trigger] r@[a] as int].name@, lowered@[r@[a] as int]@),
            ) ==> r@[a] < r@[b],
{
    let sorted = sort_notes(entries, lowered);
    let mut r: Vec<usize> = Vec::new();
    let mut k: usize = 0;
    while k < sorted.len()
        invariant
            k <= sorted.len(),
            r.len() == k,
            forall|m: int| 0 <= m < k ==> #[trigger] r@[m] == sorted@[m].idx,
        decreases sorted.len() - k,
    {
        r.push(sorted[k].idx);
        k += 1;
    }
    assert(r@ =~= keyed_indices(sorted@));
    assert forall|a: int, b: int| 0 <= a < b < r.len() implies key_le(
        key_with(entries@[#[trigger] r@[a] as int].name@, lowered@[r@[a] as int]@),
        key_with(entries@[#[trigger] r@[b] as int].name@, lowered@[r@[b] as int]@),
    ) by {
        assert(r@[a] == sorted@[a].idx);
        assert(r@[b] == sorted@[b].idx);
        assert(key_le(sorted@[a].key(), sorted@[b].key()));
    }
    assert forall|a: int, b: int|
        0 <= a < b < r.len() && key_le(
            key_with(entries@[#[trigger] r@[b] as int].name@, lowered@[r@[b] as int]@),
            key_with(entries@[#[trigger] r@[a] as int].name@, lowered@[r@[a] as int]@),
        ) implies r@[a] < r@[b] by {
        assert(r@[a] == sorted@[a].idx);
        assert(r@[b] == sorted@[b].idx);
        assert(key_le(sorted@[b].key(), sorted@[a].key()));
    }
    r
}

/// `ord` says where each listed name comes from: the listing takes every
/// note entry once, the `k`-th name is that of entry `ord[k]`, and names
/// whose sort keys are equal keep the order of their entries.
pub open spec fn listed_from(entries: Seq<DirEntry>, names: Seq<String>, ord: Seq<usize>) -> bool {
    &&& ord.len() == names.len()
    &&& ord.to_multiset() == note_indices(entries).to_multiset()
    &&& forall|k: int|
        0 <= k < ord.len() ==> #[trigger] ord[k] < entries.len() && names[k]@ == entries[ord[k] as int].name@
    &&& forall|a: int, b: int|
        0 <= a < b < ord.len() && key_le(sort_key(#[trigger] names[b]@), sort_key(#[trigger] names[a]@))
            ==> ord[a] < ord[b]
}

/// The notes among the entries of the notes directory, in display order.
/// Every note entry is listed once, and the list is sorted by
/// [`sort_key`]: `pad_<n>.md` files first by number, then other files by
/// lowercase name; names with equal keys (`pad_1.md` and `pad_01.md`,
/// `A.md` and `a.md`) keep the order of the entries. An empty list means
/// that the directory holds no note.
pub fn list_notes(entries: &Vec<DirEntry>) -> (res: Vec<String>)
    ensures
        res@.map_values(|s: String| s@).to_multiset() == note_names(entries@).to_multiset(),
        forall|i: int, j: int|
            0 <= i < j < res.len() ==> key_le(
                sort_key(#[trigger] res@[i]@),
                sort_key(#[trigger] res@[j]@),
            ),
        exists|ord: Seq<usize>| listed_from(entries@, res@, ord),
{
    let mut lowered: Vec<String> = Vec::new();
    let mut i: usize = 0;
    while i < entries.len()
        invariant
            i <= entries.len(),
            lowered.len() == i,
            forall|k: int| 0 <= k < i ==> #[trigger] lowered@[k]@ == lowercase(entries@[k].name@),
        decreases entries.len() - i,
    {
        lowered.push(to_lowercase(entries[i].name.as_str()));
        i += 1;
    }
    let sorted = sort_notes(entries, &lowered);
    let mut res: Vec<String> = Vec::new();
    let mut k: usize = 0;
    while k < sorted.len()
        invariant
            k <= sorted.len(),
            res.len() == k,
            forall|m: int| 0 <= m < k ==> #[trigger] res@[m]@ == sorted@[m].name@,
        decreases sorted.len() - k,
    {
        res.push(sorted[k].name.clone());
        k += 1;
    }
    assert(res@.map_values(|s: String| s@) =~= keyed_names(sorted@));
    assert forall|a: int, b: int| 0 <= a < b < res.len() implies key_le(
        sort_key(#[trigger] res@[a]@),
        sort_key(#[trigger] res@[b]@),
    ) by {
        assert(sorted@[a].key() == sort_key(sorted@[a].name@));
        assert(sorted@[b].key() == sort_key(sorted@[b].name@));
        assert(key_le(sorted@[a].key(), sorted@[b].key()));
    }
    let ghost ord = keyed_indices(sorted@);
    assert forall|k: int| 0 <= k < ord.len() implies #[trigger] ord[k] < entries.len()
        && res@[k]@ == entries@[ord[k] as int].name@ by {
        assert(ord[k] == sorted@[k].idx);
    }
    assert forall|a: int, b: int|
        0 <= a < b < ord.len() && key_le(sort_key(#[trigger] res@[b]@), sort_key(#[trigger] res@[a]@))
            implies ord[a] < ord[b] by {
        assert(sorted@[a].key() == sort_key(sorted@[a].name@));
        assert(sorted@[b].key() == sort_key(sorted@[b].name@));
        assert(key_le(sorted@[b].key(), sorted@[a].key()));
    }
    assert(listed_from(entries@, res@, ord));
    res
}

/// The note file to create, empty, in a notes directory whose notes are
/// `listed`, so that at least one note always exists: `pad_1.md` when the
/// listing is empty, and none otherwise.
pub fn initial_note_file(listed: &Vec<String>) -> (r: Option<String>)
    ensures
        r is Some <==> listed.len() == 0,
        r matches Some(name) ==> name@ == pad_file_name(1),
{
    if listed.len() == 0 {
        let mut name = String::new();
        push_pad_file_name(&mut name, 1);
        assert(Seq::<char>::empty() + pad_file_name(1) =~= pad_file_name(1));
        Some(name)
    } else {
        None
    }
}

// ---------------------------------------------------------------------
// Titles
// ---------------------------------------------------------------------

/// Whether `c` opens a Markdown list item or quote (`- `, `* `, `+ `, `> `).
pub open spec fn is_bullet(c: char) -> bool {
    c == '-' || c == '*' || c == '+' || c == '>'
}

/// A line as a title candidate: heading marks and surrounding whitespace
/// removed, then one list or quote marker with its space, then whitespace
/// again.
pub open spec fn clean_title_line(line: Seq<char>) -> Seq<char> {
    let c = strip_heading(line);
    if c.len() >= 2 && is_bullet(c[0]) && c[1] == ' ' {
        trim(c.skip(2))
    } else {
        c
    }
}

/// The cleaned form of the first line whose cleaned form is not empty.
pub open spec fn first_title(ls: Seq<Seq<char>>) -> Option<Seq<char>>
    decreases ls.len(),
{
    if ls.len() == 0 {
        None
    } else if clean_title_line(ls[0]).len() > 0 {
        Some(clean_title_line(ls[0]))
    } else {
        first_title(ls.drop_first())
    }
}

/// The title of a note: its first non-empty line, cleaned of Markdown
/// heading, list and quote marks and cut to 22 characters plus `'…'`; the
/// fallback when no line has any text.
pub open spec fn derive_title_spec(content: Seq<char>, fallback: Seq<char>) -> Seq<char> {
    match first_title(lines(content)) {
        Some(t) => shorten(t, 22),
        None => fallback,
    }
}

fn title_range(v: &Vec<char>, lo: usize, hi: usize) -> (r: (usize, usize))
    requires
        lo <= hi <= v.len(),
    ensures
        lo <= r.0 <= r.1 <= hi,
        clean_title_line(v@.subrange(lo as int, hi as int)) == v@.subrange(r.0 as int, r.1 as int),
{
    let (a, b) = heading_range(v, lo, hi);
    if b - a >= 2 && (v[a] == '-' || v[a] == '*' || v[a] == '+' || v[a] == '>') && v[a + 1]
        == ' ' {
        assert(v@.subrange(a as int, b as int).skip(2) =~= v@.subrange(a + 2, b as int));
        assert(v@.subrange(a as int, b as int)[0] == v@[a as int]);
        assert(v@.subrange(a as int, b as int)[1] == v@[a + 1]);
        trim_range(v, a + 2, b)
    } else {
        proof {
            if b - a >= 2 {
                assert(v@.subrange(a as int, b as int)[0] == v@[a as int]);
                assert(v@.subrange(a as int, b as int)[1] == v@[a + 1]);
            }
        }
        (a, b)
    }
}

/// Derives a note's title from its content: the first line that holds
/// text once Markdown heading marks (`#`), one list or quote marker
/// (`- `, `* `, `+ `, `> `) and surrounding whitespace are removed, cut to
/// 22 characters (trailing whitespace dropped) followed by `'…'` when
/// longer; `fallback` when no line holds text.
pub fn derive_title(content: &str, fallback: &str) -> (r: String)
    ensures
        r@ == derive_title_spec(content@, fallback@),
{
    let v = chars_of(content);
    let len: usize = v.len();
    let mut pos: usize = 0;
    assert(v@.subrange(0, len as int) =~= v@);
    while pos < len
        invariant
            pos <= len,
            len == v.len(),
            v@ == content@,
            first_title(lines(v@)) == first_title(lines(v@.subrange(pos as int, len as int))),
        decreases len - pos,
    {
        let e: usize = find_line_end(&v, pos);
        let hi: usize = line_bounds(&v, pos, e);
        proof {
            lemma_lines_step(v@, pos as int, e as int);
        }
        let ghost line = v@.subrange(pos as int, hi as int);
        let ghost rest = lines(v@.subrange(pos as int, len as int));
        assert(rest[0] == line);
        let (a, b) = title_range(&v, pos, hi);
        if a < b {
            assert(rest.len() > 0);
            assert(clean_title_line(rest[0]) == v@.subrange(a as int, b as int));
            assert(first_title(rest) == Some(v@.subrange(a as int, b as int)));
            let mut s = String::new();
            push_shortened(&mut s, &v, a, b, 22);
            assert(Seq::<char>::empty() + shorten(v@.subrange(a as int, b as int), 22) =~= shorten(
                v@.subrange(a as int, b as int),
                22,
            ));
            return s;
        }
        if e == len {
            assert(rest.drop_first() =~= Seq::<Seq<char>>::empty());
            assert(v@.subrange(len as int, len as int) =~= Seq::<char>::empty());
            assert(lines(v@.subrange(len as int, len as int)) =~= Seq::<Seq<char>>::empty());
            pos = len;
        } else {
            assert(rest.drop_first() =~= lines(v@.subrange(e + 1, len as int)));
            pos = e + 1;
        }
    }
    assert(v@.subrange(pos as int, len as int) =~= Seq::<char>::empty());
    assert(lines(v@.subrange(pos as int, len as int)) =~= Seq::<Seq<char>>::empty());
    let mut s = String::new();
    push_str(&mut s, fallback);
    assert(Seq::<char>::empty() + fallback@ =~= fallback@);
    s
}

/// A derived title is the fallback or at most 23 characters long; a title
/// cut short ends with `'…'`.
pub proof fn lemma_title_length(content: Seq<char>, fallback: Seq<char>)
    ensures
        derive_title_spec(content, fallback) == fallback || derive_title_spec(content, fallback).len()
            <= 23,
        first_title(lines(content)) matches Some(t) && t.len() > 22 ==> derive_title_spec(
            content,
            fallback,
        ).last() == '…',
{
    if let Some(t) = first_title(lines(content)) {
        if t.len() > 22 {
            lemma_trim_end_len(t.take(22));
        }
    }
}

// ---------------------------------------------------------------------
// New notes
// ---------------------------------------------------------------------

/// The largest `n` among regular files named `pad_<n>.md`, or 0.
pub open spec fn max_pad_number(entries: Seq<DirEntry>) -> nat
    decreases entries.len(),
{
    if entries.len() == 0 {
        0
    } else {
        let m = max_pad_number(entries.drop_last());
        let e = entries.last();
        if e.is_file && pad_number(e.name@) is Some && pad_number(e.name@)->0 > m {
            pad_number(e.name@)->0 as nat
        } else {
            m
        }
    }
}

/// The initial content of a new note: `# <title>\n\n` with the title
/// trimmed, when a title with text is given; else nothing.
pub open spec fn new_note_content(title: Option<Seq<char>>) -> Seq<char> {
    match title {
        Some(t) if trim(t).len() > 0 => "# "@ + trim(t) + "\n\n"@,
        _ => Seq::empty(),
    }
}

/// What to write for a new note: the file name and its initial content.
pub struct NewNote {
    pub file_name: String,
    pub content: String,
}

proof fn lemma_max_pad_number(entries: Seq<DirEntry>)
    requires
        forall|i: int|
            0 <= i < entries.len() && #[trigger] entries[i].is_file ==> pad_number(entries[i].name@)
                != Some(u64::MAX),
    ensures
        max_pad_number(entries) < u64::MAX,
        forall|i: int|
            0 <= i < entries.len() && #[trigger] entries[i].is_file && pad_number(entries[i].name@)
                is Some ==> pad_number(entries[i].name@)->0 <= max_pad_number(entries),
    decreases entries.len(),
{
    if entries.len() > 0 {
        let d = entries.drop_last();
        assert forall|i: int|
            0 <= i < d.len() && #[trigger] d[i].is_file implies pad_number(d[i].name@) != Some(
            u64::MAX,
        ) by {
            assert(d[i] == entries[i]);
        }
        lemma_max_pad_number(d);
        assert forall|i: int|
            0 <= i < entries.len() && #[trigger] entries[i].is_file && pad_number(
                entries[i].name@,
            ) is Some implies pad_number(entries[i].name@)->0 <= max_pad_number(entries) by {
            if i < entries.len() - 1 {
                assert(d[i] == entries[i]);
            }
        }
        let e = entries.last();
        assert(e == entries[entries.len() - 1]);
    }
}

/// Plans a new note in a directory holding `entries`: it is named
/// `pad_<n>.md` for `n` one more than the largest number of an existing
/// `pad_<n>.md` file (so no existing file is overwritten), and starts with
/// `# <title>` when a title with text is given.
pub fn create_new_note(entries: &Vec<DirEntry>, title: Option<&str>) -> (r: NewNote)
    requires
        forall|i: int|
            0 <= i < entries.len() && #[trigger] entries@[i].is_file ==> pad_number(
                entries@[i].name@,
            ) != Some(u64::MAX),
    ensures
        r.file_name@ == pad_file_name(max_pad_number(entries@) + 1),
        r.content@ == new_note_content(
            match title {
                Some(t) => Some(t@),
                None => None,
            },
        ),
        forall|i: int|
            0 <= i < entries.len() && #[trigger] entries@[i].is_file ==> entries@[i].name@
                != r.file_name@,
{
    let mut m: u64 = 0;
    let mut i: usize = 0;
    while i < entries.len()
        invariant
            i <= entries.len(),
            m as nat == max_pad_number(entries@.take(i as int)),
        decreases entries.len() - i,
    {
        assert(entries@.take(i + 1).drop_last() =~= entries@.take(i as int));
        assert(entries@.take(i + 1).last() == entries@[i as int]);
        if entries[i].is_file {
            if let Some(n) = pad_number_of_name(entries[i].name.as_str()) {
                if n > m {
                    m = n;
                }
            }
        }
        i += 1;
    }
    assert(entries@.take(entries.len() as int) =~= entries@);
    proof {
        lemma_max_pad_number(entries@);
    }
    let next: u64 = m + 1;
    let mut file_name = String::new();
    push_pad_file_name(&mut file_name, next);
    assert(Seq::<char>::empty() + pad_file_name(next as nat) =~= pad_file_name(next as nat));
    proof {
        lemma_pad_number_of_file_name(next);
        assert forall|k: int|
            0 <= k < entries.len() && #[trigger] entries@[k].is_file implies entries@[k].name@
            != file_name@ by {
            if entries@[k].name@ == file_name@ {
                assert(pad_number(entries@[k].name@) == Some(next));
            }
        }
    }
    let mut content = String::new();
    if let Some(t) = title {
        let v = chars_of(t);
        let (a, b) = trim_range(&v, 0, v.len());
        assert(v@.subrange(0, v.len() as int) =~= v@);
        if a < b {
            push_str(&mut content, "# ");
            push_range(&mut content, &v, a, b);
            push_str(&mut content, "\n\n");
            assert(content@ =~= "# "@ + trim(t@) + "\n\n"@);
        }
    }
    NewNote { file_name, content }
}

/// A note created with a title is titled with it: for a one-line title
/// without surrounding whitespace that is not itself a heading, list item
/// or quote, the derived title of the new note's content is the title (cut
/// to 22 characters plus `'…'` when longer).
pub proof fn law_new_note_title(t: Seq<char>, fallback: Seq<char>)
    requires
        t.len() > 0,
        !is_ws(t[0]),
        !is_ws(t.last()),
        forall|i: int| 0 <= i < t.len() ==> t[i] != '\n',
        t[0] != '#',
        !(t.len() >= 2 && is_bullet(t[0]) && t[1] == ' '),
    ensures
        derive_title_spec(new_note_content(Some(t)), fallback) == shorten(t, 22),
{
    reveal_strlit("# ");
    reveal_strlit("\n\n");
    assert(trim_start(t) == t);
    assert(trim_end(t) == t);
    assert(trim(t) == t);
    let s = new_note_content(Some(t));
    let head = seq!['#', ' '] + t;
    assert(s =~= head + seq!['\n', '\n']);
    let e = head.len() as int;
    assert forall|i: int| 0 <= i < e implies s[i] != '\n' by {
        if i >= 2 {
            assert(s[i] == t[i - 2]);
        }
    }
    assert(s[e] == '\n');
    lemma_lines_step(s, 0, e);
    assert(s.subrange(0, s.len() as int) =~= s);
    assert(s.subrange(0, e) =~= head);
    assert(head.last() == t.last());
    assert(strip_cr(head) == head);
    let ls = lines(s);
    assert(ls[0] == head);
    // trimming and heading removal of "# <t>"
    assert(trim_start(head) == head);
    assert(trim_end(head) == head);
    assert(head.drop_first() =~= seq![' '] + t);
    assert((seq![' '] + t).drop_first() =~= t);
    assert(strip_leading(seq![' '] + t, '#') == seq![' '] + t);
    assert(strip_leading(head, '#') == seq![' '] + t);
    assert(trim_start(seq![' '] + t) == trim_start(t));
    assert(trim(seq![' '] + t) == t);
    assert(strip_heading(head) == t);
    assert(clean_title_line(head) == t);
    assert(first_title(ls) == Some(t));
}

} // verus!
