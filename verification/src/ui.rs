//! Text shown around a note: its word and character counts and the preview
//! line of a search result.
use vstd::prelude::*;
use crate::text::{
    all_ws, chars_of, contains_chars, contains_seq, find_line_end, heading_range, is_whitespace,
    is_ws, lemma_lines_step, line_bounds, lines, lowercase, push_char, push_shortened,
    range_all_ws, shorten, string_from_range, strip_heading, to_lowercase, trim, trim_range,
};

verus! {

// ---------------------------------------------------------------------
// Counting
// ---------------------------------------------------------------------

/// The number of words of `s`: maximal runs of non-whitespace characters.
pub open spec fn word_count(s: Seq<char>) -> nat
    decreases s.len(),
{
    if s.len() == 0 {
        0
    } else {
        word_count(s.drop_last()) + (if !is_ws(s.last()) && (s.len() == 1 || is_ws(
            s[s.len() - 2],
        )) {
            1nat
        } else {
            0nat
        })
    }
}

/// What the counter shows for a text: no words and no characters when it
/// holds only whitespace, else its number of words and of characters.
pub open spec fn counts_spec(text: Seq<char>) -> (nat, nat) {
    if all_ws(text) {
        (0, 0)
    } else {
        (word_count(text), text.len())
    }
}

/// A text has no more words than characters.
pub proof fn lemma_words_le_chars(s: Seq<char>)
    ensures
        word_count(s) <= s.len(),
    decreases s.len(),
{
    if s.len() > 0 {
        lemma_words_le_chars(s.drop_last());
    }
}

/// Calculates the word and character count of a text: `(0, 0)` when it
/// holds only whitespace, else the number of whitespace-separated words
/// and the number of characters (not bytes).
pub fn count_words_and_chars(text: &str) -> (r: (usize, usize))
    ensures
        r.0 as nat == counts_spec(text@).0,
        r.1 as nat == counts_spec(text@).1,
{
    let v = chars_of(text);
    let len: usize = v.len();
    assert(v@.subrange(0, len as int) =~= v@);
    if range_all_ws(&v, 0, len) {
        return (0, 0);
    }
    let mut words: usize = 0;
    let mut i: usize = 0;
    while i < len
        invariant
            i <= len,
            len == v.len(),
            words <= i,
            words as nat == word_count(v@.take(i as int)),
        decreases len - i,
    {
        let ghost t = v@.take(i + 1);
        assert(t.drop_last() =~= v@.take(i as int));
        assert(t.last() == v@[i as int]);
        if i > 0 {
            assert(t[i - 1] == v@[i - 1]);
        }
        if !is_whitespace(v[i]) && (i == 0 || is_whitespace(v[i - 1])) {
            words += 1;
        }
        i += 1;
    }
    assert(v@.take(len as int) =~= v@);
    (words, len)
}

// ---------------------------------------------------------------------
// Preview snippet
// ---------------------------------------------------------------------

/// The heading-stripped form of the line after skipping `skip` earlier
/// lines that hold text, among the lines that hold text once stripped.
pub open spec fn heading_after(ls: Seq<Seq<char>>, skip: nat) -> Option<Seq<char>>
    decreases ls.len(),
{
    if ls.len() == 0 {
        None
    } else if strip_heading(ls[0]).len() > 0 {
        if skip == 0 {
            Some(strip_heading(ls[0]))
        } else {
            heading_after(ls.drop_first(), (skip - 1) as nat)
        }
    } else {
        heading_after(ls.drop_first(), skip)
    }
}

/// The heading-stripped form of the first line whose lowercase form
/// (given line by line in `lowered`) contains `q`.
pub open spec fn first_match(ls: Seq<Seq<char>>, lowered: Seq<Seq<char>>, q: Seq<char>) -> Option<
    Seq<char>,
>
    decreases ls.len(),
{
    if ls.len() == 0 || lowered.len() == 0 {
        None
    } else if contains_seq(lowered[0], q) {
        Some(strip_heading(ls[0]))
    } else {
        first_match(ls.drop_first(), lowered.drop_first(), q)
    }
}

/// The preview of `text` for the lowercase query `q`, given the lowercase
/// form of each of its trimmed lines: the first line that contains a
/// non-empty query, else the second line that holds text (the first being
/// the title), else `"…"`; heading marks removed and cut to 42 characters
/// plus `'…'`.
pub open spec fn preview_spec(text: Seq<char>, q: Seq<char>, lowered: Seq<Seq<char>>) -> Seq<
    char,
> {
    let ls = lines(text);
    if q.len() > 0 && first_match(ls, lowered, q) is Some {
        shorten(first_match(ls, lowered, q)->0, 42)
    } else {
        match heading_after(ls, 1) {
            Some(h) => shorten(h, 42),
            None => seq!['…'],
        }
    }
}

/// The lowercase form of each trimmed line of `text`.
pub open spec fn lowered_lines(text: Seq<char>) -> Seq<Seq<char>> {
    lines(text).map_values(|l: Seq<char>| lowercase(trim(l)))
}

proof fn lemma_lines_of_empty(v: Seq<char>, pos: int)
    requires
        pos == v.len(),
    ensures
        lines(v.subrange(pos, v.len() as int)) == Seq::<Seq<char>>::empty(),
{
    assert(v.subrange(pos, v.len() as int) =~= Seq::<char>::empty());
    assert(lines(v.subrange(pos, v.len() as int)) =~= Seq::<Seq<char>>::empty());
}

/// The preview of `text` from the lowercase query and the lowercase form
/// of each trimmed line of `text` (see [`preview_spec`]).
pub fn preview_from_lowered(text: &str, query_lower: &str, lines_lower: &Vec<String>) -> (r: String)
    ensures
        r@ == preview_spec(text@, query_lower@, lines_lower@.map_values(|s: String| s@)),
{
    let v = chars_of(text);
    let q = chars_of(query_lower);
    let len: usize = v.len();
    let ghost low = lines_lower@.map_values(|s: String| s@);
    assert(v@.subrange(0, len as int) =~= v@);
    if q.len() > 0 {
        let mut pos: usize = 0;
        let mut k: usize = 0;
        assert(low.skip(0) =~= low);
        while pos < len
            invariant
                pos <= len,
                len == v.len(),
                v@ == text@,
                q@ == query_lower@,
                q.len() > 0,
                k <= lines_lower.len(),
                low == lines_lower@.map_values(|s: String| s@),
                low.len() == lines_lower.len(),
                first_match(lines(v@), low, q@) == first_match(
                    lines(v@.subrange(pos as int, len as int)),
                    low.skip(k as int),
                    q@,
                ),
            ensures
                first_match(lines(v@), low, q@) is None,
            decreases len - pos,
        {
            let e: usize = find_line_end(&v, pos);
            let hi: usize = line_bounds(&v, pos, e);
            proof {
                lemma_lines_step(v@, pos as int, e as int);
            }
            let ghost ls = lines(v@.subrange(pos as int, len as int));
            let ghost lk = low.skip(k as int);
            assert(ls[0] == v@.subrange(pos as int, hi as int));
            if k >= lines_lower.len() {
                assert(lk.len() == 0);
                assert(first_match(ls, lk, q@) is None);
                break ;
            }
            assert(lk[0] == lines_lower@[k as int]@);
            let lc = chars_of(lines_lower[k].as_str());
            if contains_chars(&lc, &q) {
                let (a, b) = heading_range(&v, pos, hi);
                assert(ls.len() > 0 && lk.len() > 0);
                assert(first_match(ls, lk, q@) == Some(v@.subrange(a as int, b as int)));
                let mut s = String::new();
                push_shortened(&mut s, &v, a, b, 42);
                assert(s@ =~= shorten(v@.subrange(a as int, b as int), 42));
                return s;
            }
            assert(lk.drop_first() =~= low.skip(k + 1));
            if e == len {
                proof {
                    lemma_lines_of_empty(v@, len as int);
                }
                assert(ls.drop_first() =~= Seq::<Seq<char>>::empty());
                pos = len;
            } else {
                assert(ls.drop_first() =~= lines(v@.subrange(e + 1, len as int)));
                pos = e + 1;
            }
            k += 1;
        }
    }
    let ghost no_match = q@.len() == 0 || first_match(lines(text@), low, q@) is None;
    assert(no_match);
    let mut pos: usize = 0;
    let mut skip: usize = 1;
    while pos < len
        invariant
            pos <= len,
            len == v.len(),
            v@ == text@,
            skip <= 1,
            no_match == (query_lower@.len() == 0 || first_match(lines(text@), lines_lower@.map_values(|s: String| s@), query_lower@) is None),
            no_match,
            heading_after(lines(v@), 1) == heading_after(
                lines(v@.subrange(pos as int, len as int)),
                skip as nat,
            ),
        decreases len - pos,
    {
        let e: usize = find_line_end(&v, pos);
        let hi: usize = line_bounds(&v, pos, e);
        proof {
            lemma_lines_step(v@, pos as int, e as int);
        }
        let ghost ls = lines(v@.subrange(pos as int, len as int));
        assert(ls[0] == v@.subrange(pos as int, hi as int));
        let (a, b) = heading_range(&v, pos, hi);
        if a < b {
            if skip == 0 {
                let mut s = String::new();
                push_shortened(&mut s, &v, a, b, 42);
                assert(s@ =~= shorten(v@.subrange(a as int, b as int), 42));
                return s;
            }
            skip = 0;
        }
        if e == len {
            proof {
                lemma_lines_of_empty(v@, len as int);
            }
            assert(ls.drop_first() =~= Seq::<Seq<char>>::empty());
            pos = len;
        } else {
            assert(ls.drop_first() =~= lines(v@.subrange(e + 1, len as int)));
            pos = e + 1;
        }
    }
    proof {
        lemma_lines_of_empty(v@, len as int);
    }
    let mut s = String::new();
    push_char(&mut s, '…');
    assert(s@ =~= seq!['…']);
    s
}

/// Extracts a clean preview snippet from note content: when the trimmed
/// query is not empty, the first line whose lowercase form contains the
/// lowercase query; otherwise (or when no line matches) the second line
/// that holds text, the first being the title; `"…"` when there is none.
/// Heading marks and surrounding whitespace are removed and the line cut
/// to 42 characters followed by `'…'`.
pub fn get_preview_snippet(text: &str, query: &str) -> (r: String)
    ensures
        r@ == preview_spec(text@, lowercase(trim(query@)), lowered_lines(text@)),
{
    let qv = chars_of(query);
    let (qa, qb) = trim_range(&qv, 0, qv.len());
    assert(qv@.subrange(0, qv.len() as int) =~= qv@);
    let qs = string_from_range(&qv, qa, qb);
    let q = to_lowercase(qs.as_str());
    let v = chars_of(text);
    let len: usize = v.len();
    let mut lowered: Vec<String> = Vec::new();
    let ghost f = |l: Seq<char>| lowercase(trim(l));
    let ghost mut done: Seq<Seq<char>> = Seq::empty();
    let mut pos: usize = 0;
    assert(v@.subrange(0, len as int) =~= v@);
    assert(Seq::<Seq<char>>::empty() + lines(v@) =~= lines(v@));
    while pos < len
        invariant
            pos <= len,
            len == v.len(),
            f == (|l: Seq<char>| lowercase(trim(l))),
            lines(v@) == done + lines(v@.subrange(pos as int, len as int)),
            lowered@.map_values(|s: String| s@) == done.map_values(f),
        decreases len - pos,
    {
        let e: usize = find_line_end(&v, pos);
        let hi: usize = line_bounds(&v, pos, e);
        proof {
            lemma_lines_step(v@, pos as int, e as int);
        }
        let ghost line = v@.subrange(pos as int, hi as int);
        let ghost ls = lines(v@.subrange(pos as int, len as int));
        assert(ls[0] == line);
        let (a, b) = trim_range(&v, pos, hi);
        let t = string_from_range(&v, a, b);
        let l = to_lowercase(t.as_str());
        let ghost old_lowered = lowered@;
        lowered.push(l);
        assert(lowered@.map_values(|s: String| s@) =~= old_lowered.map_values(|s: String| s@).push(
            f(line),
        ));
        assert(done.push(line).map_values(f) =~= done.map_values(f).push(f(line)));
        if e == len {
            proof {
                lemma_lines_of_empty(v@, len as int);
            }
            assert(ls =~= seq![line]);
            assert(lines(v@) =~= done.push(line) + lines(v@.subrange(len as int, len as int)));
            pos = len;
        } else {
            assert(ls =~= seq![line] + lines(v@.subrange(e + 1, len as int)));
            assert(lines(v@) =~= done.push(line) + lines(v@.subrange(e + 1, len as int)));
            pos = e + 1;
        }
        proof {
            done = done.push(line);
        }
    }
    proof {
        lemma_lines_of_empty(v@, len as int);
    }
    assert(lines(v@) =~= done);
    assert(lowered@.map_values(|s: String| s@) =~= lowered_lines(text@));
    preview_from_lowered(text, q.as_str(), &lowered)
}

} // verus!
