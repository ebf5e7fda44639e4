//! Pinyin readings: splitting a word's reading into syllables, and the tone each
//! one carries.
//!
//! A syllable is `[initial consonants] vowel-run [coda]`, where the only codas are
//! `n`, `ng` and `r`, and an apostrophe, space, hyphen, middle dot, slash or comma
//! is a hard boundary. A vowel run followed by anything but a coda starts a new
//! syllable, which is a rule rather than a table; callers check the result
//! against the number of characters, so a reading the rule gets wrong is refused
//! rather than scored.
//!
//! The rule is stated as the spec functions [`piece_end`] and [`piece_spans`]
//! over the characters of a reading, and every function here is proved against
//! them.

use std::ops::Range;

use vstd::prelude::*;

use crate::text::{
    append_str, ascii_letter, ascii_lower, chars_of, decimal, decimal_string, is_blank, join,
    join_strings, lemma_push, lemma_views_push, push_char, str_equal, string_of, string_of_range, to_ascii_lower, trim, trimmed,
    views,
};

verus! {

/// One syllable of a reading.
#[derive(Clone, Debug, PartialEq)]
pub struct Syllable {
    /// The syllable as written, tone mark included, e.g. `"xué"`.
    pub text: String,
    /// The tone it carries, 1..=4, or `5` for the neutral tone.
    pub tone: u8,
}

// ---------------------------------------------------------------------------
// Character classes
// ---------------------------------------------------------------------------

/// Is this character part of a syllable's vowel run? The syllabic nasals count.
pub open spec fn vowel(c: char) -> bool {
    ||| c == 'a' || c == 'e' || c == 'i' || c == 'o' || c == 'u' || c == 'ü' || c == 'v'
    ||| c == 'ā' || c == 'á' || c == 'ǎ' || c == 'à'
    ||| c == 'ē' || c == 'é' || c == 'ě' || c == 'è' || c == 'ê'
    ||| c == 'ī' || c == 'í' || c == 'ǐ' || c == 'ì'
    ||| c == 'ō' || c == 'ó' || c == 'ǒ' || c == 'ò'
    ||| c == 'ū' || c == 'ú' || c == 'ǔ' || c == 'ù'
    ||| c == 'ǖ' || c == 'ǘ' || c == 'ǚ' || c == 'ǜ'
    ||| c == 'ń' || c == 'ň' || c == 'ǹ' || c == 'ḿ'
}

fn is_vowel(c: char) -> (r: bool)
    ensures
        r == vowel(c),
{
    matches!(
        c,
        'a' | 'e' | 'i' | 'o' | 'u' | 'ü' | 'v' | 'ā' | 'á' | 'ǎ' | 'à' | 'ē' | 'é' | 'ě' | 'è'
            | 'ê' | 'ī' | 'í' | 'ǐ' | 'ì' | 'ō' | 'ó' | 'ǒ' | 'ò' | 'ū' | 'ú' | 'ǔ' | 'ù' | 'ǖ'
            | 'ǘ' | 'ǚ' | 'ǜ' | 'ń' | 'ň' | 'ǹ' | 'ḿ'
    )
}

/// The tone a single accented vowel marks, if it marks one.
pub open spec fn tone_mark(c: char) -> Option<u8> {
    if c == 'ā' || c == 'ē' || c == 'ī' || c == 'ō' || c == 'ū' || c == 'ǖ' || c == 'ń' || c
        == 'ḿ' {
        Some(1u8)
    } else if c == 'á' || c == 'é' || c == 'í' || c == 'ó' || c == 'ú' || c == 'ǘ' {
        Some(2u8)
    } else if c == 'ǎ' || c == 'ě' || c == 'ǐ' || c == 'ǒ' || c == 'ǔ' || c == 'ǚ' || c == 'ň' {
        Some(3u8)
    } else if c == 'à' || c == 'è' || c == 'ì' || c == 'ò' || c == 'ù' || c == 'ǜ' || c == 'ǹ' {
        Some(4u8)
    } else {
        None
    }
}

fn marked_tone(c: char) -> (r: Option<u8>)
    ensures
        r == tone_mark(c),
{
    match c {
        'ā' | 'ē' | 'ī' | 'ō' | 'ū' | 'ǖ' | 'ń' | 'ḿ' => Some(1),
        'á' | 'é' | 'í' | 'ó' | 'ú' | 'ǘ' => Some(2),
        'ǎ' | 'ě' | 'ǐ' | 'ǒ' | 'ǔ' | 'ǚ' | 'ň' => Some(3),
        'à' | 'è' | 'ì' | 'ò' | 'ù' | 'ǜ' | 'ǹ' => Some(4),
        _ => None,
    }
}

/// The characters that mark a syllable boundary by hand.
pub open spec fn separator(c: char) -> bool {
    c == '\'' || c == ' ' || c == '-' || c == '·' || c == '/' || c == ','
}

fn is_separator(c: char) -> (r: bool)
    ensures
        r == separator(c),
{
    matches!(c, '\'' | ' ' | '-' | '·' | '/' | ',')
}

// ---------------------------------------------------------------------------
// The splitting rule
// ---------------------------------------------------------------------------

/// The first index at or after `i` that is not an initial consonant of the same
/// syllable: a vowel, a separator, or the end.
pub open spec fn skip_consonants(r: Seq<char>, i: int) -> int
    decreases r.len() - i,
{
    if 0 <= i < r.len() && !separator(r[i]) && !vowel(r[i]) {
        skip_consonants(r, i + 1)
    } else {
        i
    }
}

/// The end of the vowel run that starts at `i`.
pub open spec fn skip_vowels(r: Seq<char>, i: int) -> int
    decreases r.len() - i,
{
    if 0 <= i < r.len() && vowel(r[i]) {
        skip_vowels(r, i + 1)
    } else {
        i
    }
}

/// Whether a vowel stands at `k`.
pub open spec fn vowel_at(r: Seq<char>, k: int) -> bool {
    0 <= k < r.len() && vowel(r[k])
}

/// The end of a syllable whose vowel run ends at `j`: `ng` is always a coda, and
/// `n` or `r` is one unless a vowel follows it, when it is the next syllable's
/// initial instead.
pub open spec fn coda_end(r: Seq<char>, j: int) -> int {
    if 0 <= j && j + 1 < r.len() && r[j] == 'n' && r[j + 1] == 'g' {
        j + 2
    } else if 0 <= j < r.len() && r[j] == 'n' && !vowel_at(r, j + 1) {
        j + 1
    } else if 0 <= j < r.len() && r[j] == 'r' && !vowel_at(r, j + 1) {
        j + 1
    } else {
        j
    }
}

/// Where the piece of a reading that starts at `i` ends. A piece with no vowel
/// runs to the next separator or the end, and is refused later as unreadable.
pub open spec fn piece_end(r: Seq<char>, i: int) -> int {
    let v = skip_consonants(r, i);
    if vowel_at(r, v) {
        coda_end(r, skip_vowels(r, v))
    } else {
        v
    }
}

/// The spans of every piece of `r` from `i` on, separators skipped.
pub open spec fn piece_spans(r: Seq<char>, i: int) -> Seq<(int, int)>
    decreases r.len() - i,
{
    if i < 0 || i >= r.len() {
        seq![]
    } else if separator(r[i]) {
        piece_spans(r, i + 1)
    } else {
        let e = piece_end(r, i);
        if e <= i || e > r.len() {
            seq![]
        } else {
            seq![(i, e)] + piece_spans(r, e)
        }
    }
}

/// The tone marks a piece of text carries, in order.
pub open spec fn marks_in(s: Seq<char>) -> Seq<u8>
    decreases s.len(),
{
    if s.len() == 0 {
        seq![]
    } else {
        let rest = marks_in(s.drop_first());
        match tone_mark(s[0]) {
            Some(t) => seq![t] + rest,
            None => rest,
        }
    }
}

/// Whether any character of `s` is a vowel.
pub open spec fn has_vowel(s: Seq<char>) -> bool {
    exists|k: int| 0 <= k < s.len() && vowel(s[k])
}

/// The tone a written syllable carries: its one tone mark, or the neutral tone
/// for a syllable with a vowel and no mark. Two marks, or no vowel, is not a
/// syllable.
pub open spec fn syllable_tone_of(s: Seq<char>) -> Option<u8> {
    let m = marks_in(s);
    if m.len() == 0 {
        if has_vowel(s) {
            Some(5u8)
        } else {
            None
        }
    } else if m.len() == 1 {
        Some(m[0])
    } else {
        None
    }
}

/// The pieces of a whole reading.
pub open spec fn pieces(r: Seq<char>) -> Seq<(int, int)> {
    piece_spans(r, 0)
}

/// The text of the `k`th piece.
pub open spec fn piece_text(r: Seq<char>, k: int) -> Seq<char> {
    r.subrange(pieces(r)[k].0, pieces(r)[k].1)
}

/// Whether the reading divides into syllables at all: at least one piece, and
/// every piece a syllable.
pub open spec fn readable(r: Seq<char>) -> bool {
    &&& pieces(r).len() > 0
    &&& forall|k: int| 0 <= k < pieces(r).len() ==> (#[trigger] syllable_tone_of(piece_text(r, k))) is Some
}

/// The syllables of a readable reading: text and tone, in order.
pub open spec fn syllables_of(r: Seq<char>) -> Seq<(Seq<char>, u8)> {
    Seq::new(pieces(r).len(), |k: int| (piece_text(r, k), syllable_tone_of(piece_text(r, k))->0))
}

/// The tones of a readable reading, in order.
pub open spec fn tones_of(r: Seq<char>) -> Seq<u8> {
    Seq::new(pieces(r).len(), |k: int| syllables_of(r)[k].1)
}

// ---------------------------------------------------------------------------
// Facts about the rule
// ---------------------------------------------------------------------------

proof fn lemma_skip_consonants(r: Seq<char>, i: int)
    requires
        0 <= i <= r.len(),
    ensures
        i <= skip_consonants(r, i) <= r.len(),
        forall|k: int|
            i <= k < skip_consonants(r, i) ==> !separator(#[trigger] r[k]) && !vowel(r[k]),
    decreases r.len() - i,
{
    if i < r.len() && !separator(r[i]) && !vowel(r[i]) {
        lemma_skip_consonants(r, i + 1);
    }
}

proof fn lemma_skip_vowels(r: Seq<char>, i: int)
    requires
        0 <= i <= r.len(),
    ensures
        i <= skip_vowels(r, i) <= r.len(),
        forall|k: int| i <= k < skip_vowels(r, i) ==> vowel(#[trigger] r[k]),
    decreases r.len() - i,
{
    if i < r.len() && vowel(r[i]) {
        lemma_skip_vowels(r, i + 1);
    }
}

/// A piece that starts on a non-separator is never empty, and stays in bounds.
proof fn lemma_piece_end(r: Seq<char>, i: int)
    requires
        0 <= i < r.len(),
        !separator(r[i]),
    ensures
        i < piece_end(r, i) <= r.len(),
{
    lemma_skip_consonants(r, i);
    if !vowel(r[i]) {
        lemma_skip_consonants(r, i + 1);
        assert(skip_consonants(r, i) == skip_consonants(r, i + 1));
    } else {
        assert(skip_consonants(r, i) == i);
    }
    let v = skip_consonants(r, i);
    if vowel_at(r, v) {
        lemma_skip_vowels(r, v + 1);
        assert(skip_vowels(r, v) == skip_vowels(r, v + 1));
        let j = skip_vowels(r, v);
        assert(j <= coda_end(r, j) <= r.len());
    }
}

/// The pieces of `r` from `i` on are ordered, non-empty and in bounds.
proof fn lemma_piece_spans(r: Seq<char>, i: int)
    requires
        0 <= i <= r.len(),
    ensures
        forall|k: int|
            0 <= k < piece_spans(r, i).len() ==> i <= (#[trigger] piece_spans(r, i)[k]).0
                < piece_spans(r, i)[k].1 <= r.len(),
    decreases r.len() - i,
{
    if i < r.len() {
        if separator(r[i]) {
            lemma_piece_spans(r, i + 1);
            assert(piece_spans(r, i) == piece_spans(r, i + 1));
        } else {
            lemma_piece_end(r, i);
            let e = piece_end(r, i);
            lemma_piece_spans(r, e);
            assert(piece_spans(r, i) == seq![(i, e)] + piece_spans(r, e));
            assert forall|k: int|
                0 <= k < piece_spans(r, i).len() implies i <= (#[trigger] piece_spans(
                r,
                i,
            )[k]).0 < piece_spans(r, i)[k].1 <= r.len() by {
                if k > 0 {
                    assert(piece_spans(r, i)[k] == piece_spans(r, e)[k - 1]);
                }
            }
        }
    }
}

proof fn lemma_marks_in_append(s: Seq<char>, c: char)
    ensures
        marks_in(s.push(c)) == marks_in(s) + match tone_mark(c) {
            Some(t) => seq![t],
            None => seq![],
        },
    decreases s.len(),
{
    if s.len() == 0 {
        assert(s.push(c).drop_first() =~= seq![]);
        assert(marks_in(seq![]) =~= seq![]);
    } else {
        lemma_marks_in_append(s.drop_first(), c);
        assert(s.push(c).drop_first() =~= s.drop_first().push(c));
    }
}

// ---------------------------------------------------------------------------
// The exec side of the rule
// ---------------------------------------------------------------------------

fn piece_end_exec(r: &Vec<char>, i: usize) -> (e: usize)
    requires
        i < r.len(),
        !separator(r@[i as int]),
    ensures
        e == piece_end(r@, i as int),
        i < e <= r.len(),
{
    proof {
        lemma_piece_end(r@, i as int);
        lemma_skip_consonants(r@, i as int);
    }
    let mut v: usize = i;
    while v < r.len() && !is_separator(r[v]) && !is_vowel(r[v])
        invariant
            i <= v <= r.len(),
            skip_consonants(r@, v as int) == skip_consonants(r@, i as int),
        decreases r.len() - v,
    {
        v += 1;
    }
    if v < r.len() && is_vowel(r[v]) {
        proof {
            lemma_skip_vowels(r@, v as int);
        }
        let mut j: usize = v;
        while j < r.len() && is_vowel(r[j])
            invariant
                v <= j <= r.len(),
                skip_vowels(r@, j as int) == skip_vowels(r@, v as int),
            decreases r.len() - j,
        {
            j += 1;
        }
        if j < r.len() && j + 1 < r.len() && r[j] == 'n' && r[j + 1] == 'g' {
            j + 2
        } else if j < r.len() && r[j] == 'n' && !(j + 1 < r.len() && is_vowel(r[j + 1])) {
            j + 1
        } else if j < r.len() && r[j] == 'r' && !(j + 1 < r.len() && is_vowel(r[j + 1])) {
            j + 1
        } else {
            j
        }
    } else {
        v
    }
}

/// The tone of `r[from..to]`, read as one syllable.
fn syllable_tone(r: &Vec<char>, from: usize, to: usize) -> (t: Option<u8>)
    requires
        from <= to <= r.len(),
    ensures
        t == syllable_tone_of(r@.subrange(from as int, to as int)),
{
    let ghost s = r@.subrange(from as int, to as int);
    let mut count: usize = 0;
    let mut first: u8 = 0;
    let mut any_vowel = false;
    let mut k: usize = from;
    while k < to
        invariant
            from <= k <= to <= r.len(),
            s == r@.subrange(from as int, to as int),
            count == marks_in(r@.subrange(from as int, k as int)).len() || count >= 2,
            count <= 2,
            count >= 2 ==> marks_in(r@.subrange(from as int, k as int)).len() >= 2,
            count >= 1 ==> first == marks_in(r@.subrange(from as int, k as int))[0],
            any_vowel == has_vowel(r@.subrange(from as int, k as int)),
        decreases to - k,
    {
        let ghost before = r@.subrange(from as int, k as int);
        proof {
            assert(r@.subrange(from as int, k + 1) == before.push(r@[k as int]));
            lemma_marks_in_append(before, r@[k as int]);
        }
        match marked_tone(r[k]) {
            Some(t) => {
                if count == 0 {
                    first = t;
                }
                if count < 2 {
                    count += 1;
                }
            },
            None => {},
        }
        if is_vowel(r[k]) {
            any_vowel = true;
        }
        proof {
            let after = r@.subrange(from as int, k + 1);
            if has_vowel(before) {
                let w = choose|w: int| 0 <= w < before.len() && vowel(before[w]);
                assert(after[w] == before[w]);
            }
            if has_vowel(after) && !vowel(r@[k as int]) {
                let w = choose|w: int| 0 <= w < after.len() && vowel(after[w]);
                assert(w < before.len());
                assert(before[w] == after[w]);
            }
            if vowel(r@[k as int]) {
                assert(after[after.len() - 1] == r@[k as int]);
            }
        }
        k += 1;
    }
    if count == 0 {
        if any_vowel {
            Some(5)
        } else {
            None
        }
    } else if count == 1 {
        Some(first)
    } else {
        None
    }
}

/// Split a reading into its syllables, and say where each one sits.
///
/// Offsets are in **characters** from the start of `reading`. `None` when the
/// reading holds no syllable, or any part of it cannot be read as one.
pub fn syllables_with_spans(reading: &str) -> (res: Option<Vec<(Syllable, Range<usize>)>>)
    ensures
        match res {
            None => !readable(reading@),
            Some(v) => {
                &&& readable(reading@)
                &&& v.len() == pieces(reading@).len()
                &&& forall|k: int|
                    0 <= k < v.len() ==> {
                        &&& (#[trigger] v[k]).0.text@ == syllables_of(reading@)[k].0
                        &&& v[k].0.tone == syllables_of(reading@)[k].1
                        &&& v[k].1.start == pieces(reading@)[k].0
                        &&& v[k].1.end == pieces(reading@)[k].1
                    }
            },
        },
{
    let r = chars_of(reading);
    let ghost rs = r@;
    let mut out: Vec<(Syllable, Range<usize>)> = Vec::new();
    let ghost mut done: Seq<(int, int)> = seq![];
    let mut i: usize = 0;
    proof {
        lemma_piece_spans(rs, 0);
    }
    while i < r.len()
        invariant
            rs == r@,
            rs == reading@,
            i <= r.len(),
            pieces(rs) == done + piece_spans(rs, i as int),
            out.len() == done.len(),
            forall|k: int|
                0 <= k < done.len() ==> {
                    &&& (#[trigger] out@[k]).0.text@ == rs.subrange(done[k].0, done[k].1)
                    &&& syllable_tone_of(rs.subrange(done[k].0, done[k].1)) == Some(out@[k].0.tone)
                    &&& out@[k].1.start == done[k].0
                    &&& out@[k].1.end == done[k].1
                },
        decreases r.len() - i,
    {
        if is_separator(r[i]) {
            i += 1;
        } else {
            let e = piece_end_exec(&r, i);
            let ghost old_done = done;
            assert(piece_spans(rs, i as int) == seq![(i as int, e as int)] + piece_spans(rs, e as int));
            proof {
                done = done.push((i as int, e as int));
                assert(pieces(rs) == done + piece_spans(rs, e as int));
            }
            match syllable_tone(&r, i, e) {
                None => {
                    proof {
                        let k = old_done.len() as int;
                        assert(pieces(rs)[k] == (i as int, e as int));
                        assert(piece_text(rs, k) == rs.subrange(i as int, e as int));
                    }
                    return None;
                },
                Some(t) => {
                    let text = string_of_range(&r, i, e);
                    out.push((Syllable { text, tone: t }, i..e));
                },
            }
            i = e;
        }
    }
    assert(piece_spans(rs, i as int) == Seq::<(int, int)>::empty());
    assert(done == pieces(rs));
    if out.len() == 0 {
        return None;
    }
    proof {
        assert forall|k: int| 0 <= k < pieces(rs).len() implies (#[trigger] syllable_tone_of(
            piece_text(rs, k),
        )) is Some by {
            assert(done[k] == pieces(rs)[k]);
            assert(piece_text(rs, k) == rs.subrange(done[k].0, done[k].1));
            assert(syllable_tone_of(rs.subrange(done[k].0, done[k].1)) == Some(out@[k].0.tone));
        }
    }
    Some(out)
}

/// Split a reading into its syllables.
///
/// `None` when the reading holds no syllable or any part of it cannot be read as
/// one. Apostrophes, spaces and hyphens are hard boundaries, which is what makes
/// `xi'an` two syllables and `xian` one.
pub fn syllables(reading: &str) -> (res: Option<Vec<Syllable>>)
    ensures
        match res {
            None => !readable(reading@),
            Some(v) => {
                &&& readable(reading@)
                &&& v.len() == syllables_of(reading@).len()
                &&& forall|k: int|
                    0 <= k < v.len() ==> (#[trigger] v[k]).text@ == syllables_of(reading@)[k].0
                        && v[k].tone == syllables_of(reading@)[k].1
            },
        },
{
    match syllables_with_spans(reading) {
        None => None,
        Some(spans) => {
            let mut out: Vec<Syllable> = Vec::new();
            let mut k: usize = 0;
            while k < spans.len()
                invariant
                    k <= spans.len(),
                    out.len() == k,
                    spans.len() == syllables_of(reading@).len(),
                    forall|j: int|
                        0 <= j < spans.len() ==> (#[trigger] spans@[j]).0.text@ == syllables_of(
                            reading@,
                        )[j].0 && spans@[j].0.tone == syllables_of(reading@)[j].1,
                    forall|j: int|
                        0 <= j < k ==> (#[trigger] out@[j]).text@ == syllables_of(reading@)[j].0
                            && out@[j].tone == syllables_of(reading@)[j].1,
                decreases spans.len() - k,
            {
                let s = Syllable { text: spans[k].0.text.clone(), tone: spans[k].0.tone };
                out.push(s);
                k += 1;
            }
            Some(out)
        },
    }
}

/// The tone a single-syllable reading carries, or `None` when it cannot be read
/// or holds more than one syllable.
pub fn tone_from_pinyin(reading: &str) -> (res: Option<u8>)
    ensures
        res == (if readable(reading@) && syllables_of(reading@).len() == 1 {
            Some(syllables_of(reading@)[0].1)
        } else {
            None
        }),
{
    match syllables(reading) {
        None => None,
        Some(list) => {
            if list.len() == 1 {
                Some(list[0].tone)
            } else {
                None
            }
        },
    }
}

/// Whether `reading` divides into exactly one syllable per character of `text`.
pub open spec fn aligns(text: Seq<char>, reading: Seq<char>) -> bool {
    readable(reading) && syllables_of(reading).len() == text.len()
}

/// The syllables of `reading`, when they divide into exactly one per character
/// of `text`; `None` otherwise, because pairing a misaligned reading up anyway
/// would attach a tone to the wrong glyph.
pub fn aligned_reading(text: &str, reading: &str) -> (res: Option<Vec<Syllable>>)
    ensures
        match res {
            None => !aligns(text@, reading@),
            Some(v) => {
                &&& aligns(text@, reading@)
                &&& v.len() == text@.len()
                &&& forall|k: int|
                    0 <= k < v.len() ==> (#[trigger] v[k]).text@ == syllables_of(reading@)[k].0
                        && v[k].tone == syllables_of(reading@)[k].1
            },
        },
{
    let count = chars_of(text).len();
    match syllables(reading) {
        None => None,
        Some(list) => {
            if list.len() > 0 && list.len() == count {
                Some(list)
            } else {
                None
            }
        },
    }
}

// ---------------------------------------------------------------------------
// Writing a tone mark
// ---------------------------------------------------------------------------

/// The plain letter under a tone mark.
#[verifier::opaque]
pub open spec fn plain(c: char) -> char {
    if c == 'ā' || c == 'á' || c == 'ǎ' || c == 'à' {
        'a'
    } else if c == 'ē' || c == 'é' || c == 'ě' || c == 'è' {
        'e'
    } else if c == 'ī' || c == 'í' || c == 'ǐ' || c == 'ì' {
        'i'
    } else if c == 'ō' || c == 'ó' || c == 'ǒ' || c == 'ò' {
        'o'
    } else if c == 'ū' || c == 'ú' || c == 'ǔ' || c == 'ù' {
        'u'
    } else if c == 'ǖ' || c == 'ǘ' || c == 'ǚ' || c == 'ǜ' {
        'ü'
    } else if c == 'ń' || c == 'ň' || c == 'ǹ' {
        'n'
    } else if c == 'ḿ' {
        'm'
    } else {
        c
    }
}

fn plain_vowel(c: char) -> (r: char)
    ensures
        r == plain(c),
{
    reveal(plain);
    match c {
        'ā' | 'á' | 'ǎ' | 'à' => 'a',
        'ē' | 'é' | 'ě' | 'è' => 'e',
        'ī' | 'í' | 'ǐ' | 'ì' => 'i',
        'ō' | 'ó' | 'ǒ' | 'ò' => 'o',
        'ū' | 'ú' | 'ǔ' | 'ù' => 'u',
        'ǖ' | 'ǘ' | 'ǚ' | 'ǜ' => 'ü',
        'ń' | 'ň' | 'ǹ' => 'n',
        'ḿ' => 'm',
        other => other,
    }
}

/// The same letter carrying `tone`, or `None` when it cannot carry one. `v` is
/// marked as `ü`; the nasals follow [`tone_mark`], so there is no tone-2 `n`.
#[verifier::opaque]
pub open spec fn toned(c: char, tone: u8) -> Option<char> {
    let l = ascii_lower(c);
    if !(1 <= tone <= 4) {
        None
    } else if l == 'a' {
        Some(if tone == 1 { 'ā' } else if tone == 2 { 'á' } else if tone == 3 { 'ǎ' } else { 'à' })
    } else if l == 'e' {
        Some(if tone == 1 { 'ē' } else if tone == 2 { 'é' } else if tone == 3 { 'ě' } else { 'è' })
    } else if l == 'i' {
        Some(if tone == 1 { 'ī' } else if tone == 2 { 'í' } else if tone == 3 { 'ǐ' } else { 'ì' })
    } else if l == 'o' {
        Some(if tone == 1 { 'ō' } else if tone == 2 { 'ó' } else if tone == 3 { 'ǒ' } else { 'ò' })
    } else if l == 'u' {
        Some(if tone == 1 { 'ū' } else if tone == 2 { 'ú' } else if tone == 3 { 'ǔ' } else { 'ù' })
    } else if l == 'ü' || l == 'v' {
        Some(if tone == 1 { 'ǖ' } else if tone == 2 { 'ǘ' } else if tone == 3 { 'ǚ' } else { 'ǜ' })
    } else if l == 'n' {
        if tone == 1 {
            Some('ń')
        } else if tone == 3 {
            Some('ň')
        } else if tone == 4 {
            Some('ǹ')
        } else {
            None
        }
    } else if l == 'm' && tone == 1 {
        Some('ḿ')
    } else {
        None
    }
}

fn with_tone(c: char, tone: u8) -> (r: Option<char>)
    ensures
        r == toned(c, tone),
{
    reveal(toned);
    if !(1 <= tone && tone <= 4) {
        return None;
    }
    let l = to_ascii_lower(c);
    if l == 'a' {
        Some(if tone == 1 { 'ā' } else if tone == 2 { 'á' } else if tone == 3 { 'ǎ' } else { 'à' })
    } else if l == 'e' {
        Some(if tone == 1 { 'ē' } else if tone == 2 { 'é' } else if tone == 3 { 'ě' } else { 'è' })
    } else if l == 'i' {
        Some(if tone == 1 { 'ī' } else if tone == 2 { 'í' } else if tone == 3 { 'ǐ' } else { 'ì' })
    } else if l == 'o' {
        Some(if tone == 1 { 'ō' } else if tone == 2 { 'ó' } else if tone == 3 { 'ǒ' } else { 'ò' })
    } else if l == 'u' {
        Some(if tone == 1 { 'ū' } else if tone == 2 { 'ú' } else if tone == 3 { 'ǔ' } else { 'ù' })
    } else if l == 'ü' || l == 'v' {
        Some(if tone == 1 { 'ǖ' } else if tone == 2 { 'ǘ' } else if tone == 3 { 'ǚ' } else { 'ǜ' })
    } else if l == 'n' {
        if tone == 1 {
            Some('ń')
        } else if tone == 3 {
            Some('ň')
        } else if tone == 4 {
            Some('ǹ')
        } else {
            None
        }
    } else if l == 'm' && tone == 1 {
        Some('ḿ')
    } else {
        None
    }
}

/// The letter classes a tone mark looks for, in the order it looks.
pub open spec fn class_a(c: char) -> bool {
    c == 'a' || c == 'A'
}

pub open spec fn class_o(c: char) -> bool {
    c == 'o' || c == 'O'
}

pub open spec fn class_e(c: char) -> bool {
    c == 'e' || c == 'E'
}

pub open spec fn class_iu(c: char) -> bool {
    c == 'i' || c == 'I' || c == 'u' || c == 'U' || c == 'ü' || c == 'Ü' || c == 'v' || c == 'V'
}

pub open spec fn class_nasal(c: char) -> bool {
    c == 'n' || c == 'N' || c == 'm' || c == 'M'
}

/// The first index of `s` whose letter is in `f`.
pub open spec fn first_in(s: Seq<char>, f: spec_fn(char) -> bool) -> Option<int> {
    if exists|k: int| 0 <= k < s.len() && f(s[k]) {
        Some(choose|k: int| 0 <= k < s.len() && f(s[k]) && forall|j: int| 0 <= j < k ==> !f(s[j]))
    } else {
        None
    }
}

/// The last index of `s` whose letter is in `f`.
pub open spec fn last_in(s: Seq<char>, f: spec_fn(char) -> bool) -> Option<int> {
    if exists|k: int| 0 <= k < s.len() && f(s[k]) {
        Some(
            choose|k: int| 0 <= k < s.len() && f(s[k]) && forall|j: int| k < j < s.len() ==> !f(s[j]),
        )
    } else {
        None
    }
}

/// Where a tone mark goes on plain letters: the `a`, else the `o`, else the
/// `e`, else the last of `i`/`u`/`ü`, else the last nasal.
pub open spec fn mark_target(p: Seq<char>) -> Option<int> {
    if first_in(p, |c: char| class_a(c)) is Some {
        first_in(p, |c: char| class_a(c))
    } else if first_in(p, |c: char| class_o(c)) is Some {
        first_in(p, |c: char| class_o(c))
    } else if first_in(p, |c: char| class_e(c)) is Some {
        first_in(p, |c: char| class_e(c))
    } else if last_in(p, |c: char| class_iu(c)) is Some {
        last_in(p, |c: char| class_iu(c))
    } else {
        last_in(p, |c: char| class_nasal(c))
    }
}

/// A syllable reduced to plain letters.
pub open spec fn plain_of(s: Seq<char>) -> Seq<char> {
    s.map_values(|c: char| plain(c))
}

/// `tone` written onto a syllable: the plain letters, with the mark on the
/// letter [`mark_target`] picks. Neutral is the syllable with no mark.
#[verifier::opaque]
pub open spec fn marked(s: Seq<char>, tone: u8) -> Option<Seq<char>> {
    let p = plain_of(s);
    if !(1 <= tone <= 5) {
        None
    } else if tone == 5 {
        Some(p)
    } else {
        match mark_target(p) {
            None => None,
            Some(t) => match toned(p[t], tone) {
                None => None,
                Some(c) => Some(p.update(t, c)),
            },
        }
    }
}

/// Which class of letter a search is for.
enum LetterClass {
    A,
    O,
    E,
    IU,
    Nasal,
}

spec fn class_fn(class: LetterClass) -> spec_fn(char) -> bool {
    match class {
        LetterClass::A => |c: char| class_a(c),
        LetterClass::O => |c: char| class_o(c),
        LetterClass::E => |c: char| class_e(c),
        LetterClass::IU => |c: char| class_iu(c),
        LetterClass::Nasal => |c: char| class_nasal(c),
    }
}

fn in_class(c: char, class: &LetterClass) -> (r: bool)
    ensures
        r == (class_fn(*class))(c),
{
    match class {
        LetterClass::A => c == 'a' || c == 'A',
        LetterClass::O => c == 'o' || c == 'O',
        LetterClass::E => c == 'e' || c == 'E',
        LetterClass::IU => c == 'i' || c == 'I' || c == 'u' || c == 'U' || c == 'ü' || c == 'Ü'
            || c == 'v' || c == 'V',
        LetterClass::Nasal => c == 'n' || c == 'N' || c == 'm' || c == 'M',
    }
}

fn find_first(p: &Vec<char>, class: LetterClass) -> (r: Option<usize>)
    ensures
        match r {
            None => first_in(p@, class_fn(class)) is None,
            Some(k) => first_in(p@, class_fn(class)) == Some(k as int),
        },
{
    let ghost f = class_fn(class);
    let mut i: usize = 0;
    while i < p.len()
        invariant
            i <= p.len(),
            f == class_fn(class),
            forall|j: int| 0 <= j < i ==> !f(p@[j]),
        decreases p.len() - i,
    {
        if in_class(p[i], &class) {
            proof {
                let k = i as int;
                assert(0 <= k < p@.len() && f(p@[k]));
                let c = choose|k: int| 0 <= k < p@.len() && f(p@[k]) && forall|j: int| 0 <= j < k ==> !f(p@[j]);
                if c < k {
                } else if c > k {
                    assert(!f(p@[k]));
                }
            }
            return Some(i);
        }
        i += 1;
    }
    None
}

fn find_last(p: &Vec<char>, class: LetterClass) -> (r: Option<usize>)
    ensures
        match r {
            None => last_in(p@, class_fn(class)) is None,
            Some(k) => last_in(p@, class_fn(class)) == Some(k as int),
        },
{
    let ghost f = class_fn(class);
    let mut i: usize = p.len();
    while i > 0
        invariant
            i <= p.len(),
            f == class_fn(class),
            forall|j: int| i <= j < p.len() ==> !f(p@[j]),
        decreases i,
    {
        if in_class(p[i - 1], &class) {
            proof {
                let k = i - 1;
                assert(0 <= k < p@.len() && f(p@[k]));
                let c = choose|k: int| 0 <= k < p@.len() && f(p@[k]) && forall|j: int| k < j < p@.len() ==> !f(p@[j]);
                if c < k {
                    assert(!f(p@[k]));
                } else if c > k {
                }
            }
            return Some(i - 1);
        }
        i -= 1;
    }
    None
}

proof fn lemma_first_in(s: Seq<char>, f: spec_fn(char) -> bool)
    ensures
        first_in(s, f) matches Some(k) ==> 0 <= k < s.len(),
{
    if exists|k: int| 0 <= k < s.len() && f(s[k]) {
        let w = choose|k: int| 0 <= k < s.len() && f(s[k]);
        lemma_least(s, f, w);
    }
}

proof fn lemma_least(s: Seq<char>, f: spec_fn(char) -> bool, w: int)
    requires
        0 <= w < s.len(),
        f(s[w]),
    ensures
        exists|k: int| 0 <= k < s.len() && f(s[k]) && forall|j: int| 0 <= j < k ==> !f(s[j]),
    decreases w,
{
    if exists|j: int| 0 <= j < w && f(s[j]) {
        let j = choose|j: int| 0 <= j < w && f(s[j]);
        lemma_least(s, f, j);
    } else {
        assert(0 <= w < s.len() && f(s[w]) && forall|j: int| 0 <= j < w ==> !f(s[j]));
    }
}

proof fn lemma_greatest(s: Seq<char>, f: spec_fn(char) -> bool, w: int)
    requires
        0 <= w < s.len(),
        f(s[w]),
    ensures
        exists|k: int| 0 <= k < s.len() && f(s[k]) && forall|j: int| k < j < s.len() ==> !f(s[j]),
    decreases s.len() - w,
{
    if exists|j: int| w < j < s.len() && f(s[j]) {
        let j = choose|j: int| w < j < s.len() && f(s[j]);
        lemma_greatest(s, f, j);
    } else {
        assert(0 <= w < s.len() && f(s[w]) && forall|j: int| w < j < s.len() ==> !f(s[j]));
    }
}

proof fn lemma_last_in(s: Seq<char>, f: spec_fn(char) -> bool)
    ensures
        last_in(s, f) matches Some(k) ==> 0 <= k < s.len(),
{
    if exists|k: int| 0 <= k < s.len() && f(s[k]) {
        let w = choose|k: int| 0 <= k < s.len() && f(s[k]);
        lemma_greatest(s, f, w);
    }
}

fn find_target(p: &Vec<char>) -> (r: Option<usize>)
    ensures
        match r {
            None => mark_target(p@) is None,
            Some(t) => mark_target(p@) == Some(t as int) && t < p.len(),
        },
{
    proof {
        lemma_first_in(p@, |c: char| class_a(c));
        lemma_first_in(p@, |c: char| class_o(c));
        lemma_first_in(p@, |c: char| class_e(c));
        lemma_last_in(p@, |c: char| class_iu(c));
        lemma_last_in(p@, |c: char| class_nasal(c));
    }
    assert(class_fn(LetterClass::A) == (|c: char| class_a(c)));
    assert(class_fn(LetterClass::O) == (|c: char| class_o(c)));
    assert(class_fn(LetterClass::E) == (|c: char| class_e(c)));
    assert(class_fn(LetterClass::IU) == (|c: char| class_iu(c)));
    assert(class_fn(LetterClass::Nasal) == (|c: char| class_nasal(c)));
    match find_first(p, LetterClass::A) {
        Some(k) => return Some(k),
        None => {},
    }
    match find_first(p, LetterClass::O) {
        Some(k) => return Some(k),
        None => {},
    }
    match find_first(p, LetterClass::E) {
        Some(k) => return Some(k),
        None => {},
    }
    match find_last(p, LetterClass::IU) {
        Some(k) => return Some(k),
        None => {},
    }
    find_last(p, LetterClass::Nasal)
}

fn plain_letters(syllable: &str) -> (p: Vec<char>)
    ensures
        p@ == plain_of(syllable@),
{
    let chars = chars_of(syllable);
    let mut p: Vec<char> = Vec::new();
    let mut i: usize = 0;
    while i < chars.len()
        invariant
            i <= chars.len(),
            chars@ == syllable@,
            p@ == plain_of(chars@.take(i as int)),
        decreases chars.len() - i,
    {
        p.push(plain_vowel(chars[i]));
        assert(plain_of(chars@.take(i + 1)) =~= plain_of(chars@.take(i as int)).push(
            plain(chars@[i as int]),
        ));
        i += 1;
    }
    assert(chars@.take(chars.len() as int) == chars@);
    p
}

/// Write `tone` onto one syllable, in the place a pinyin tone mark belongs.
///
/// The syllable is reduced to plain letters first, so a syllable that already
/// carries a tone is changed rather than stacked on, and a neutral tone (5) is
/// the syllable with no mark at all. `None` for a tone outside `1..=5`, and for
/// a syllable with nothing a mark can sit on.
pub fn mark_syllable(syllable: &str, tone: u8) -> (res: Option<String>)
    ensures
        match res {
            None => marked(syllable@, tone) is None,
            Some(s) => marked(syllable@, tone) == Some(s@),
        },
{
    reveal(marked);
    if !(1 <= tone && tone <= 5) {
        return None;
    }
    let p = plain_letters(syllable);
    if tone == 5 {
        return Some(string_of(&p));
    }
    let target = find_target(&p);
    match target {
        None => None,
        Some(t) => {
            match with_tone(p[t], tone) {
                None => None,
                Some(c) => {
                    let mut q = p.clone();
                    q.set(t, c);
                    Some(string_of(&q))
                },
            }
        },
    }
}

/// The first span `f` accepts.
pub open spec fn first_span(sp: Seq<(int, int)>, f: spec_fn((int, int)) -> bool) -> Option<int> {
    if exists|k: int| 0 <= k < sp.len() && f(sp[k]) {
        Some(choose|k: int| 0 <= k < sp.len() && f(sp[k]) && forall|j: int| 0 <= j < k ==> !f(sp[j]))
    } else {
        None
    }
}

/// The syllable a caret belongs to: the first one it is inside or at the end
/// of, else the first one it is at the start of.
pub open spec fn caret_piece(r: Seq<char>, caret: int) -> Option<int> {
    let inside = |p: (int, int)| p.0 < caret <= p.1;
    let before = |p: (int, int)| caret == p.0;
    if first_span(pieces(r), inside) is Some {
        first_span(pieces(r), inside)
    } else {
        first_span(pieces(r), before)
    }
}

/// The reading with the caret's syllable rewritten to carry `tone`.
pub open spec fn marked_at(r: Seq<char>, caret: int, tone: u8) -> Option<Seq<char>> {
    if !readable(r) {
        None
    } else {
        match caret_piece(r, caret) {
            None => None,
            Some(k) => match marked(piece_text(r, k), tone) {
                None => None,
                Some(m) => Some(
                    r.subrange(0, pieces(r)[k].0) + m + r.subrange(pieces(r)[k].1, r.len() as int),
                ),
            },
        }
    }
}

proof fn lemma_first_span(sp: Seq<(int, int)>, f: spec_fn((int, int)) -> bool, i: int)
    requires
        0 <= i < sp.len(),
        f(sp[i]),
        forall|j: int| 0 <= j < i ==> !f(sp[j]),
    ensures
        first_span(sp, f) == Some(i),
{
    let c = choose|k: int| 0 <= k < sp.len() && f(sp[k]) && forall|j: int| 0 <= j < k ==> !f(sp[j]);
    if c < i {
    } else if c > i {
        assert(!f(sp[i]));
    }
}

fn caret_index(spans: &Vec<(Syllable, Range<usize>)>, caret: usize, Ghost(r): Ghost<Seq<char>>) -> (res:
    Option<usize>)
    requires
        spans.len() == pieces(r).len(),
        forall|j: int|
            0 <= j < spans.len() ==> (#[trigger] spans@[j]).1.start == pieces(r)[j].0 && spans@[j].1.end
                == pieces(r)[j].1,
    ensures
        match res {
            None => caret_piece(r, caret as int) is None,
            Some(x) => caret_piece(r, caret as int) == Some(x as int) && x < spans.len(),
        },
{
    let ghost sp = pieces(r);
    let ghost inside = |p: (int, int)| p.0 < caret <= p.1;
    let ghost before = |p: (int, int)| caret == p.0;
    let mut k: usize = 0;
    while k < spans.len()
        invariant
            k <= spans.len(),
            spans.len() == sp.len(),
            sp == pieces(r),
            inside == (|p: (int, int)| p.0 < caret <= p.1),
            before == (|p: (int, int)| caret == p.0),
            forall|j: int|
                0 <= j < spans.len() ==> (#[trigger] spans@[j]).1.start == sp[j].0 && spans@[j].1.end
                    == sp[j].1,
            forall|j: int| 0 <= j < k ==> !inside(sp[j]),
        decreases spans.len() - k,
    {
        if caret > spans[k].1.start && caret <= spans[k].1.end {
            proof {
                lemma_first_span(sp, inside, k as int);
            }
            return Some(k);
        }
        k += 1;
    }
    assert(first_span(sp, inside) is None);
    let mut k: usize = 0;
    while k < spans.len()
        invariant
            first_span(sp, inside) is None,
            k <= spans.len(),
            spans.len() == sp.len(),
            sp == pieces(r),
            inside == (|p: (int, int)| p.0 < caret <= p.1),
            before == (|p: (int, int)| caret == p.0),
            forall|j: int|
                0 <= j < spans.len() ==> (#[trigger] spans@[j]).1.start == sp[j].0 && spans@[j].1.end
                    == sp[j].1,
            forall|j: int| 0 <= j < k ==> !before(sp[j]),
        decreases spans.len() - k,
    {
        if caret == spans[k].1.start {
            proof {
                lemma_first_span(sp, before, k as int);
            }
            return Some(k);
        }
        k += 1;
    }
    None
}

/// Write a tone onto the syllable the cursor is in.
///
/// `caret` is a **character** offset into `reading`. A caret at the end of a
/// syllable belongs to it, and so does one at its start. Returns the rewritten
/// reading and where the cursor lands, which is where it already was: a mark
/// replaces one letter with one letter.
pub fn mark_tone_at(reading: &str, caret: usize, tone: u8) -> (res: Option<(String, usize)>)
    ensures
        match res {
            None => marked_at(reading@, caret as int, tone) is None,
            Some((s, c)) => marked_at(reading@, caret as int, tone) == Some(s@) && c == caret,
        },
{
    let spans = match syllables_with_spans(reading) {
        None => return None,
        Some(spans) => spans,
    };
    let k = match caret_index(&spans, caret, Ghost(reading@)) {
        None => return None,
        Some(k) => k,
    };
    let marked_text = match mark_syllable(spans[k].0.text.as_str(), tone) {
        None => return None,
        Some(m) => m,
    };
    proof {
        lemma_piece_spans(reading@, 0);
    }
    let characters = chars_of(reading);
    let start = spans[k].1.start;
    let end = spans[k].1.end;
    let mut out = string_of_range(&characters, 0, start);
    append_str(&mut out, marked_text.as_str());
    let tail = string_of_range(&characters, end, characters.len());
    append_str(&mut out, tail.as_str());
    Some((out, caret))
}

// ---------------------------------------------------------------------------
// Sandhi
// ---------------------------------------------------------------------------

/// The tone of syllable `i` after the rules for 不 and 一, which look only at the
/// dictionary tone that follows.
pub open spec fn word_sandhi(chars: Seq<char>, cit: Seq<u8>, i: int) -> u8 {
    let t = cit[i];
    if i < chars.len() && chars[i] == '不' && t == 4 && i + 1 < cit.len() && cit[i + 1] == 4 {
        2
    } else if i < chars.len() && chars[i] == '一' && t == 1 && i + 1 < cit.len() {
        if cit[i + 1] == 4 {
            2
        } else {
            4
        }
    } else {
        t
    }
}

/// The tones after the rules for 不 and 一.
pub open spec fn after_word_sandhi(chars: Seq<char>, cit: Seq<u8>) -> Seq<u8> {
    Seq::new(cit.len(), |i: int| word_sandhi(chars, cit, i))
}

/// The tones as spoken: after the rules for 不 and 一, every third tone that is
/// followed by another third tone becomes second, so a run of thirds keeps only
/// its last.
pub open spec fn spoken_of(chars: Seq<char>, cit: Seq<u8>) -> Seq<u8> {
    let p = after_word_sandhi(chars, cit);
    Seq::new(p.len(), |i: int| if p[i] == 3 && i + 1 < p.len() && p[i + 1] == 3 { 2u8 } else { p[i] })
}

/// The spoken tone of syllable `i`, rule by rule, from the dictionary's tones
/// of it and of the syllable after it: a third tone before a third tone is
/// second; 不 at tone 4 before a fourth tone is second; 一 at tone 1 before a
/// fourth tone is second, and before any other tone fourth; a last syllable,
/// and anything else, keeps its tone.
pub open spec fn sandhi_rule(chars: Seq<char>, cit: Seq<u8>, i: int) -> u8 {
    let next = i + 1 < cit.len();
    if cit[i] == 3 && next && cit[i + 1] == 3 {
        2
    } else if i < chars.len() && chars[i] == '不' && cit[i] == 4 && next && cit[i + 1] == 4 {
        2
    } else if i < chars.len() && chars[i] == '一' && cit[i] == 1 && next && cit[i + 1] == 4 {
        2
    } else if i < chars.len() && chars[i] == '一' && cit[i] == 1 && next {
        4
    } else {
        cit[i]
    }
}

/// Sandhi follows its rules syllable by syllable: a third tone before a third
/// tone becomes second, 不 at tone 4 before a fourth tone becomes second, 一 at
/// tone 1 becomes second before a fourth tone and fourth before any other, and
/// every other syllable, the last one included, keeps the dictionary's tone.
pub proof fn law_sandhi_follows_its_rules(chars: Seq<char>, cit: Seq<u8>)
    ensures
        spoken_of(chars, cit).len() == cit.len(),
        forall|i: int|
            0 <= i < cit.len() ==> #[trigger] spoken_of(chars, cit)[i] == sandhi_rule(chars, cit, i),
        forall|i: int|
            0 <= i < cit.len() - 1 && i < chars.len() && chars[i] == '一' && cit[i] == 1
                ==> #[trigger] spoken_of(chars, cit)[i] == if cit[i + 1] == 4 {
                2u8
            } else {
                4u8
            },
        forall|i: int|
            0 <= i < cit.len() - 1 && i < chars.len() && chars[i] == '不' && cit[i] == 4
                ==> #[trigger] spoken_of(chars, cit)[i] == if cit[i + 1] == 4 {
                2u8
            } else {
                4u8
            },
        forall|i: int|
            0 <= i < cit.len() && cit[i] == 3 ==> #[trigger] spoken_of(chars, cit)[i] == if i + 1
                < cit.len() && cit[i + 1] == 3 {
                2u8
            } else {
                3u8
            },
{
    let p = after_word_sandhi(chars, cit);
    assert forall|i: int| 0 <= i < cit.len() implies #[trigger] spoken_of(chars, cit)[i]
        == sandhi_rule(chars, cit, i) by {
        assert(p[i] == word_sandhi(chars, cit, i));
        if i + 1 < cit.len() {
            assert(p[i + 1] == word_sandhi(chars, cit, i + 1));
        }
    }
}

/// The tones as they are actually spoken, given the dictionary's own.
///
/// Third tone before third tone becomes second (a run shortens all but its
/// last); 不 at tone 4 becomes second before a fourth tone; 一 at tone 1 becomes
/// second before a fourth tone and fourth before anything else, and a final 一
/// is left alone. The characters are needed because the last two rules are
/// about which character it is.
pub fn spoken_tones(characters: &[char], citation: &[u8]) -> (res: Vec<u8>)
    ensures
        res@ == spoken_of(characters@, citation@),
        res@.len() == citation@.len(),
        forall|i: int|
            0 <= i < citation@.len() ==> #[trigger] res@[i] == sandhi_rule(
                characters@,
                citation@,
                i,
            ),
{
    proof {
        law_sandhi_follows_its_rules(characters@, citation@);
    }
    let n = citation.len();
    let mut p: Vec<u8> = Vec::new();
    let mut i: usize = 0;
    while i < n
        invariant
            n == citation@.len(),
            i <= n,
            p@ == after_word_sandhi(characters@, citation@).take(i as int),
        decreases n - i,
    {
        let t: u8 = citation[i];
        let mut u: u8 = t;
        if i < characters.len() && i + 1 < n {
            let next = citation[i + 1];
            if characters[i] == '不' && t == 4 && next == 4 {
                u = 2;
            } else if characters[i] == '一' && t == 1 {
                u = if next == 4 { 2 } else { 4 };
            }
        }
        p.push(u);
        assert(p@ =~= after_word_sandhi(characters@, citation@).take(i + 1));
        i += 1;
    }
    assert(p@ =~= after_word_sandhi(characters@, citation@));
    let mut out: Vec<u8> = Vec::new();
    let mut i: usize = 0;
    while i < n
        invariant
            n == p@.len(),
            i <= n,
            p@ == after_word_sandhi(characters@, citation@),
            out@ == spoken_of(characters@, citation@).take(i as int),
        decreases n - i,
    {
        let v = if p[i] == 3 && i + 1 < n && p[i + 1] == 3 { 2 } else { p[i] };
        out.push(v);
        assert(out@ =~= spoken_of(characters@, citation@).take(i + 1));
        i += 1;
    }
    assert(out@ =~= spoken_of(characters@, citation@));
    out
}

/// Sandhi keeps the shape of a word: one tone per syllable, the last syllable
/// as the dictionary has it, no third tone left before another third tone, and
/// every change one of the three rules (third to second, 不 from fourth to
/// second, 一 from first to second or fourth). A word with neither 不 nor 一 only
/// has its third tones before third tones made second.
pub proof fn law_sandhi_changes_only_what_its_rules_name(chars: Seq<char>, cit: Seq<u8>)
    ensures
        spoken_of(chars, cit).len() == cit.len(),
        cit.len() > 0 ==> spoken_of(chars, cit).last() == cit.last(),
        forall|i: int|
            0 <= i < cit.len() - 1 ==> !(#[trigger] spoken_of(chars, cit)[i] == 3 && spoken_of(
                chars,
                cit,
            )[i + 1] == 3),
        forall|i: int|
            0 <= i < cit.len() && #[trigger] spoken_of(chars, cit)[i] != cit[i] ==> {
                ||| cit[i] == 3 && spoken_of(chars, cit)[i] == 2
                ||| i < chars.len() && chars[i] == '不' && cit[i] == 4 && spoken_of(chars, cit)[i]
                    == 2
                ||| i < chars.len() && chars[i] == '一' && cit[i] == 1 && (spoken_of(chars, cit)[i]
                    == 2 || spoken_of(chars, cit)[i] == 4)
            },
        (forall|j: int| 0 <= j < chars.len() ==> #[trigger] chars[j] != '不' && chars[j] != '一')
            ==> forall|i: int|
            0 <= i < cit.len() ==> #[trigger] spoken_of(chars, cit)[i] == if cit[i] == 3 && i + 1
                < cit.len() && cit[i + 1] == 3 {
                2u8
            } else {
                cit[i]
            },
{
    let p = after_word_sandhi(chars, cit);
    let r = spoken_of(chars, cit);
    assert forall|i: int| 0 <= i < cit.len() && #[trigger] p[i] == 3 implies cit[i] == 3 by {
        assert(p[i] == word_sandhi(chars, cit, i));
    }
    assert forall|i: int| 0 <= i < cit.len() - 1 implies !(#[trigger] r[i] == 3 && r[i + 1]
        == 3) by {
        assert(p[i + 1] == word_sandhi(chars, cit, i + 1));
    }
    assert forall|i: int| 0 <= i < cit.len() && #[trigger] r[i] != cit[i] implies {
        ||| cit[i] == 3 && r[i] == 2
        ||| i < chars.len() && chars[i] == '不' && cit[i] == 4 && r[i] == 2
        ||| i < chars.len() && chars[i] == '一' && cit[i] == 1 && (r[i] == 2 || r[i] == 4)
    } by {
        assert(p[i] == word_sandhi(chars, cit, i));
    }
    if cit.len() > 0 {
        assert(p[cit.len() - 1] == word_sandhi(chars, cit, cit.len() - 1));
    }
    if forall|j: int| 0 <= j < chars.len() ==> #[trigger] chars[j] != '不' && chars[j] != '一' {
        assert forall|i: int| 0 <= i < cit.len() implies #[trigger] r[i] == if cit[i] == 3 && i
            + 1 < cit.len() && cit[i + 1] == 3 {
            2u8
        } else {
            cit[i]
        } by {
            assert(p[i] == word_sandhi(chars, cit, i));
            if i + 1 < cit.len() {
                assert(p[i + 1] == word_sandhi(chars, cit, i + 1));
            }
        }
    }
}

// ---------------------------------------------------------------------------
// Tone targets
// ---------------------------------------------------------------------------

/// One syllable of a tone target: which character, how it reads, and which tone
/// to score it against.
#[derive(Clone, Debug, PartialEq)]
pub struct TargetSyllable {
    pub ch: char,
    /// The syllable as the dictionary writes it, e.g. `"nǐ"`.
    pub reading: String,
    /// The dictionary's tone, before sandhi.
    pub citation: u8,
    /// The tone actually spoken, after sandhi, which is what a recording is
    /// scored against.
    pub spoken: u8,
}

/// What to score a word or character against.
#[derive(Clone, Debug, PartialEq)]
pub struct ToneTarget {
    pub syllables: Vec<TargetSyllable>,
    /// True when sandhi changed something, so the interface can say why the tone
    /// asked for is not the one printed in a dictionary.
    pub sandhi_applied: bool,
    /// One plain sentence about the tones.
    pub detail: String,
}

/// How many tones are ones that can be judged: `1..=5`.
pub open spec fn scorable_count(ts: Seq<u8>) -> nat
    decreases ts.len(),
{
    if ts.len() == 0 {
        0
    } else {
        scorable_count(ts.drop_last()) + if 1 <= ts.last() <= 5 { 1nat } else { 0nat }
    }
}

impl ToneTarget {
    /// The spoken tones of the target, in order.
    pub open spec fn spoken_seq(&self) -> Seq<u8> {
        Seq::new(self.syllables@.len(), |k: int| self.syllables@[k].spoken)
    }

    /// The dictionary reading of each syllable, in order.
    pub open spec fn readings(&self) -> Seq<Seq<char>> {
        Seq::new(self.syllables@.len(), |k: int| self.syllables@[k].reading@)
    }

    /// The tones to score against, in order.
    pub fn spoken(&self) -> (r: Vec<u8>)
        ensures
            r@ == self.spoken_seq(),
    {
        let mut out: Vec<u8> = Vec::new();
        let mut k: usize = 0;
        while k < self.syllables.len()
            invariant
                k <= self.syllables.len(),
                out@ == self.spoken_seq().take(k as int),
            decreases self.syllables.len() - k,
        {
            out.push(self.syllables[k].spoken);
            assert(out@ =~= self.spoken_seq().take(k + 1));
            k += 1;
        }
        assert(out@ =~= self.spoken_seq());
        out
    }

    /// How many syllables carry a tone that can actually be judged: all five
    /// tones count, neutral included.
    pub fn scorable(&self) -> (r: usize)
        ensures
            r == scorable_count(self.spoken_seq()),
    {
        let mut count: usize = 0;
        let mut k: usize = 0;
        while k < self.syllables.len()
            invariant
                k <= self.syllables.len(),
                count == scorable_count(self.spoken_seq().take(k as int)),
                count <= k,
            decreases self.syllables.len() - k,
        {
            let t = self.syllables[k].spoken;
            assert(self.spoken_seq().take(k + 1).drop_last() =~= self.spoken_seq().take(k as int));
            if 1 <= t && t <= 5 {
                count += 1;
            }
            k += 1;
        }
        assert(self.spoken_seq().take(k as int) =~= self.spoken_seq());
        count
    }
}

/// A tone in words, for a sentence: the full tones as digits, the neutral tone
/// spelled out.
pub open spec fn tone_word(t: u8) -> Seq<char> {
    if t == 5 {
        "neutral"@
    } else {
        decimal(t as nat)
    }
}

/// `"2 + 3"`, or `"1 + neutral"`.
pub open spec fn joined_tones(ts: Seq<u8>) -> Seq<char> {
    join(Seq::new(ts.len(), |k: int| tone_word(ts[k])), " + "@)
}

/// The sentence a tone target carries.
pub open spec fn target_detail(spoken: Seq<u8>, citation: Seq<u8>) -> Seq<char> {
    if spoken != citation {
        "Said as a word this is "@ + joined_tones(spoken) + ", not the "@ + joined_tones(citation)
            + " a dictionary lists syllable by syllable — tones are scored as they are spoken."@
    } else {
        "Scored against "@ + joined_tones(spoken) + "."@
    }
}

fn join_tones(tones: &Vec<u8>) -> (r: String)
    ensures
        r@ == joined_tones(tones@),
{
    let mut words: Vec<String> = Vec::new();
    let mut k: usize = 0;
    while k < tones.len()
        invariant
            k <= tones.len(),
            words.len() == k,
            forall|j: int| 0 <= j < k ==> (#[trigger] words@[j])@ == tone_word(tones@[j]),
        decreases tones.len() - k,
    {
        let t: u8 = tones[k];
        let w = if t == 5 {
            "neutral".to_owned()
        } else {
            decimal_string(t as u64)
        };
        words.push(w);
        k += 1;
    }
    assert(views(words@) =~= Seq::new(tones@.len(), |k: int| tone_word(tones@[k])));
    join_strings(&words, " + ")
}

fn same_tones(a: &Vec<u8>, b: &Vec<u8>) -> (r: bool)
    ensures
        r == (a@ == b@),
{
    if a.len() != b.len() {
        return false;
    }
    let mut k: usize = 0;
    while k < a.len()
        invariant
            a.len() == b.len(),
            k <= a.len(),
            forall|j: int| 0 <= j < k ==> a@[j] == b@[j],
        decreases a.len() - k,
    {
        if a[k] != b[k] {
            return false;
        }
        k += 1;
    }
    assert(a@ =~= b@);
    true
}

fn target_syllables(
    characters: &Vec<char>,
    list: &Vec<Syllable>,
    citation: &Vec<u8>,
    spoken: &Vec<u8>,
) -> (out: Vec<TargetSyllable>)
    requires
        list.len() == characters.len(),
        citation.len() == list.len(),
        spoken.len() == list.len(),
    ensures
        out.len() == list.len(),
        forall|j: int|
            0 <= j < list.len() ==> {
                &&& (#[trigger] out@[j]).ch == characters@[j]
                &&& out@[j].reading@ == list@[j].text@
                &&& out@[j].citation == citation@[j]
                &&& out@[j].spoken == spoken@[j]
            },
{
    let mut acc: Vec<TargetSyllable> = Vec::new();
    let mut m: usize = 0;
    while m < list.len()
        invariant
            m <= list.len(),
            list.len() == characters.len(),
            citation.len() == list.len(),
            spoken.len() == list.len(),
            acc.len() == m,
            forall|j: int|
                0 <= j < m ==> {
                    &&& (#[trigger] acc@[j]).ch == characters@[j]
                    &&& acc@[j].reading@ == list@[j].text@
                    &&& acc@[j].citation == citation@[j]
                    &&& acc@[j].spoken == spoken@[j]
                },
        decreases list.len() - m,
    {
        let reading = list[m].text.clone();
        let t = TargetSyllable { ch: characters[m], reading, citation: citation[m], spoken: spoken[m] };
        let ghost before = acc@;
        acc.push(t);
        proof {
            lemma_push(before, t);
        }
        m += 1;
    }
    acc
}

/// Build the tone target for `text`, read as `reading`.
///
/// `None` when the reading does not divide into exactly as many syllables as
/// there are characters: that refusal is what makes the splitting rule safe,
/// because a reading it gets wrong is refused rather than scored out of step.
pub fn tone_target(text: &str, reading: &str) -> (res: Option<ToneTarget>)
    ensures
        match res {
            None => !aligns(text@, reading@),
            Some(t) => {
                let cit = tones_of(reading@);
                let spoken = spoken_of(text@, cit);
                &&& aligns(text@, reading@)
                &&& t.syllables.len() == text@.len()
                &&& forall|k: int|
                    0 <= k < t.syllables.len() ==> {
                        &&& (#[trigger] t.syllables[k]).ch == text@[k]
                        &&& t.syllables[k].reading@ == syllables_of(reading@)[k].0
                        &&& t.syllables[k].citation == cit[k]
                        &&& t.syllables[k].spoken == spoken[k]
                    }
                &&& t.sandhi_applied == (spoken != cit)
                &&& t.detail@ == target_detail(spoken, cit)
            },
        },
{
    let characters = chars_of(text);
    let list = match syllables(reading) {
        None => return None,
        Some(list) => list,
    };
    if characters.len() == 0 || list.len() != characters.len() {
        return None;
    }
    let ghost cit_spec = tones_of(reading@);
    let mut citation: Vec<u8> = Vec::new();
    let mut k: usize = 0;
    while k < list.len()
        invariant
            k <= list.len(),
            list.len() == syllables_of(reading@).len(),
            cit_spec == tones_of(reading@),
            forall|j: int| 0 <= j < list.len() ==> (#[trigger] list@[j]).tone == syllables_of(reading@)[j].1,
            citation@ == cit_spec.take(k as int),
        decreases list.len() - k,
    {
        citation.push(list[k].tone);
        assert(citation@ =~= cit_spec.take(k + 1));
        k += 1;
    }
    assert(citation@ =~= cit_spec);
    let spoken = spoken_tones(characters.as_slice(), citation.as_slice());
    let syllables_out = target_syllables(&characters, &list, &citation, &spoken);
    let sandhi_applied = !same_tones(&spoken, &citation);
    let detail = if sandhi_applied {
        let mut d = "Said as a word this is ".to_owned();
        append_str(&mut d, join_tones(&spoken).as_str());
        append_str(&mut d, ", not the ");
        append_str(&mut d, join_tones(&citation).as_str());
        append_str(
            &mut d,
            " a dictionary lists syllable by syllable — tones are scored as they are spoken.",
        );
        d
    } else {
        let mut d = "Scored against ".to_owned();
        append_str(&mut d, join_tones(&spoken).as_str());
        append_str(&mut d, ".");
        d
    };
    Some(ToneTarget { syllables: syllables_out, sandhi_applied, detail })
}

// ---------------------------------------------------------------------------
// What was heard
// ---------------------------------------------------------------------------

/// What one character of a reading becomes once its tone is set aside: tone
/// marks dropped, `ü` kept apart from `u` (as `v`), the syllabic nasals kept as
/// letters, other ASCII letters lowercased, and anything else dropped.
#[verifier::opaque]
pub open spec fn base_char(c: char) -> Option<char> {
    if c == 'a' || c == 'ā' || c == 'á' || c == 'ǎ' || c == 'à' {
        Some('a')
    } else if c == 'e' || c == 'ē' || c == 'é' || c == 'ě' || c == 'è' || c == 'ê' {
        Some('e')
    } else if c == 'i' || c == 'ī' || c == 'í' || c == 'ǐ' || c == 'ì' {
        Some('i')
    } else if c == 'o' || c == 'ō' || c == 'ó' || c == 'ǒ' || c == 'ò' {
        Some('o')
    } else if c == 'u' || c == 'ū' || c == 'ú' || c == 'ǔ' || c == 'ù' {
        Some('u')
    } else if c == 'ü' || c == 'ǖ' || c == 'ǘ' || c == 'ǚ' || c == 'ǜ' || c == 'v' {
        Some('v')
    } else if c == 'n' || c == 'ń' || c == 'ň' || c == 'ǹ' {
        Some('n')
    } else if c == 'm' || c == 'ḿ' {
        Some('m')
    } else if ascii_letter(c) {
        Some(ascii_lower(c))
    } else {
        None
    }
}

fn base_letter(c: char) -> (r: Option<char>)
    ensures
        r == base_char(c),
{
    reveal(base_char);
    match c {
        'a' | 'ā' | 'á' | 'ǎ' | 'à' => Some('a'),
        'e' | 'ē' | 'é' | 'ě' | 'è' | 'ê' => Some('e'),
        'i' | 'ī' | 'í' | 'ǐ' | 'ì' => Some('i'),
        'o' | 'ō' | 'ó' | 'ǒ' | 'ò' => Some('o'),
        'u' | 'ū' | 'ú' | 'ǔ' | 'ù' => Some('u'),
        'ü' | 'ǖ' | 'ǘ' | 'ǚ' | 'ǜ' | 'v' => Some('v'),
        'n' | 'ń' | 'ň' | 'ǹ' => Some('n'),
        'm' | 'ḿ' => Some('m'),
        other => {
            if ('a' <= other && other <= 'z') || ('A' <= other && other <= 'Z') {
                Some(to_ascii_lower(other))
            } else {
                None
            }
        },
    }
}

/// A reading with its tone taken off, character by character.
pub open spec fn base_of(s: Seq<char>) -> Seq<char>
    decreases s.len(),
{
    if s.len() == 0 {
        seq![]
    } else {
        let rest = base_of(s.drop_last());
        match base_char(s.last()) {
            Some(x) => rest.push(x),
            None => rest,
        }
    }
}

/// A reading with its tone taken off: `nǐ` → `ni`, `nǚ` → `nv`.
///
/// `ü` is kept as its own letter rather than folded into `u`: 女 (`nǚ`) and 努
/// (`nǔ`) are different syllables.
pub fn base(reading: &str) -> (r: String)
    ensures
        r@ == base_of(reading@),
{
    let chars = chars_of(reading);
    let mut out = String::new();
    let mut k: usize = 0;
    while k < chars.len()
        invariant
            k <= chars.len(),
            chars@ == reading@,
            out@ == base_of(chars@.take(k as int)),
        decreases chars.len() - k,
    {
        let ghost before = chars@.take(k as int);
        assert(chars@.take(k + 1).drop_last() =~= before);
        match base_letter(chars[k]) {
            Some(x) => push_char(&mut out, x),
            None => {},
        }
        k += 1;
    }
    assert(chars@.take(chars.len() as int) =~= chars@);
    out
}


/// A reading without its tone is small ASCII letters only, taking the tone off
/// again changes nothing, and every form of `ü`, like `v`, becomes `v` and never
/// `u`.
pub proof fn law_a_base_is_small_letters_and_its_own_base(s: Seq<char>)
    ensures
        forall|i: int| 0 <= i < base_of(s).len() ==> 'a' <= #[trigger] base_of(s)[i] <= 'z',
        base_of(base_of(s)) == base_of(s),
        forall|c: char|
            c == 'ü' || c == 'ǖ' || c == 'ǘ' || c == 'ǚ' || c == 'ǜ' || c == 'v' ==> base_of(
                seq![c],
            ) == seq!['v'],
    decreases s.len(),
{
    reveal(base_char);
    assert forall|c: char|
        c == 'ü' || c == 'ǖ' || c == 'ǘ' || c == 'ǚ' || c == 'ǜ' || c == 'v' implies base_of(
        seq![c],
    ) == seq!['v'] by {
        assert(seq![c].drop_last() =~= Seq::<char>::empty());
        assert(seq![c].last() == c);
        assert(base_of(Seq::<char>::empty()) == Seq::<char>::empty());
        assert(base_of(seq![c]) == base_of(Seq::<char>::empty()).push('v'));
        assert(Seq::<char>::empty().push('v') =~= seq!['v']);
    }
    if s.len() > 0 {
        law_a_base_is_small_letters_and_its_own_base(s.drop_last());
        let rest = base_of(s.drop_last());
        match base_char(s.last()) {
            Some(x) => {
                assert('a' <= x <= 'z');
                assert(base_char(x) == Some(x));
                assert(rest.push(x).drop_last() =~= rest);
                assert(base_of(rest.push(x)) == base_of(rest).push(x));
            },
            None => {},
        }
    }
}

/// One syllable of a transcription, beside the one the exercise asked for.
#[derive(Clone, Debug, PartialEq)]
pub struct HeardSyllable {
    /// The syllable as heard, plain: `shi`, with no tone mark (see [`base`]).
    pub base: String,
    /// The syllable as the dictionary reads the character the recogniser wrote,
    /// tone mark included: `shì`. Shown only where the sound did not match.
    pub reading: String,
    /// The syllable the exercise asked for, plain: `si`.
    pub wanted: String,
    /// The syllable the exercise asked for as the dictionary writes it: `sì`.
    pub wanted_reading: String,
    /// True when the two are the same sound once the tone is set aside.
    pub matches: bool,
}

/// What a speech recogniser made of one recording, read against the target.
///
/// It answers which syllables were said, not how well: the tone is scored from
/// the pitch, separately.
#[derive(Clone, Debug, PartialEq)]
pub struct Heard {
    /// What was transcribed, trimmed. Empty when nothing was recognised.
    pub text: String,
    /// The same as plain letters with the syllables spaced: `shi shi`.
    pub base: String,
    /// One entry per syllable compared.
    pub syllables: Vec<HeardSyllable>,
    /// How many syllables were the sound asked for.
    pub matched: usize,
    /// True when the transcription divided into exactly as many syllables as
    /// were asked for.
    pub same_count: bool,
    /// One plain sentence about what was heard.
    pub detail: String,
}

impl Heard {
    /// Everything asked for was heard, syllable for syllable.
    pub fn all_matched(&self) -> (r: bool)
        ensures
            r == (self.same_count && self.syllables.len() > 0 && self.matched
                == self.syllables.len()),
    {
        self.same_count && self.syllables.len() > 0 && self.matched == self.syllables.len()
    }
}

/// The syllables of `reading` as written, when they pair one to one with the
/// characters of `heard`; none otherwise.
pub open spec fn heard_readings(heard: Seq<char>, reading: Seq<char>) -> Seq<Seq<char>> {
    if heard.len() > 0 && aligns(heard, reading) {
        syllables_of(reading).map_values(|p: (Seq<char>, u8)| p.0)
    } else {
        seq![]
    }
}

/// Each reading with its tone taken off.
pub open spec fn bases(parts: Seq<Seq<char>>) -> Seq<Seq<char>> {
    parts.map_values(|p: Seq<char>| base_of(p))
}

/// Two readings are the same sound when they agree once the tone is set aside.
pub open spec fn same_sound(h: Seq<char>, w: Seq<char>) -> bool {
    base_of(h) == base_of(w)
}

/// How a heard syllable is written in a sentence: plain where it matched, with
/// its dictionary tone mark where it did not.
pub open spec fn marked_piece(h: Seq<char>, w: Seq<char>) -> Seq<char> {
    if same_sound(h, w) || h.len() == 0 {
        base_of(h)
    } else {
        h
    }
}

/// How many of the first `n` pairs are the same sound.
pub open spec fn matched_count(hr: Seq<Seq<char>>, w: Seq<Seq<char>>, n: nat) -> nat
    decreases n,
{
    if n == 0 {
        0
    } else {
        matched_count(hr, w, (n - 1) as nat) + if same_sound(hr[n - 1], w[n - 1]) {
            1nat
        } else {
            0nat
        }
    }
}

/// `"cóng where zhong was asked for"`, for each of the first `n` pairs that
/// differ.
pub open spec fn wrong_parts(hr: Seq<Seq<char>>, w: Seq<Seq<char>>, n: nat) -> Seq<Seq<char>>
    decreases n,
{
    if n == 0 {
        seq![]
    } else {
        let rest = wrong_parts(hr, w, (n - 1) as nat);
        let k = n - 1;
        if same_sound(hr[k], w[k]) {
            rest
        } else {
            rest.push(marked_piece(hr[k], w[k]) + " where "@ + base_of(w[k]) + " was asked for"@)
        }
    }
}

/// `""` for one, `"s"` for any other count.
pub open spec fn plural(n: nat) -> Seq<char> {
    if n == 1 {
        seq![]
    } else {
        "s"@
    }
}

/// The smaller of two counts.
pub open spec fn least(a: nat, b: nat) -> nat {
    if a < b {
        a
    } else {
        b
    }
}

/// The sentence that reports a transcription.
pub open spec fn heard_detail(
    heard: Seq<char>,
    reading: Seq<char>,
    wanted: Seq<Seq<char>>,
    tone_follows: bool,
) -> Seq<char> {
    let hr = heard_readings(heard, reading);
    let n = least(hr.len(), wanted.len());
    let matched = matched_count(hr, wanted, n);
    if trim(heard).len() == 0 {
        if tone_follows {
            "Nothing was recognised in that recording. The tone below is still judged from the pitch, which does not need a transcription."@
        } else {
            "Nothing was recognised in that recording."@
        }
    } else if wanted.len() == 0 {
        "Heard "@ + trim(heard)
            + ". The words on the board could not all be read from the dataset, so what was heard was not compared against them."@
    } else if hr.len() == 0 {
        "The transcription ("@ + trim(heard)
            + ") could not be divided into one syllable per character, so it was not read against what was asked for."@
            + if tone_follows {
            " The tone below is unaffected."@
        } else {
            seq![]
        }
    } else if hr.len() != wanted.len() {
        "Heard "@ + join(bases(hr), " "@) + " — "@ + decimal(wanted.len()) + " syllable"@ + plural(
            wanted.len(),
        ) + " where "@ + join(bases(wanted), " "@) + " ("@ + decimal(wanted.len())
            + ") was asked for."@ + if tone_follows {
            " The tone below is still judged from the pitch."@
        } else {
            seq![]
        }
    } else if matched == n {
        "Heard "@ + join(bases(hr), " "@) + ": the syllable"@ + plural(n)
            + " asked for. What was heard is a transcription, not a judgement of the tone."@
            + if tone_follows {
            " The tone below is measured from the pitch."@
        } else {
            seq![]
        }
    } else {
        "Heard "@ + join(Seq::new(n, |k: int| marked_piece(hr[k], wanted[k])), " "@) + " ("@ + join(
            wrong_parts(hr, wanted, n),
            ", "@,
        ) + ") — "@ + if matched == 0 {
            "none of that is the syllable wanted"@
        } else {
            decimal(matched) + " of "@ + decimal(n) + " syllables match"@
        } + "."@ + if tone_follows {
            " The tone below is measured from the pitch, not from this transcription."@
        } else {
            seq![]
        }
    }
}

/// What reading `heard` (transcribed as `reading`) against the readings
/// `wanted`, one per character, gives.
pub open spec fn heard_is(
    h: Heard,
    heard: Seq<char>,
    reading: Seq<char>,
    wanted: Seq<Seq<char>>,
    tone_follows: bool,
) -> bool {
    let hr = heard_readings(heard, reading);
    let n = least(hr.len(), wanted.len());
    &&& h.text@ == trim(heard)
    &&& h.base@ == join(bases(hr), " "@)
    &&& h.syllables.len() == n
    &&& forall|k: int|
        0 <= k < n ==> {
            &&& (#[trigger] h.syllables[k]).base@ == base_of(hr[k])
            &&& h.syllables[k].reading@ == hr[k]
            &&& h.syllables[k].wanted@ == base_of(wanted[k])
            &&& h.syllables[k].wanted_reading@ == wanted[k]
            &&& h.syllables[k].matches == same_sound(hr[k], wanted[k])
        }
    &&& h.matched == matched_count(hr, wanted, n)
    &&& h.same_count == (hr.len() > 0 && hr.len() == wanted.len())
    &&& h.detail@ == heard_detail(heard, reading, wanted, tone_follows)
}


/// How many of the first `n` rows of a transcription's comparison match.
pub open spec fn matching_rows(rows: Seq<HeardSyllable>, n: nat) -> nat
    decreases n,
{
    if n == 0 {
        0
    } else {
        matching_rows(rows, (n - 1) as nat) + if rows[n - 1].matches {
            1nat
        } else {
            0nat
        }
    }
}

proof fn lemma_matching_rows_bound(rows: Seq<HeardSyllable>, n: nat)
    ensures
        matching_rows(rows, n) <= n,
        matching_rows(rows, n) == n <==> forall|k: int| 0 <= k < n ==> #[trigger] rows[k].matches,
    decreases n,
{
    if n > 0 {
        lemma_matching_rows_bound(rows, (n - 1) as nat);
        if !rows[n - 1].matches {
            assert(!(forall|k: int| 0 <= k < n ==> #[trigger] rows[k].matches));
        }
    }
}

/// The count of matches in a transcription's report is the number of its rows
/// that match: never more than the rows compared, and all of them exactly when
/// every row is the sound asked for. Rows are compared one per character, and
/// only as far as both the transcription and what was asked for go.
pub proof fn law_the_match_count_counts_the_matching_rows(
    h: Heard,
    heard: Seq<char>,
    reading: Seq<char>,
    wanted: Seq<Seq<char>>,
    tone_follows: bool,
)
    requires
        heard_is(h, heard, reading, wanted, tone_follows),
    ensures
        h.matched == matching_rows(h.syllables@, h.syllables.len() as nat),
        h.matched <= h.syllables.len(),
        h.matched == h.syllables.len() <==> forall|k: int|
            0 <= k < h.syllables.len() ==> #[trigger] h.syllables@[k].matches,
        h.syllables.len() <= wanted.len(),
{
    let hr = heard_readings(heard, reading);
    let n = least(hr.len(), wanted.len());
    assert forall|m: nat| m <= n implies #[trigger] matched_count(hr, wanted, m) == matching_rows(
        h.syllables@,
        m,
    ) by {
        lemma_counts_agree(h, hr, wanted, m);
    }
    lemma_matching_rows_bound(h.syllables@, n);
}

proof fn lemma_counts_agree(h: Heard, hr: Seq<Seq<char>>, wanted: Seq<Seq<char>>, m: nat)
    requires
        m <= h.syllables.len(),
        forall|k: int|
            0 <= k < h.syllables.len() ==> (#[trigger] h.syllables@[k]).matches == same_sound(
                hr[k],
                wanted[k],
            ),
    ensures
        matched_count(hr, wanted, m) == matching_rows(h.syllables@, m),
    decreases m,
{
    if m > 0 {
        lemma_counts_agree(h, hr, wanted, (m - 1) as nat);
        assert(h.syllables@[m - 1].matches == same_sound(hr[m - 1], wanted[m - 1]));
    }
}

proof fn lemma_prefix_of_longer(a: Seq<char>, b: Seq<char>)
    ensures
        a.is_prefix_of(a + b),
{
    assert(a =~= (a + b).subrange(0, a.len() as int));
}

/// Whether a tone is judged below changes the sentence about a transcription
/// only by what it adds at the end: the sentence written when no tone follows
/// begins the one written when it does.
pub proof fn law_a_tone_that_follows_only_adds_to_the_sentence(
    heard: Seq<char>,
    reading: Seq<char>,
    wanted: Seq<Seq<char>>,
)
    ensures
        heard_detail(heard, reading, wanted, false).is_prefix_of(
            heard_detail(heard, reading, wanted, true),
        ),
{
    let short = heard_detail(heard, reading, wanted, false);
    let long = heard_detail(heard, reading, wanted, true);
    if trim(heard).len() == 0 {
        reveal_strlit("Nothing was recognised in that recording.");
        reveal_strlit(
            "Nothing was recognised in that recording. The tone below is still judged from the pitch, which does not need a transcription.",
        );
        assert(short =~= long.subrange(0, short.len() as int));
    } else if wanted.len() == 0 {
        assert(short =~= long.subrange(0, short.len() as int));
    } else {
        let hr = heard_readings(heard, reading);
        if hr.len() == 0 {
            let head = "The transcription ("@ + trim(heard)
                + ") could not be divided into one syllable per character, so it was not read against what was asked for."@;
            lemma_prefix_of_longer(head, " The tone below is unaffected."@);
            assert(short =~= head + Seq::<char>::empty());
        } else if hr.len() != wanted.len() {
            let head = "Heard "@ + join(bases(hr), " "@) + " — "@ + decimal(wanted.len())
                + " syllable"@ + plural(wanted.len()) + " where "@ + join(bases(wanted), " "@)
                + " ("@ + decimal(wanted.len()) + ") was asked for."@;
            lemma_prefix_of_longer(head, " The tone below is still judged from the pitch."@);
            assert(short =~= head + Seq::<char>::empty());
        } else {
            let n = least(hr.len(), wanted.len());
            let matched = matched_count(hr, wanted, n);
            if matched == n {
                let head = "Heard "@ + join(bases(hr), " "@) + ": the syllable"@ + plural(n)
                    + " asked for. What was heard is a transcription, not a judgement of the tone."@;
                lemma_prefix_of_longer(head, " The tone below is measured from the pitch."@);
                assert(short =~= head + Seq::<char>::empty());
            } else {
                let head = "Heard "@ + join(Seq::new(n, |k: int| marked_piece(hr[k], wanted[k])), " "@)
                    + " ("@ + join(wrong_parts(hr, wanted, n), ", "@) + ") — "@ + if matched == 0 {
                    "none of that is the syllable wanted"@
                } else {
                    decimal(matched) + " of "@ + decimal(n) + " syllables match"@
                } + "."@;
                lemma_prefix_of_longer(
                    head,
                    " The tone below is measured from the pitch, not from this transcription."@,
                );
                assert(short =~= head + Seq::<char>::empty());
            }
        }
    }
}

fn heard_syllable_texts(heard: &str, reading: &str) -> (r: Vec<String>)
    ensures
        views(r@) == heard_readings(heard@, reading@),
{
    let count = chars_of(heard).len();
    let mut out: Vec<String> = Vec::new();
    match syllables(reading) {
        None => {},
        Some(list) => {
            if count > 0 && list.len() == count {
                let mut k: usize = 0;
                while k < list.len()
                    invariant
                        k <= list.len(),
                        list.len() == syllables_of(reading@).len(),
                        forall|j: int|
                            0 <= j < list.len() ==> (#[trigger] list@[j]).text@ == syllables_of(
                                reading@,
                            )[j].0,
                        views(out@) == syllables_of(reading@).take(k as int).map_values(
                            |p: (Seq<char>, u8)| p.0,
                        ),
                    decreases list.len() - k,
                {
                    let ghost before = out@;
                    out.push(list[k].text.clone());
                    proof {
                        lemma_views_push(before, list@[k as int].text);
                    }
                    assert(views(out@) =~= syllables_of(reading@).take(k + 1).map_values(
                        |p: (Seq<char>, u8)| p.0,
                    ));
                    k += 1;
                }
                assert(syllables_of(reading@).take(k as int) =~= syllables_of(reading@));
            }
        },
    }
    assert(views(out@) =~= heard_readings(heard@, reading@));
    out
}

fn bases_of(v: &[String]) -> (r: Vec<String>)
    ensures
        views(r@) == bases(views(v@)),
{
    let mut out: Vec<String> = Vec::new();
    let mut k: usize = 0;
    while k < v.len()
        invariant
            k <= v.len(),
            views(out@) == bases(views(v@).take(k as int)),
        decreases v.len() - k,
    {
        let ghost before = out@;
        let b = base(v[k].as_str());
        out.push(b);
        proof {
            lemma_views_push(before, b);
        }
        assert(views(out@) =~= bases(views(v@).take(k + 1)));
        k += 1;
    }
    assert(views(v@).take(k as int) =~= views(v@));
    out
}


/// The sentence that reports a transcription, from the parts already worked out.
fn heard_sentence(
    heard: &str,
    heard_count: usize,
    wanted_count: usize,
    base_text: &String,
    wanted_text: &String,
    marked_text: &String,
    wrong_text: &String,
    matched: usize,
    tone_follows: bool,
    Ghost(reading): Ghost<Seq<char>>,
    Ghost(wanted): Ghost<Seq<Seq<char>>>,
) -> (r: String)
    requires
        heard_count == heard_readings(heard@, reading).len(),
        wanted_count == wanted.len(),
        base_text@ == join(bases(heard_readings(heard@, reading)), " "@),
        wanted_text@ == join(bases(wanted), " "@),
        heard_count == wanted_count ==> {
            let hr = heard_readings(heard@, reading);
            &&& marked_text@ == join(
                Seq::new(wanted_count as nat, |k: int| marked_piece(hr[k], wanted[k])),
                " "@,
            )
            &&& wrong_text@ == join(wrong_parts(hr, wanted, wanted_count as nat), ", "@)
            &&& matched == matched_count(hr, wanted, wanted_count as nat)
        },
    ensures
        r@ == heard_detail(heard@, reading, wanted, tone_follows),
{
    let ghost hr = heard_readings(heard@, reading);
    if is_blank(heard) {
        if tone_follows {
            "Nothing was recognised in that recording. The tone below is still judged from the pitch, which does not need a transcription.".to_owned()
        } else {
            "Nothing was recognised in that recording.".to_owned()
        }
    } else if wanted_count == 0 {
        let mut d = "Heard ".to_owned();
        append_str(&mut d, trimmed(heard).as_str());
        append_str(
            &mut d,
            ". The words on the board could not all be read from the dataset, so what was heard was not compared against them.",
        );
        d
    } else if heard_count == 0 {
        let mut d = "The transcription (".to_owned();
        append_str(&mut d, trimmed(heard).as_str());
        append_str(
            &mut d,
            ") could not be divided into one syllable per character, so it was not read against what was asked for.",
        );
        if tone_follows {
            append_str(&mut d, " The tone below is unaffected.");
        }
        assert(d@ =~= heard_detail(heard@, reading, wanted, tone_follows));
        d
    } else if heard_count != wanted_count {
        let count = decimal_string(wanted_count as u64);
        let mut d = "Heard ".to_owned();
        append_str(&mut d, base_text.as_str());
        append_str(&mut d, " — ");
        append_str(&mut d, count.as_str());
        append_str(&mut d, " syllable");
        if wanted_count != 1 {
            append_str(&mut d, "s");
        }
        append_str(&mut d, " where ");
        append_str(&mut d, wanted_text.as_str());
        append_str(&mut d, " (");
        append_str(&mut d, count.as_str());
        append_str(&mut d, ") was asked for.");
        if tone_follows {
            append_str(&mut d, " The tone below is still judged from the pitch.");
        }
        assert(d@ =~= heard_detail(heard@, reading, wanted, tone_follows));
        d
    } else if matched == wanted_count {
        let mut d = "Heard ".to_owned();
        append_str(&mut d, base_text.as_str());
        append_str(&mut d, ": the syllable");
        if wanted_count != 1 {
            append_str(&mut d, "s");
        }
        append_str(
            &mut d,
            " asked for. What was heard is a transcription, not a judgement of the tone.",
        );
        if tone_follows {
            append_str(&mut d, " The tone below is measured from the pitch.");
        }
        assert(d@ =~= heard_detail(heard@, reading, wanted, tone_follows));
        d
    } else {
        let mut d = "Heard ".to_owned();
        append_str(&mut d, marked_text.as_str());
        append_str(&mut d, " (");
        append_str(&mut d, wrong_text.as_str());
        append_str(&mut d, ") — ");
        if matched == 0 {
            append_str(&mut d, "none of that is the syllable wanted");
        } else {
            append_str(&mut d, decimal_string(matched as u64).as_str());
            append_str(&mut d, " of ");
            append_str(&mut d, decimal_string(wanted_count as u64).as_str());
            append_str(&mut d, " syllables match");
        }
        append_str(&mut d, ".");
        if tone_follows {
            append_str(
                &mut d,
                " The tone below is measured from the pitch, not from this transcription.",
            );
        }
        assert(d@ =~= heard_detail(heard@, reading, wanted, tone_follows));
        d
    }
}


/// Read a transcription against the readings that were wanted, one per
/// character.
///
/// `heard` is what the recogniser wrote and `reading` its reading. `wanted`
/// holds one reading per character, tone marks and all; both sides are reduced
/// with [`base`] before they are compared. An empty `wanted` means there was
/// nothing to compare against, and the transcription is reported on its own. A
/// reading that does not divide into one syllable per character of `heard` is
/// refused rather than compared out of step. `tone_follows` says whether a tone
/// judgement is shown under this transcription, and only picks the wording.
pub fn heard_against_readings(
    heard: &str,
    reading: &str,
    wanted: &[String],
    tone_follows: bool,
) -> (h: Heard)
    ensures
        heard_is(h, heard@, reading@, views(wanted@), tone_follows),
{
    let ghost w = views(wanted@);
    let heard_texts = heard_syllable_texts(heard, reading);
    let ghost hr = views(heard_texts@);
    let heard_bases = bases_of(heard_texts.as_slice());
    let wanted_bases = bases_of(wanted);
    assert(heard_bases.len() == views(heard_bases@).len());
    assert(wanted_bases.len() == views(wanted_bases@).len());
    let n: usize = if heard_texts.len() < wanted.len() {
        heard_texts.len()
    } else {
        wanted.len()
    };
    let mut rows: Vec<HeardSyllable> = Vec::new();
    let mut marked: Vec<String> = Vec::new();
    let mut wrong: Vec<String> = Vec::new();
    let mut matched: usize = 0;
    let mut k: usize = 0;
    while k < n
        invariant
            n <= heard_texts.len(),
            n <= wanted.len(),
            heard_bases.len() == heard_texts.len(),
            wanted_bases.len() == wanted.len(),
            hr == heard_readings(heard@, reading@),
            w == views(wanted@),
            hr == views(heard_texts@),
            views(heard_bases@) == bases(hr),
            views(wanted_bases@) == bases(w),
            k <= n,
            rows.len() == k,
            forall|j: int|
                0 <= j < k ==> {
                    &&& (#[trigger] rows@[j]).base@ == base_of(hr[j])
                    &&& rows@[j].reading@ == hr[j]
                    &&& rows@[j].wanted@ == base_of(w[j])
                    &&& rows@[j].wanted_reading@ == w[j]
                    &&& rows@[j].matches == same_sound(hr[j], w[j])
                },
            matched == matched_count(hr, w, k as nat),
            matched <= k,
            views(marked@) == Seq::new(k as nat, |j: int| marked_piece(hr[j], w[j])),
            views(wrong@) == wrong_parts(hr, w, k as nat),
        decreases n - k,
    {
        proof {
            let i = k as int;
            assert(views(heard_bases@)[i] == heard_bases@[i]@);
            assert(bases(hr)[i] == base_of(hr[i]));
            assert(views(wanted_bases@)[i] == wanted_bases@[i]@);
            assert(bases(w)[i] == base_of(w[i]));
            assert(hr[i] == heard_texts@[i]@);
            assert(w[i] == wanted@[i]@);
        }
        let matches = heard_bases[k] == wanted_bases[k];
        let piece = if matches || heard_texts[k].as_str().is_empty() {
            heard_bases[k].clone()
        } else {
            heard_texts[k].clone()
        };
        let ghost marked_before = marked@;
        marked.push(piece.clone());
        proof {
            lemma_views_push(marked_before, piece);
            assert(views(marked@) =~= Seq::new((k + 1) as nat, |j: int| marked_piece(hr[j], w[j])));
        }
        if matches {
            matched += 1;
        } else {
            let mut part = piece;
            append_str(&mut part, " where ");
            append_str(&mut part, wanted_bases[k].as_str());
            append_str(&mut part, " was asked for");
            let ghost wrong_before = wrong@;
            wrong.push(part);
            proof {
                lemma_views_push(wrong_before, part);
            }
        }
        let row = HeardSyllable {
            base: heard_bases[k].clone(),
            reading: heard_texts[k].clone(),
            wanted: wanted_bases[k].clone(),
            wanted_reading: wanted[k].clone(),
            matches,
        };
        let ghost rows_before = rows@;
        rows.push(row);
        proof {
            lemma_push(rows_before, row);
        }
        k += 1;
    }
    let base_text = join_strings(&heard_bases, " ");
    let wanted_text = join_strings(&wanted_bases, " ");
    let marked_text = join_strings(&marked, " ");
    let wrong_text = join_strings(&wrong, ", ");
    let detail = heard_sentence(
        heard,
        heard_texts.len(),
        wanted.len(),
        &base_text,
        &wanted_text,
        &marked_text,
        &wrong_text,
        matched,
        tone_follows,
        Ghost(reading@),
        Ghost(w),
    );
    let same_count = heard_texts.len() > 0 && heard_texts.len() == wanted.len();
    Heard { text: trimmed(heard), base: base_text, syllables: rows, matched, same_count, detail }
}

/// Read a transcription against the target it was meant to be: the readings
/// wanted are the target's own.
pub fn heard_against(heard: &str, reading: &str, target: &ToneTarget) -> (h: Heard)
    ensures
        heard_is(h, heard@, reading@, target.readings(), true),
{
    let mut wanted: Vec<String> = Vec::new();
    let mut k: usize = 0;
    while k < target.syllables.len()
        invariant
            k <= target.syllables.len(),
            views(wanted@) == target.readings().take(k as int),
        decreases target.syllables.len() - k,
    {
        let ghost before = wanted@;
        let r = target.syllables[k].reading.clone();
        wanted.push(r);
        proof {
            lemma_views_push(before, r);
            assert(views(wanted@) =~= target.readings().take(k + 1));
        }
        k += 1;
    }
    assert(target.readings().take(k as int) =~= target.readings());
    heard_against_readings(heard, reading, wanted.as_slice(), true)
}


// ---------------------------------------------------------------------------
// A tone written is the tone read
// ---------------------------------------------------------------------------

/// Two letters play the same part in the splitting rule.
pub open spec fn same_class(x: char, y: char) -> bool {
    &&& vowel(x) == vowel(y)
    &&& separator(x) == separator(y)
    &&& (x == 'n') == (y == 'n')
    &&& (x == 'g') == (y == 'g')
    &&& (x == 'r') == (y == 'r')
}

/// Two texts of one length whose letters play the same parts, place by place.
pub open spec fn same_shape(a: Seq<char>, b: Seq<char>) -> bool {
    a.len() == b.len() && forall|k: int| 0 <= k < a.len() ==> same_class(#[trigger] a[k], b[k])
}

/// A syllabic nasal with a tone mark: `ń`, `ň`, `ǹ` or `ḿ`.
pub open spec fn marked_nasal(c: char) -> bool {
    c == 'ń' || c == 'ň' || c == 'ǹ' || c == 'ḿ'
}

/// A capital letter a tone mark could be looked for on.
pub open spec fn capital(c: char) -> bool {
    ('A' <= c <= 'Z') || c == 'Ü'
}

/// The letters a syllable is ordinarily written in: no capital, no `ê`, and no
/// syllabic nasal, whose plain letter is a consonant.
pub open spec fn ordinary_letters(s: Seq<char>) -> bool {
    forall|k: int| 0 <= k < s.len() ==> !capital(#[trigger] s[k]) && !marked_nasal(s[k]) && s[k] != 'ê'
}

/// The plain vowels a tone mark can sit on.
pub open spec fn markable(c: char) -> bool {
    c == 'a' || c == 'e' || c == 'i' || c == 'o' || c == 'u' || c == 'ü' || c == 'v'
}

proof fn lemma_shape_skip_consonants(a: Seq<char>, b: Seq<char>, i: int)
    requires
        same_shape(a, b),
    ensures
        skip_consonants(a, i) == skip_consonants(b, i),
    decreases a.len() - i,
{
    if 0 <= i < a.len() {
        assert(same_class(a[i], b[i]));
        lemma_shape_skip_consonants(a, b, i + 1);
    }
}

proof fn lemma_shape_skip_vowels(a: Seq<char>, b: Seq<char>, i: int)
    requires
        same_shape(a, b),
    ensures
        skip_vowels(a, i) == skip_vowels(b, i),
    decreases a.len() - i,
{
    if 0 <= i < a.len() {
        assert(same_class(a[i], b[i]));
        lemma_shape_skip_vowels(a, b, i + 1);
    }
}

proof fn lemma_shape_piece_end(a: Seq<char>, b: Seq<char>, i: int)
    requires
        same_shape(a, b),
    ensures
        piece_end(a, i) == piece_end(b, i),
{
    lemma_shape_skip_consonants(a, b, i);
    let v = skip_consonants(a, i);
    if 0 <= v < a.len() {
        assert(same_class(a[v], b[v]));
    }
    lemma_shape_skip_vowels(a, b, v);
    let j = skip_vowels(a, v);
    if 0 <= j < a.len() {
        assert(same_class(a[j], b[j]));
    }
    if 0 <= j + 1 < a.len() {
        assert(same_class(a[j + 1], b[j + 1]));
    }
}

/// The splitting rule sees only the parts letters play.
proof fn lemma_shape_spans(a: Seq<char>, b: Seq<char>, i: int)
    requires
        same_shape(a, b),
    ensures
        piece_spans(a, i) == piece_spans(b, i),
    decreases a.len() - i,
{
    if 0 <= i < a.len() {
        assert(same_class(a[i], b[i]));
        if separator(a[i]) {
            lemma_shape_spans(a, b, i + 1);
        } else {
            lemma_shape_piece_end(a, b, i);
            let e = piece_end(a, i);
            if i < e <= a.len() {
                lemma_shape_spans(a, b, e);
            }
        }
    }
}

/// Every letter of a reading that is not a separator lies in one of its pieces.
proof fn lemma_covered(r: Seq<char>, i: int, k: int)
    requires
        0 <= i <= k < r.len(),
        !separator(r[k]),
    ensures
        exists|j: int|
            0 <= j < piece_spans(r, i).len() && (#[trigger] piece_spans(r, i)[j]).0 <= k
                < piece_spans(r, i)[j].1,
    decreases r.len() - i,
{
    if separator(r[i]) {
        lemma_covered(r, i + 1, k);
        assert(piece_spans(r, i) == piece_spans(r, i + 1));
    } else {
        lemma_piece_end(r, i);
        let e = piece_end(r, i);
        assert(piece_spans(r, i) == seq![(i, e)] + piece_spans(r, e));
        if k < e {
            assert(piece_spans(r, i)[0] == (i, e));
        } else {
            lemma_covered(r, e, k);
            let j = choose|j: int|
                0 <= j < piece_spans(r, e).len() && (#[trigger] piece_spans(r, e)[j]).0 <= k
                    < piece_spans(r, e)[j].1;
            assert(piece_spans(r, i)[j + 1] == piece_spans(r, e)[j]);
        }
    }
}

proof fn lemma_marks_none(x: Seq<char>)
    requires
        forall|k: int| 0 <= k < x.len() ==> tone_mark(#[trigger] x[k]) is None,
    ensures
        marks_in(x) == Seq::<u8>::empty(),
    decreases x.len(),
{
    if x.len() > 0 {
        assert(tone_mark(x[0]) is None);
        lemma_marks_none(x.drop_first());
    }
}

proof fn lemma_marks_single(x: Seq<char>, at: int, t: u8)
    requires
        0 <= at < x.len(),
        tone_mark(x[at]) == Some(t),
        forall|k: int| 0 <= k < x.len() && k != at ==> tone_mark(#[trigger] x[k]) is None,
    ensures
        marks_in(x) == seq![t],
    decreases x.len(),
{
    if at == 0 {
        lemma_marks_none(x.drop_first());
        assert(seq![t] + Seq::<u8>::empty() =~= seq![t]);
    } else {
        assert(tone_mark(x[0]) is None);
        lemma_marks_single(x.drop_first(), at - 1, t);
    }
}

proof fn lemma_marked_is_vowel(c: char)
    requires
        tone_mark(c) is Some,
    ensures
        vowel(c),
{
}

proof fn lemma_plain_letter(c: char)
    ensures
        tone_mark(plain(c)) is None,
        !marked_nasal(c) ==> same_class(c, plain(c)),
        !marked_nasal(c) && !capital(c) && c != 'ê' && vowel(c) ==> markable(plain(c)),
        !capital(c) ==> !capital(plain(c)),
{
    reveal(plain);
}

proof fn lemma_toned_letter(c: char, t: u8)
    requires
        markable(c),
        1 <= t <= 4,
    ensures
        toned(c, t) matches Some(d) && vowel(d) && tone_mark(d) == Some(t) && same_class(c, d),
{
    reveal(toned);
}

/// On letters with no capital, a tone mark goes on one of the plain vowels,
/// if there is one.
proof fn lemma_first_in_holds(s: Seq<char>, f: spec_fn(char) -> bool)
    ensures
        first_in(s, f) matches Some(k) ==> 0 <= k < s.len() && f(s[k]),
        first_in(s, f) is None ==> forall|k: int| 0 <= k < s.len() ==> !f(#[trigger] s[k]),
{
    if exists|k: int| 0 <= k < s.len() && f(s[k]) {
        let w = choose|k: int| 0 <= k < s.len() && f(s[k]);
        lemma_least(s, f, w);
    }
}

proof fn lemma_last_in_holds(s: Seq<char>, f: spec_fn(char) -> bool)
    ensures
        last_in(s, f) matches Some(k) ==> 0 <= k < s.len() && f(s[k]),
        last_in(s, f) is None ==> forall|k: int| 0 <= k < s.len() ==> !f(#[trigger] s[k]),
{
    if exists|k: int| 0 <= k < s.len() && f(s[k]) {
        let w = choose|k: int| 0 <= k < s.len() && f(s[k]);
        lemma_greatest(s, f, w);
    }
}

proof fn lemma_mark_target(p: Seq<char>, w: int)
    requires
        0 <= w < p.len(),
        markable(p[w]),
        forall|k: int| 0 <= k < p.len() ==> !capital(#[trigger] p[k]),
    ensures
        mark_target(p) matches Some(t) && 0 <= t < p.len() && markable(p[t]),
{
    lemma_first_in_holds(p, |c: char| class_a(c));
    lemma_first_in_holds(p, |c: char| class_o(c));
    lemma_first_in_holds(p, |c: char| class_e(c));
    lemma_last_in_holds(p, |c: char| class_iu(c));
    if first_in(p, |c: char| class_a(c)) is None && first_in(p, |c: char| class_o(c)) is None
        && first_in(p, |c: char| class_e(c)) is None {
        assert(!class_a(p[w]) && !class_o(p[w]) && !class_e(p[w]));
        assert(class_iu(p[w]));
    }
}

/// A reading of one piece holds a vowel in that piece.
proof fn lemma_vowel_in_piece(s: Seq<char>) -> (w: int)
    requires
        readable(s),
        pieces(s).len() == 1,
    ensures
        pieces(s)[0].0 <= w < pieces(s)[0].1,
        0 <= w < s.len(),
        vowel(s[w]),
{
    lemma_piece_spans(s, 0);
    let (a, e) = pieces(s)[0];
    assert(syllable_tone_of(piece_text(s, 0)) is Some);
    let x = s.subrange(a, e);
    if marks_in(x).len() == 0 {
        let k = choose|k: int| 0 <= k < x.len() && vowel(x[k]);
        a + k
    } else {
        if forall|k: int| 0 <= k < x.len() ==> tone_mark(#[trigger] x[k]) is None {
            lemma_marks_none(x);
        }
        let k = choose|k: int| 0 <= k < x.len() && tone_mark(#[trigger] x[k]) is Some;
        lemma_marked_is_vowel(x[k]);
        a + k
    }
}

/// Marking ordinary letters that hold a vowel: the plain letters with one mark
/// on a plain vowel, in the same shape as the syllable.
proof fn lemma_marked_letters(s: Seq<char>, t: u8, w: int) -> (tt: int)
    requires
        ordinary_letters(s),
        0 <= w < s.len(),
        vowel(s[w]),
        1 <= t <= 4,
    ensures
        marked(s, t) matches Some(m) && {
            &&& same_shape(s, m)
            &&& 0 <= tt < m.len()
            &&& vowel(m[tt])
            &&& tone_mark(m[tt]) == Some(t)
            &&& forall|k: int| 0 <= k < m.len() && k != tt ==> tone_mark(#[trigger] m[k]) is None
        },
{
    reveal(marked);
    let p = plain_of(s);
    lemma_plain_letter(s[w]);
    assert forall|k: int| 0 <= k < p.len() implies !capital(#[trigger] p[k]) by {
        lemma_plain_letter(s[k]);
    }
    lemma_mark_target(p, w);
    let tt = mark_target(p)->0;
    lemma_toned_letter(p[tt], t);
    let d = toned(p[tt], t)->0;
    let m = p.update(tt, d);
    assert(marked(s, t) == Some(m));
    assert forall|k: int| 0 <= k < s.len() implies same_class(#[trigger] s[k], m[k]) by {
        lemma_plain_letter(s[k]);
        if k == tt {
            assert(same_class(p[k], d));
        }
    }
    assert forall|k: int| 0 <= k < m.len() && k != tt implies tone_mark(#[trigger] m[k]) is None by {
        lemma_plain_letter(s[k]);
    }
    tt
}

proof fn lemma_neutral_is_read(s: Seq<char>, w: int)
    requires
        readable(s),
        syllables_of(s).len() == 1,
        ordinary_letters(s),
        pieces(s)[0].0 <= w < pieces(s)[0].1,
        0 <= w < s.len(),
        vowel(s[w]),
    ensures
        marked(s, 5) matches Some(m) && readable(m) && syllables_of(m).len() == 1
            && syllables_of(m)[0].1 == 5,
{
    reveal(marked);
    let p = plain_of(s);
    assert forall|k: int| 0 <= k < s.len() implies same_class(#[trigger] s[k], p[k]) by {
        lemma_plain_letter(s[k]);
    }
    lemma_shape_spans(s, p, 0);
    lemma_piece_spans(p, 0);
    let (a, e) = pieces(p)[0];
    let y = p.subrange(a, e);
    assert forall|k: int| 0 <= k < y.len() implies tone_mark(#[trigger] y[k]) is None by {
        assert(y[k] == p[a + k]);
        lemma_plain_letter(s[a + k]);
    }
    lemma_marks_none(y);
    lemma_plain_letter(s[w]);
    assert(vowel(y[w - a]));
    assert(piece_text(p, 0) == y);
    assert(syllable_tone_of(y) == Some(5u8));
}

proof fn lemma_full_tone_is_read(s: Seq<char>, t: u8, w: int)
    requires
        readable(s),
        syllables_of(s).len() == 1,
        ordinary_letters(s),
        1 <= t <= 4,
        0 <= w < s.len(),
        vowel(s[w]),
    ensures
        marked(s, t) matches Some(m) && readable(m) && syllables_of(m).len() == 1
            && syllables_of(m)[0].1 == t,
{
    reveal(marked);
    let tt = lemma_marked_letters(s, t, w);
    let m = marked(s, t)->0;
    lemma_shape_spans(s, m, 0);
    assert(pieces(m) == pieces(s));
    lemma_piece_spans(m, 0);
    let (a, e) = pieces(m)[0];
    lemma_covered(m, 0, tt);
    assert(a <= tt < e);
    let y = m.subrange(a, e);
    assert forall|k: int| 0 <= k < y.len() && k != tt - a implies tone_mark(#[trigger] y[k]) is None by {
        assert(y[k] == m[a + k]);
    }
    lemma_marks_single(y, tt - a, t);
    assert(piece_text(m, 0) == y);
    assert(syllable_tone_of(y) == Some(t));
}

/// No separator stands inside the piece that starts at `i`.
proof fn lemma_piece_letters(r: Seq<char>, i: int)
    requires
        0 <= i < r.len(),
        !separator(r[i]),
    ensures
        forall|k: int| i <= k < piece_end(r, i) ==> !separator(#[trigger] r[k]),
{
    lemma_skip_consonants(r, i);
    let v = skip_consonants(r, i);
    if vowel_at(r, v) {
        lemma_skip_vowels(r, v);
        let j = skip_vowels(r, v);
        assert forall|k: int| i <= k < piece_end(r, i) implies !separator(#[trigger] r[k]) by {
            if k >= v && k < j {
                assert(vowel(r[k]));
            }
        }
    }
}

/// The pieces of `r` from `i` on follow one another, and none holds a
/// separator.
proof fn lemma_spans_ordered(r: Seq<char>, i: int)
    requires
        0 <= i <= r.len(),
    ensures
        forall|k: int|
            0 <= k < piece_spans(r, i).len() - 1 ==> (#[trigger] piece_spans(r, i)[k]).1
                <= piece_spans(r, i)[k + 1].0,
        forall|k: int, j: int|
            0 <= k < piece_spans(r, i).len() && (#[trigger] piece_spans(r, i)[k]).0 <= j
                < piece_spans(r, i)[k].1 ==> !separator(#[trigger] r[j]),
    decreases r.len() - i,
{
    if i < r.len() {
        if separator(r[i]) {
            lemma_spans_ordered(r, i + 1);
            assert(piece_spans(r, i) == piece_spans(r, i + 1));
        } else {
            lemma_piece_end(r, i);
            lemma_piece_letters(r, i);
            let e = piece_end(r, i);
            lemma_piece_spans(r, e);
            lemma_spans_ordered(r, e);
            let sp = piece_spans(r, i);
            assert(sp == seq![(i, e)] + piece_spans(r, e));
            assert forall|k: int| 0 <= k < sp.len() - 1 implies (#[trigger] sp[k]).1 <= sp[k
                + 1].0 by {
                assert(sp[k + 1] == piece_spans(r, e)[k]);
                if k > 0 {
                    assert(sp[k] == piece_spans(r, e)[k - 1]);
                }
            }
            assert forall|k: int, j: int|
                0 <= k < sp.len() && (#[trigger] sp[k]).0 <= j < sp[k].1 implies !separator(
                #[trigger] r[j],
            ) by {
                if k > 0 {
                    assert(sp[k] == piece_spans(r, e)[k - 1]);
                }
            }
        }
    }
}

/// How a reading divides: its pieces are non-empty, in bounds and in order,
/// each ending at or before the next begins; no separator lies in a piece; and
/// every other character lies in one. These are the spans that
/// `syllables_with_spans` gives, and the text of each is the syllable it
/// pairs them with.
pub proof fn law_pieces_cover_every_letter_once_in_order(r: Seq<char>)
    ensures
        forall|k: int|
            0 <= k < pieces(r).len() ==> 0 <= (#[trigger] pieces(r)[k]).0 < pieces(r)[k].1
                <= r.len(),
        forall|k: int|
            0 <= k < pieces(r).len() - 1 ==> (#[trigger] pieces(r)[k]).1 <= pieces(r)[k + 1].0,
        forall|k: int, j: int|
            0 <= k < pieces(r).len() && (#[trigger] pieces(r)[k]).0 <= j < pieces(r)[k].1
                ==> !separator(#[trigger] r[j]),
        forall|j: int|
            0 <= j < r.len() && !separator(#[trigger] r[j]) ==> exists|k: int|
                0 <= k < pieces(r).len() && (#[trigger] pieces(r)[k]).0 <= j < pieces(r)[k].1,
        forall|k: int| 0 <= k < pieces(r).len() ==> #[trigger] syllables_of(r)[k].0 == r.subrange(
            pieces(r)[k].0,
            pieces(r)[k].1,
        ),
{
    lemma_piece_spans(r, 0);
    lemma_spans_ordered(r, 0);
    assert forall|j: int| 0 <= j < r.len() && !separator(#[trigger] r[j]) implies exists|k: int|
        0 <= k < pieces(r).len() && (#[trigger] pieces(r)[k]).0 <= j < pieces(r)[k].1 by {
        lemma_covered(r, 0, j);
        let k = choose|k: int|
            0 <= k < piece_spans(r, 0).len() && (#[trigger] piece_spans(r, 0)[k]).0 <= j
                < piece_spans(r, 0)[k].1;
        assert(pieces(r)[k] == piece_spans(r, 0)[k]);
    }
}

proof fn lemma_first_in_least(s: Seq<char>, f: spec_fn(char) -> bool)
    ensures
        first_in(s, f) matches Some(k) ==> 0 <= k < s.len() && f(s[k]) && forall|j: int|
            0 <= j < k ==> !f(#[trigger] s[j]),
        first_in(s, f) is None ==> forall|k: int| 0 <= k < s.len() ==> !f(#[trigger] s[k]),
{
    if exists|k: int| 0 <= k < s.len() && f(s[k]) {
        let w = choose|k: int| 0 <= k < s.len() && f(s[k]);
        lemma_least(s, f, w);
    }
}

proof fn lemma_last_in_greatest(s: Seq<char>, f: spec_fn(char) -> bool)
    ensures
        last_in(s, f) matches Some(k) ==> 0 <= k < s.len() && f(s[k]) && forall|j: int|
            k < j < s.len() ==> !f(#[trigger] s[j]),
        last_in(s, f) is None ==> forall|k: int| 0 <= k < s.len() ==> !f(#[trigger] s[k]),
{
    if exists|k: int| 0 <= k < s.len() && f(s[k]) {
        let w = choose|k: int| 0 <= k < s.len() && f(s[k]);
        lemma_greatest(s, f, w);
    }
}

proof fn lemma_first_in_agrees(a: Seq<char>, b: Seq<char>, f: spec_fn(char) -> bool)
    requires
        a.len() == b.len(),
        forall|k: int| 0 <= k < a.len() ==> f(#[trigger] a[k]) == f(b[k]),
    ensures
        first_in(a, f) == first_in(b, f),
{
    lemma_first_in_least(a, f);
    lemma_first_in_least(b, f);
    match first_in(a, f) {
        Some(ka) => {
            assert(f(a[ka]) == f(b[ka]));
            let kb = first_in(b, f)->0;
            assert(f(a[kb]) == f(b[kb]));
            if kb < ka {
                assert(!f(a[kb]));
            }
            if ka < kb {
                assert(!f(b[ka]));
            }
        },
        None => {
            if let Some(kb) = first_in(b, f) {
                assert(f(a[kb]) == f(b[kb]));
            }
        },
    }
}

proof fn lemma_last_in_agrees(a: Seq<char>, b: Seq<char>, f: spec_fn(char) -> bool)
    requires
        a.len() == b.len(),
        forall|k: int| 0 <= k < a.len() ==> f(#[trigger] a[k]) == f(b[k]),
    ensures
        last_in(a, f) == last_in(b, f),
{
    lemma_last_in_greatest(a, f);
    lemma_last_in_greatest(b, f);
    match last_in(a, f) {
        Some(ka) => {
            assert(f(a[ka]) == f(b[ka]));
            let kb = last_in(b, f)->0;
            assert(f(a[kb]) == f(b[kb]));
            if kb < ka {
                assert(!f(b[ka]));
            }
            if ka < kb {
                assert(!f(a[kb]));
            }
        },
        None => {
            if let Some(kb) = last_in(b, f) {
                assert(f(a[kb]) == f(b[kb]));
            }
        },
    }
}

/// Letters of the same classes, place by place, take the mark in the same place.
proof fn lemma_mark_target_agrees(a: Seq<char>, b: Seq<char>)
    requires
        a.len() == b.len(),
        forall|k: int|
            0 <= k < a.len() ==> {
                &&& class_a(#[trigger] a[k]) == class_a(b[k])
                &&& class_o(a[k]) == class_o(b[k])
                &&& class_e(a[k]) == class_e(b[k])
                &&& class_iu(a[k]) == class_iu(b[k])
                &&& class_nasal(a[k]) == class_nasal(b[k])
            },
    ensures
        mark_target(a) == mark_target(b),
{
    lemma_first_in_agrees(a, b, |c: char| class_a(c));
    lemma_first_in_agrees(a, b, |c: char| class_o(c));
    lemma_first_in_agrees(a, b, |c: char| class_e(c));
    lemma_last_in_agrees(a, b, |c: char| class_iu(c));
    lemma_last_in_agrees(a, b, |c: char| class_nasal(c));
}

/// What a marked letter's plain letter keeps of the letter it was made from.
proof fn lemma_remarked_letter(x: char, t: u8)
    requires
        toned(x, t) is Some,
    ensures
        class_a(plain(toned(x, t)->0)) == class_a(x),
        class_o(plain(toned(x, t)->0)) == class_o(x),
        class_e(plain(toned(x, t)->0)) == class_e(x),
        class_iu(plain(toned(x, t)->0)) == class_iu(x),
        class_nasal(plain(toned(x, t)->0)) == class_nasal(x),
        forall|u: u8| #[trigger] toned(plain(toned(x, t)->0), u) == toned(x, u),
        base_char(toned(x, t)->0) == base_char(x),
{
    reveal(plain);
    reveal(toned);
    reveal(base_char);
}

proof fn lemma_plain_twice(x: char)
    ensures
        plain(plain(x)) == plain(x),
        base_char(plain(x)) == base_char(x),
{
    reveal(plain);
    reveal(base_char);
}

proof fn lemma_base_pointwise(a: Seq<char>, b: Seq<char>)
    requires
        a.len() == b.len(),
        forall|k: int| 0 <= k < a.len() ==> base_char(#[trigger] a[k]) == base_char(b[k]),
    ensures
        base_of(a) == base_of(b),
    decreases a.len(),
{
    if a.len() > 0 {
        lemma_base_pointwise(a.drop_last(), b.drop_last());
        assert(base_char(a[a.len() - 1]) == base_char(b[b.len() - 1]));
    }
}

proof fn lemma_plain_of_plain(s: Seq<char>)
    ensures
        plain_of(plain_of(s)) == plain_of(s),
        base_of(plain_of(s)) == base_of(s),
{
    let p = plain_of(s);
    assert forall|k: int| 0 <= k < p.len() implies #[trigger] plain(p[k]) == p[k]
        && base_char(p[k]) == base_char(s[k]) by {
        lemma_plain_twice(s[k]);
    }
    assert(plain_of(p) =~= p);
    lemma_base_pointwise(p, s);
}

/// The plain letters of a syllable marked at `t` with `c` are its own plain
/// letters with `c`'s plain letter at `t`.
proof fn lemma_plain_after_mark(s: Seq<char>, t: int, c: char)
    requires
        0 <= t < s.len(),
    ensures
        plain_of(plain_of(s).update(t, c)) == plain_of(s).update(t, plain(c)),
{
    let p = plain_of(s);
    lemma_plain_of_plain(s);
    assert forall|k: int| 0 <= k < p.len() && k != t implies plain(#[trigger] p[k]) == p[k] by {
        assert(plain_of(p)[k] == plain(p[k]));
    }
    assert(plain_of(p.update(t, c)) =~= p.update(t, plain(c)));
}

/// Marking with a full tone, once the mark's place `t` is known.
pub open spec fn mark_with(p: Seq<char>, t: int, tone: u8) -> Option<Seq<char>> {
    match toned(p[t], tone) {
        None => None,
        Some(c) => Some(p.update(t, c)),
    }
}

proof fn lemma_target_in_bounds(p: Seq<char>)
    ensures
        mark_target(p) matches Some(t) ==> 0 <= t < p.len(),
{
    lemma_first_in(p, |c: char| class_a(c));
    lemma_first_in(p, |c: char| class_o(c));
    lemma_first_in(p, |c: char| class_e(c));
    lemma_last_in(p, |c: char| class_iu(c));
    lemma_last_in(p, |c: char| class_nasal(c));
}

proof fn lemma_marked_via(s: Seq<char>, tone: u8)
    ensures
        tone == 5 ==> marked(s, tone) == Some(plain_of(s)),
        1 <= tone <= 4 && mark_target(plain_of(s)) is None ==> marked(s, tone) is None,
        1 <= tone <= 4 && mark_target(plain_of(s)) is Some ==> marked(s, tone) == mark_with(
            plain_of(s),
            mark_target(plain_of(s))->0,
            tone,
        ),
        !(1 <= tone <= 5) ==> marked(s, tone) is None,
{
    reveal(marked);
}

proof fn lemma_remark_full(s: Seq<char>, first: u8, then: u8)
    requires
        1 <= first <= 4,
        marked(s, first) is Some,
        1 <= then <= 4,
    ensures
        marked(marked(s, first)->0, then) == marked(s, then),
        marked(marked(s, first)->0, first) == marked(s, first),
        base_of(marked(s, first)->0) == base_of(s),
{
    let p = plain_of(s);
    lemma_marked_via(s, first);
    lemma_marked_via(s, then);
    lemma_target_in_bounds(p);
    let t = mark_target(p)->0;
    let c = toned(p[t], first)->0;
    let m = p.update(t, c);
    assert(marked(s, first) == Some(m));
    lemma_plain_after_mark(s, t, c);
    let q = p.update(t, plain(c));
    assert(plain_of(m) == q);
    lemma_remarked_letter(p[t], first);
    assert forall|k: int| 0 <= k < p.len() implies {
        &&& class_a(#[trigger] p[k]) == class_a(q[k])
        &&& class_o(p[k]) == class_o(q[k])
        &&& class_e(p[k]) == class_e(q[k])
        &&& class_iu(p[k]) == class_iu(q[k])
        &&& class_nasal(p[k]) == class_nasal(q[k])
    } by {}
    lemma_mark_target_agrees(p, q);
    lemma_marked_via(m, then);
    lemma_marked_via(m, first);
    assert(q[t] == plain(c));
    assert(toned(q[t], then) == toned(p[t], then));
    assert(toned(q[t], first) == toned(p[t], first));
    if let Some(d) = toned(p[t], then) {
        assert(q.update(t, d) =~= p.update(t, d));
    }
    assert(q.update(t, c) =~= m);
    lemma_plain_of_plain(s);
    assert forall|k: int| 0 <= k < m.len() implies base_char(#[trigger] m[k]) == base_char(
        p[k],
    ) by {}
    lemma_base_pointwise(m, p);
}

/// A new tone replaces the old one rather than stacking on it: once a syllable
/// is marked, marking it with any full tone gives what marking the original
/// with that tone gives, marking it again with the same tone changes nothing,
/// and the mark leaves the letters without their tone, and their number, as
/// they were.
pub proof fn law_a_new_tone_replaces_the_old_one(s: Seq<char>, first: u8, then: u8)
    requires
        marked(s, first) is Some,
        1 <= then <= 4,
    ensures
        marked(marked(s, first)->0, then) == marked(s, then),
        marked(marked(s, first)->0, first) == marked(s, first),
        base_of(marked(s, first)->0) == base_of(s),
        (marked(s, first)->0).len() == s.len(),
{
    lemma_marked_via(s, first);
    if first == 5 {
        let p = plain_of(s);
        lemma_plain_of_plain(s);
        lemma_marked_via(s, then);
        lemma_marked_via(p, then);
        lemma_marked_via(p, first);
    } else {
        lemma_remark_full(s, first, then);
        lemma_remark_length(s, first);
    }
}

proof fn lemma_least_span(sp: Seq<(int, int)>, f: spec_fn((int, int)) -> bool, w: int)
    requires
        0 <= w < sp.len(),
        f(sp[w]),
    ensures
        exists|k: int| 0 <= k < sp.len() && f(sp[k]) && forall|j: int| 0 <= j < k ==> !f(sp[j]),
    decreases w,
{
    if exists|j: int| 0 <= j < w && f(sp[j]) {
        let j = choose|j: int| 0 <= j < w && f(sp[j]);
        lemma_least_span(sp, f, j);
    } else {
        assert(0 <= w < sp.len() && f(sp[w]) && forall|j: int| 0 <= j < w ==> !f(sp[j]));
    }
}

proof fn lemma_caret_piece_bound(r: Seq<char>, caret: int)
    ensures
        caret_piece(r, caret) matches Some(k) ==> 0 <= k < pieces(r).len(),
{
    let sp = pieces(r);
    let inside = |p: (int, int)| p.0 < caret <= p.1;
    let before = |p: (int, int)| caret == p.0;
    if exists|k: int| 0 <= k < sp.len() && inside(sp[k]) {
        let w = choose|k: int| 0 <= k < sp.len() && inside(sp[k]);
        lemma_least_span(sp, inside, w);
    } else if exists|k: int| 0 <= k < sp.len() && before(sp[k]) {
        let w = choose|k: int| 0 <= k < sp.len() && before(sp[k]);
        lemma_least_span(sp, before, w);
    }
}

/// Marking the syllable at the caret rewrites that syllable alone and keeps
/// the reading's length, so the caret stays where it was: what comes before
/// the syllable and what comes after it are unchanged.
pub proof fn law_marking_at_the_caret_keeps_the_rest(r: Seq<char>, caret: int, tone: u8)
    requires
        marked_at(r, caret, tone) is Some,
    ensures
        (marked_at(r, caret, tone)->0).len() == r.len(),
        caret_piece(r, caret) matches Some(k) && 0 <= k < pieces(r).len() && {
            let (a, e) = pieces(r)[k];
            let o = marked_at(r, caret, tone)->0;
            &&& o.subrange(0, a) == r.subrange(0, a)
            &&& o.subrange(e, o.len() as int) == r.subrange(e, r.len() as int)
            &&& Some(o.subrange(a, e)) == marked(piece_text(r, k), tone)
        },
{
    lemma_caret_piece_bound(r, caret);
    lemma_piece_spans(r, 0);
    let k = caret_piece(r, caret)->0;
    assert(0 <= k < pieces(r).len());
    let (a, e) = pieces(r)[k];
    let text = piece_text(r, k);
    let m = marked(text, tone)->0;
    if 1 <= tone <= 4 {
        lemma_remark_length(text, tone);
    } else {
        lemma_marked_via(text, tone);
    }
    assert(m.len() == e - a);
    let o = r.subrange(0, a) + m + r.subrange(e, r.len() as int);
    assert(o.subrange(0, a) =~= r.subrange(0, a));
    assert(o.subrange(e, o.len() as int) =~= r.subrange(e, r.len() as int));
    assert(o.subrange(a, e) =~= m);
}

proof fn lemma_remark_length(s: Seq<char>, tone: u8)
    requires
        1 <= tone <= 4,
        marked(s, tone) is Some,
    ensures
        (marked(s, tone)->0).len() == s.len(),
{
    lemma_marked_via(s, tone);
    lemma_target_in_bounds(plain_of(s));
}

proof fn lemma_marks_are_tones(s: Seq<char>)
    ensures
        forall|k: int| 0 <= k < marks_in(s).len() ==> 1 <= #[trigger] marks_in(s)[k] <= 4,
    decreases s.len(),
{
    if s.len() > 0 {
        lemma_marks_are_tones(s.drop_first());
        let rest = marks_in(s.drop_first());
        if let Some(t) = tone_mark(s[0]) {
            assert forall|k: int| 0 <= k < marks_in(s).len() implies 1 <= #[trigger] marks_in(
                s,
            )[k] <= 4 by {
                if k > 0 {
                    assert(marks_in(s)[k] == rest[k - 1]);
                }
            }
        }
    }
}

/// Every syllable of a readable reading carries a tone from 1 to 5 and at most
/// one tone mark; it is the neutral tone exactly when it carries none, and
/// otherwise the tone its mark writes.
pub proof fn law_a_syllable_carries_at_most_one_mark(r: Seq<char>)
    requires
        readable(r),
    ensures
        forall|k: int|
            0 <= k < syllables_of(r).len() ==> {
                let (text, tone) = #[trigger] syllables_of(r)[k];
                &&& 1 <= tone <= 5
                &&& marks_in(text).len() <= 1
                &&& (tone == 5) == (marks_in(text).len() == 0)
                &&& marks_in(text).len() == 1 ==> tone == marks_in(text)[0]
            },
{
    assert forall|k: int| 0 <= k < syllables_of(r).len() implies {
        let (text, tone) = #[trigger] syllables_of(r)[k];
        &&& 1 <= tone <= 5
        &&& marks_in(text).len() <= 1
        &&& (tone == 5) == (marks_in(text).len() == 0)
        &&& marks_in(text).len() == 1 ==> tone == marks_in(text)[0]
    } by {
        let text = piece_text(r, k);
        assert(syllable_tone_of(text) is Some);
        lemma_marks_are_tones(text);
    }
}

/// The characters of `s` that are not separators, in order.
pub open spec fn letters(s: Seq<char>) -> Seq<char>
    decreases s.len(),
{
    if s.len() == 0 {
        seq![]
    } else if separator(s[0]) {
        letters(s.drop_first())
    } else {
        seq![s[0]] + letters(s.drop_first())
    }
}

/// The texts of the spans `sp` of `r`.
pub open spec fn span_texts(r: Seq<char>, sp: Seq<(int, int)>) -> Seq<Seq<char>> {
    sp.map_values(|p: (int, int)| r.subrange(p.0, p.1))
}

proof fn lemma_letters_concat(a: Seq<char>, b: Seq<char>)
    ensures
        letters(a + b) == letters(a) + letters(b),
    decreases a.len(),
{
    if a.len() == 0 {
        assert(a + b =~= b);
    } else {
        lemma_letters_concat(a.drop_first(), b);
        assert((a + b).drop_first() =~= a.drop_first() + b);
        assert((a + b)[0] == a[0]);
        if !separator(a[0]) {
            assert(seq![a[0]] + (letters(a.drop_first()) + letters(b)) =~= (seq![a[0]] + letters(
                a.drop_first(),
            )) + letters(b));
        }
    }
}

proof fn lemma_letters_of_letters(a: Seq<char>)
    requires
        forall|k: int| 0 <= k < a.len() ==> !separator(#[trigger] a[k]),
    ensures
        letters(a) == a,
    decreases a.len(),
{
    if a.len() > 0 {
        lemma_letters_of_letters(a.drop_first());
        assert(seq![a[0]] + a.drop_first() =~= a);
    }
}

proof fn lemma_span_texts(r: Seq<char>, i: int)
    requires
        0 <= i <= r.len(),
    ensures
        span_texts(r, piece_spans(r, i)).flatten() == letters(r.subrange(i, r.len() as int)),
    decreases r.len() - i,
{
    let tail = r.subrange(i, r.len() as int);
    if i == r.len() {
        assert(tail =~= Seq::<char>::empty());
    } else if separator(r[i]) {
        lemma_span_texts(r, i + 1);
        assert(piece_spans(r, i) == piece_spans(r, i + 1));
        assert(tail.drop_first() =~= r.subrange(i + 1, r.len() as int));
    } else {
        lemma_piece_end(r, i);
        lemma_piece_letters(r, i);
        let e = piece_end(r, i);
        lemma_span_texts(r, e);
        let rest = piece_spans(r, e);
        assert(piece_spans(r, i) == seq![(i, e)] + rest);
        let ts = span_texts(r, piece_spans(r, i));
        assert(ts.len() > 0);
        assert(ts.first() == r.subrange(i, e));
        assert(ts.drop_first() =~= span_texts(r, rest));
        assert(tail =~= r.subrange(i, e) + r.subrange(e, r.len() as int));
        lemma_letters_concat(r.subrange(i, e), r.subrange(e, r.len() as int));
        lemma_letters_of_letters(r.subrange(i, e));
    }
}

/// The syllables of a reading, written one after another, are the reading
/// with its separators taken out: splitting drops nothing else and adds
/// nothing.
pub proof fn law_the_syllables_spell_the_reading(r: Seq<char>)
    ensures
        syllables_of(r).map_values(|p: (Seq<char>, u8)| p.0).flatten() == letters(r),
{
    lemma_span_texts(r, 0);
    assert(r.subrange(0, r.len() as int) =~= r);
    assert(syllables_of(r).map_values(|p: (Seq<char>, u8)| p.0) =~= span_texts(r, pieces(r)));
}

proof fn lemma_toned_reads(x: char, t: u8)
    requires
        toned(x, t) is Some,
    ensures
        tone_mark(toned(x, t)->0) == Some(t),
{
    reveal(toned);
}

/// The one piece of a text that splits into one piece holds each of its
/// letters that is not a separator.
proof fn lemma_in_the_one_piece(m: Seq<char>, k: int)
    requires
        pieces(m).len() == 1,
        0 <= k < m.len(),
        !separator(m[k]),
    ensures
        pieces(m)[0].0 <= k < pieces(m)[0].1,
{
    lemma_covered(m, 0, k);
}

/// A tone written onto a syllable is read back exactly when what was written
/// still splits into one syllable.
///
/// For any text and any full tone that can be written on it, the result reads
/// as one syllable of that tone if, and only if, it splits into one piece; for
/// the neutral tone, if and only if it splits into one piece that holds a
/// vowel. Capitals, `ê` and syllabic nasals are included: what can go wrong is
/// only the split, as when a capital vowel read as a consonant takes the mark
/// and becomes a vowel ahead of its consonants (`Ana`). Where marking leaves
/// every letter playing the same part in the split, a reading of one syllable
/// stays one piece.
pub proof fn law_a_tone_written_is_read_back_while_it_stays_one_syllable(s: Seq<char>, t: u8)
    requires
        marked(s, t) is Some,
    ensures
        ({
            let m = marked(s, t)->0;
            let read = readable(m) && syllables_of(m).len() == 1 && syllables_of(m)[0].1 == t;
            &&& 1 <= t <= 4 ==> (read <==> pieces(m).len() == 1)
            &&& t == 5 ==> (read <==> pieces(m).len() == 1 && has_vowel(m))
            &&& readable(s) && syllables_of(s).len() == 1 && same_shape(s, m) ==> pieces(m).len()
                == 1
        }),
{
    let m = marked(s, t)->0;
    let p = plain_of(s);
    lemma_marked_via(s, t);
    if same_shape(s, m) {
        lemma_shape_spans(s, m, 0);
    }
    assert forall|k: int| 0 <= k < p.len() implies tone_mark(#[trigger] p[k]) is None by {
        lemma_plain_letter(s[k]);
    }
    if 1 <= t <= 4 {
        lemma_target_in_bounds(p);
        let tt = mark_target(p)->0;
        lemma_toned_reads(p[tt], t);
        let d = toned(p[tt], t)->0;
        assert(m == p.update(tt, d));
        lemma_marked_is_vowel(d);
        if pieces(m).len() == 1 {
            lemma_piece_spans(m, 0);
            lemma_in_the_one_piece(m, tt);
            let (a, e) = pieces(m)[0];
            let y = m.subrange(a, e);
            assert forall|k: int| 0 <= k < y.len() && k != tt - a implies tone_mark(
                #[trigger] y[k],
            ) is None by {
                assert(y[k] == m[a + k]);
            }
            lemma_marks_single(y, tt - a, t);
            assert(piece_text(m, 0) == y);
            assert(syllable_tone_of(y) == Some(t));
        }
    } else {
        assert(m == p);
        if pieces(m).len() == 1 {
            lemma_piece_spans(m, 0);
            let (a, e) = pieces(m)[0];
            let y = m.subrange(a, e);
            assert forall|k: int| 0 <= k < y.len() implies tone_mark(#[trigger] y[k]) is None by {
                assert(y[k] == m[a + k]);
            }
            lemma_marks_none(y);
            assert(piece_text(m, 0) == y);
            if has_vowel(m) {
                let w = choose|w: int| 0 <= w < m.len() && vowel(m[w]);
                lemma_in_the_one_piece(m, w);
                assert(vowel(y[w - a]));
                assert(syllable_tone_of(y) == Some(5u8));
            }
            if readable(m) && syllables_of(m)[0].1 == 5 {
                assert(syllable_tone_of(y) is Some);
                let k = choose|k: int| 0 <= k < y.len() && vowel(y[k]);
                assert(vowel(m[a + k]));
            }
        }
    }
}

/// A reading with no vowel in it is not read as syllables: a blank reading, or
/// one of spaces, separators or consonants alone, gives none.
pub proof fn law_a_reading_without_a_vowel_is_not_read(r: Seq<char>)
    requires
        forall|k: int| 0 <= k < r.len() ==> !vowel(#[trigger] r[k]),
    ensures
        !readable(r),
{
    if readable(r) {
        lemma_piece_spans(r, 0);
        let (a, e) = pieces(r)[0];
        assert(syllable_tone_of(piece_text(r, 0)) is Some);
        let x = r.subrange(a, e);
        if marks_in(x).len() == 0 {
            let k = choose|k: int| 0 <= k < x.len() && vowel(x[k]);
            assert(vowel(r[a + k]));
        } else {
            if forall|k: int| 0 <= k < x.len() ==> tone_mark(#[trigger] x[k]) is None {
                lemma_marks_none(x);
            }
            let k = choose|k: int| 0 <= k < x.len() && tone_mark(#[trigger] x[k]) is Some;
            lemma_marked_is_vowel(x[k]);
            assert(vowel(r[a + k]));
        }
    }
}

/// A tone written onto a syllable is the tone read back from it.
///
/// For a syllable written in ordinary letters (no capital, no `ê` and no
/// syllabic nasal) that reads as one syllable, marking it with a tone, the
/// neutral one included, gives text that still reads as one syllable, and that
/// syllable carries the tone that was written. This is why marking and reading
/// share one rule.
pub proof fn law_a_tone_written_is_the_tone_read(s: Seq<char>, t: u8)
    requires
        readable(s),
        syllables_of(s).len() == 1,
        ordinary_letters(s),
        1 <= t <= 5,
    ensures
        marked(s, t) matches Some(m) && readable(m) && syllables_of(m).len() == 1
            && syllables_of(m)[0].1 == t,
{
    let w = lemma_vowel_in_piece(s);
    if t == 5 {
        lemma_neutral_is_read(s, w);
    } else {
        lemma_full_tone_is_read(s, t, w);
    }
}

} // verus!
