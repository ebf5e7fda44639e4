//! The rules that build the shipped word list from the upstream sources.
//!
//! Reading the files and writing the artifact is the program's business; what
//! is decided here is which words are kept, which dictionary form of each is
//! taught, and how the fields of the upstream rows are read.

use vstd::prelude::*;

use crate::dataset::Word;
use crate::text::{
    chars_of, digit, first_solid, is_white, join, join_strings, push_char, str_equal, string_of_range,
    trim, trim_bounds, trimmed, trimmed_chars, views, white,
};
use crate::time::digits_value;

verus! {

/// Whether `c` is uppercase by Unicode's `Uppercase` property.
pub uninterp spec fn uppercase(c: char) -> bool;

/// `char::is_uppercase`.
#[verifier::external_body]
fn is_upper(c: char) -> (r: bool)
    ensures
        r == uppercase(c),
{
    c.is_uppercase()
}

/// One reading/traditional-form variant of a dictionary word.
#[derive(Clone, Debug, PartialEq)]
pub struct RawWordForm {
    pub transcriptions: RawTranscriptions,
    pub meanings: Vec<String>,
}

/// How a form is read.
#[derive(Clone, Debug, PartialEq)]
pub struct RawTranscriptions {
    /// Hanyu Pinyin with tone marks, e.g. `"ài hào"`.
    pub pinyin: String,
}

/// One entry of the HSK word list.
#[derive(Clone, Debug, PartialEq)]
pub struct RawWord {
    /// Simplified headword.
    pub s: String,
    /// Levels the word appears in, e.g. `["n3", "o2"]`.
    pub levels: Vec<String>,
    pub forms: Vec<RawWordForm>,
}

// ---------------------------------------------------------------------------
// Numbers in fields
// ---------------------------------------------------------------------------

/// Every character of `s` is an ASCII digit.
pub open spec fn digits_only(s: Seq<char>) -> bool {
    forall|i: int| 0 <= i < s.len() ==> digit(#[trigger] s[i])
}

/// What `str::parse::<u8>` reads from `s`: an optional `+`, then at least one
/// ASCII digit and nothing else, worth at most 255.
pub open spec fn parsed_u8(s: Seq<char>) -> Option<u8> {
    let t = if s.len() > 0 && s[0] == '+' {
        s.drop_first()
    } else {
        s
    };
    if t.len() > 0 && digits_only(t) && digits_value(t) <= 255 {
        Some(digits_value(t) as u8)
    } else {
        None
    }
}

proof fn lemma_digits_value_grows(t: Seq<char>, k: int)
    requires
        0 <= k <= t.len(),
        digits_only(t),
    ensures
        0 <= digits_value(t.take(k)) <= digits_value(t),
    decreases t.len() - k,
{
    if k < t.len() {
        lemma_digits_value_grows(t, k + 1);
        assert(t.take(k + 1).drop_last() =~= t.take(k));
        assert(digit(t[k]));
    } else {
        assert(t.take(k) =~= t);
        lemma_digits_nonneg(t);
    }
}

proof fn lemma_digits_nonneg(t: Seq<char>)
    requires
        digits_only(t),
    ensures
        digits_value(t) >= 0,
    decreases t.len(),
{
    if t.len() > 0 {
        assert(digits_only(t.drop_last()));
        lemma_digits_nonneg(t.drop_last());
        assert(digit(t[t.len() - 1]));
    }
}

/// The value of the ASCII digits `s[from..]`, or `None` when one is not a digit,
/// there are none, or they are worth more than 255.
fn digits_u8(s: &Vec<char>, from: usize) -> (r: Option<u8>)
    requires
        from <= s.len(),
    ensures
        ({
            let t = s@.skip(from as int);
            r == if t.len() > 0 && digits_only(t) && digits_value(t) <= 255 {
                Some(digits_value(t) as u8)
            } else {
                None
            }
        }),
{
    let ghost t = s@.skip(from as int);
    if from == s.len() {
        return None;
    }
    let mut value: u32 = 0;
    let mut i: usize = from;
    while i < s.len()
        invariant
            from <= i <= s.len(),
            t == s@.skip(from as int),
            digits_only(t.take(i - from)),
            value == digits_value(t.take(i - from)),
            value <= 255,
        decreases s.len() - i,
    {
        let c = s[i];
        assert(t[i - from] == c);
        if !('0' <= c && c <= '9') {
            proof {
                assert(!digit(t[i - from]));
            }
            return None;
        }
        proof {
            assert(t.take(i + 1 - from).drop_last() =~= t.take(i - from));
        }
        value = value * 10 + (c as u32 - '0' as u32);
        if value > 255 {
            proof {
                assert(digits_only(t.take(i + 1 - from)));
                if digits_only(t) {
                    lemma_digits_value_grows(t, i + 1 - from);
                }
            }
            return None;
        }
        i += 1;
    }
    assert(t.take(i - from) =~= t);
    Some(value as u8)
}

/// `str::parse::<u8>` on `s[from..]`.
fn parse_u8_from(s: &Vec<char>, from: usize) -> (r: Option<u8>)
    requires
        from <= s.len(),
    ensures
        r == parsed_u8(s@.skip(from as int)),
{
    if from < s.len() && s[from] == '+' {
        assert(s@.skip(from as int).drop_first() =~= s@.skip(from + 1));
        digits_u8(s, from + 1)
    } else {
        digits_u8(s, from)
    }
}

// ---------------------------------------------------------------------------
// HSK levels
// ---------------------------------------------------------------------------

/// The current HSK level a list code names: `n1`..`n7`.
pub open spec fn level_of(code: Seq<char>) -> Option<u8> {
    if code.len() > 0 && code[0] == 'n' {
        match parsed_u8(code.drop_first()) {
            Some(v) => if 1 <= v <= 7 {
                Some(v)
            } else {
                None
            },
            None => None,
        }
    } else {
        None
    }
}

/// The lowest current level among the codes.
pub open spec fn lowest_level(codes: Seq<Seq<char>>) -> Option<u8>
    decreases codes.len(),
{
    if codes.len() == 0 {
        None
    } else {
        let rest = lowest_level(codes.drop_last());
        match level_of(codes.last()) {
            Some(v) => match rest {
                Some(r) => Some(if r < v {
                    r
                } else {
                    v
                }),
                None => Some(v),
            },
            None => rest,
        }
    }
}

/// The HSK 3.0 level of an entry, which is the lowest `n1`..`n7` it appears in.
/// The older HSK 2.0 codes (`o1`..`o6`) and the mixed ones are not the course.
pub fn hsk3_level(levels: &[String]) -> (r: Option<u8>)
    ensures
        r == lowest_level(crate::text::views(levels@)),
{
    let ghost codes = crate::text::views(levels@);
    let mut best: Option<u8> = None;
    let mut k: usize = 0;
    while k < levels.len()
        invariant
            k <= levels.len(),
            codes == crate::text::views(levels@),
            best == lowest_level(codes.take(k as int)),
        decreases levels.len() - k,
    {
        proof {
            assert(codes.take(k + 1).drop_last() =~= codes.take(k as int));
            assert(codes.take(k + 1).last() == levels@[k as int]@);
        }
        let code = chars_of(levels[k].as_str());
        let level = if code.len() > 0 && code[0] == 'n' {
            assert(code@.skip(1) =~= code@.drop_first());
            match parse_u8_from(&code, 1) {
                Some(v) => if 1 <= v && v <= 7 {
                    Some(v)
                } else {
                    None
                },
                None => None,
            }
        } else {
            None
        };
        best = match level {
            Some(v) => match best {
                Some(b) => Some(if b < v {
                    b
                } else {
                    v
                }),
                None => Some(v),
            },
            None => best,
        };
        k += 1;
    }
    assert(codes.take(k as int) =~= codes);
    best
}

// ---------------------------------------------------------------------------
// Fields of the upstream rows
// ---------------------------------------------------------------------------

/// First `char` of a string once it is trimmed, ignoring anything after it.
pub fn single_char(value: &str) -> (r: Option<char>)
    ensures
        r == if trim(value@).len() > 0 {
            Some(trim(value@)[0])
        } else {
            None
        },
{
    let t = trimmed_chars(value);
    if t.len() > 0 {
        Some(t[0])
    } else {
        None
    }
}

/// How many ASCII digits `s` starts with.
pub open spec fn leading_digits(s: Seq<char>, i: int) -> int
    decreases s.len() - i,
{
    if 0 <= i < s.len() && digit(s[i]) {
        leading_digits(s, i + 1)
    } else {
        i
    }
}

/// The number a possibly-empty or decorated field starts with: the ASCII digits
/// at the front of the trimmed field, or `0` when there are none or they are
/// worth more than a `u8` holds.
pub open spec fn leading_u8(s: Seq<char>) -> u8 {
    let t = trim(s);
    let d = t.take(leading_digits(t, 0));
    if d.len() > 0 && digits_value(d) <= 255 {
        digits_value(d) as u8
    } else {
        0
    }
}

/// Parse the leading integer of a possibly-empty or decorated field.
pub fn parse_leading_u8(value: &str) -> (r: u8)
    ensures
        r == leading_u8(value@),
{
    let t = trimmed_chars(value);
    let mut n: usize = 0;
    while n < t.len() && '0' <= t[n] && t[n] <= '9'
        invariant
            n <= t.len(),
            leading_digits(t@, n as int) == leading_digits(t@, 0),
            forall|i: int| 0 <= i < n ==> digit(#[trigger] t@[i]),
        decreases t.len() - n,
    {
        n += 1;
    }
    let mut digits: Vec<char> = Vec::new();
    let mut k: usize = 0;
    while k < n
        invariant
            k <= n <= t.len(),
            digits@ == t@.take(k as int),
        decreases n - k,
    {
        digits.push(t[k]);
        assert(digits@ =~= t@.take(k + 1));
        k += 1;
    }
    proof {
        assert(digits_only(digits@));
    }
    match digits_u8(&digits, 0) {
        Some(v) => {
            assert(digits@.skip(0) =~= digits@);
            v
        },
        None => {
            assert(digits@.skip(0) =~= digits@);
            0
        },
    }
}

/// A compact pronunciation string cut at every `,`, `;` and `/`.
pub open spec fn cut_pieces(s: Seq<char>) -> Seq<Seq<char>>
    decreases s.len(),
{
    if s.len() == 0 {
        seq![seq![]]
    } else {
        let rest = cut_pieces(s.drop_last());
        let c = s.last();
        if c == ',' || c == ';' || c == '/' {
            rest.push(seq![])
        } else {
            rest.update(rest.len() - 1, rest.last().push(c))
        }
    }
}

/// The pieces trimmed, with the empty ones dropped.
pub open spec fn nonblank_trimmed(pieces: Seq<Seq<char>>) -> Seq<Seq<char>>
    decreases pieces.len(),
{
    if pieces.len() == 0 {
        seq![]
    } else {
        let rest = nonblank_trimmed(pieces.drop_last());
        let t = trim(pieces.last());
        if t.len() == 0 {
            rest
        } else {
            rest.push(t)
        }
    }
}

proof fn lemma_cut_pieces_nonempty(s: Seq<char>)
    ensures
        cut_pieces(s).len() >= 1,
    decreases s.len(),
{
    if s.len() > 0 {
        lemma_cut_pieces_nonempty(s.drop_last());
    }
}

/// Split a compact pronunciation string such as `"hǎo, hào"` into readings.
pub fn split_readings(value: &str) -> (r: Vec<String>)
    ensures
        crate::text::views(r@) == nonblank_trimmed(cut_pieces(value@)),
{
    let chars = chars_of(value);
    let mut out: Vec<String> = Vec::new();
    let mut start: usize = 0;
    let mut k: usize = 0;
    proof {
        assert(chars@.take(0) =~= Seq::<char>::empty());
    }
    while k < chars.len()
        invariant
            start <= k <= chars.len(),
            chars@ == value@,
            cut_pieces(chars@.take(k as int)).last() == chars@.subrange(start as int, k as int),
            crate::text::views(out@) == nonblank_trimmed(cut_pieces(chars@.take(k as int)).drop_last()),
            cut_pieces(chars@.take(k as int)).len() >= 1,
        decreases chars.len() - k,
    {
        let c = chars[k];
        let ghost p = chars@.take(k as int);
        let ghost pieces = cut_pieces(p);
        proof {
            assert(chars@.take(k + 1).drop_last() =~= p);
            assert(chars@.take(k + 1).last() == c);
        }
        if c == ',' || c == ';' || c == '/' {
            let piece = string_of_range(&chars, start, k);
            let t = crate::text::trimmed(piece.as_str());
            let ghost before = out@;
            if !t.as_str().is_empty() {
                out.push(t);
                proof {
                    crate::text::lemma_views_push(before, t);
                }
            }
            proof {
                let next = cut_pieces(chars@.take(k + 1));
                assert(next == pieces.push(seq![]));
                assert(next.drop_last() =~= pieces);
                assert(pieces.drop_last().push(pieces.last()) =~= pieces);
                assert(pieces.last() == piece@);
                assert(chars@.subrange(k + 1, k + 1) =~= Seq::<char>::empty());
            }
            start = k + 1;
        } else {
            proof {
                let next = cut_pieces(chars@.take(k + 1));
                assert(next.drop_last() =~= pieces.drop_last());
                assert(chars@.subrange(start as int, k + 1) =~= chars@.subrange(start as int, k as int).push(c));
            }
        }
        k += 1;
    }
    let piece = string_of_range(&chars, start, k);
    let t = crate::text::trimmed(piece.as_str());
    let ghost before = out@;
    let ghost pieces = cut_pieces(chars@.take(k as int));
    if !t.as_str().is_empty() {
        out.push(t);
        proof {
            crate::text::lemma_views_push(before, t);
        }
    }
    proof {
        assert(chars@.take(k as int) =~= chars@);
        assert(pieces.drop_last().push(pieces.last()) =~= pieces);
    }
    out
}

// ---------------------------------------------------------------------------
// Choosing what to teach
// ---------------------------------------------------------------------------

/// A reading is a proper noun when its first letter, after any leading blanks,
/// is uppercase: the dictionary capitalises surnames and place names.
pub open spec fn proper_noun(pinyin: Seq<char>) -> bool {
    let a = first_solid(pinyin, 0);
    a < pinyin.len() && uppercase(pinyin[a])
}

/// True when a reading is a proper noun: the dictionary capitalises its first
/// letter.
pub fn is_proper_noun(pinyin: &str) -> (r: bool)
    ensures
        r == proper_noun(pinyin@),
{
    let v = chars_of(pinyin);
    let (a, _b) = trim_bounds(&v);
    if a < v.len() {
        is_upper(v[a])
    } else {
        false
    }
}

/// A form a learner can be taught in place of a proper noun: an ordinary
/// reading with a meaning.
pub open spec fn ordinary(f: RawWordForm) -> bool {
    !proper_noun(f.transcriptions.pinyin@) && f.meanings.len() > 0
}

/// The first ordinary form at or after `k`.
pub open spec fn first_ordinary(forms: Seq<RawWordForm>, k: int) -> Option<int>
    decreases forms.len() - k,
{
    if k < 0 || k >= forms.len() {
        None
    } else if ordinary(forms[k]) {
        Some(k)
    } else {
        first_ordinary(forms, k + 1)
    }
}

/// Which form is taught: the first, unless it is a proper noun and some form is
/// ordinary, in which case the first ordinary one.
pub open spec fn chosen_form(forms: Seq<RawWordForm>) -> Option<int> {
    if forms.len() == 0 {
        None
    } else if proper_noun(forms[0].transcriptions.pinyin@) && first_ordinary(forms, 0) is Some {
        first_ordinary(forms, 0)
    } else {
        Some(0)
    }
}

/// Choose which of a word's dictionary forms to teach.
///
/// A surname or a place name has its own capitalised form, frequently first:
/// 安 is `Ān` "surname An" before `ān` "peaceful". A capitalised reading is
/// passed over whenever an ordinary one exists; otherwise the dictionary's own
/// order stands.
pub fn choose_form(forms: &[RawWordForm]) -> (r: Option<&RawWordForm>)
    ensures
        match chosen_form(forms@) {
            None => r is None,
            Some(i) => r is Some && 0 <= i < forms.len() && *r->0 == forms@[i],
        },
{
    if forms.len() == 0 {
        return None;
    }
    if is_proper_noun(forms[0].transcriptions.pinyin.as_str()) {
        let mut k: usize = 0;
        while k < forms.len()
            invariant
                k <= forms.len(),
                forms.len() > 0,
                proper_noun(forms@[0].transcriptions.pinyin@),
                first_ordinary(forms@, 0) == first_ordinary(forms@, k as int),
            decreases forms.len() - k,
        {
            if !is_proper_noun(forms[k].transcriptions.pinyin.as_str()) && forms[k].meanings.len()
                > 0 {
                return Some(&forms[k]);
            }
            k += 1;
        }
    }
    Some(&forms[0])
}


// ---------------------------------------------------------------------------
// Counting levels
// ---------------------------------------------------------------------------

/// How many of `hs` are `v`.
pub open spec fn count_of(hs: Seq<u8>, v: int) -> nat
    decreases hs.len(),
{
    if hs.len() == 0 {
        0
    } else {
        count_of(hs.drop_last(), v) + if hs.last() == v {
            1nat
        } else {
            0nat
        }
    }
}

/// Each level below `v` that occurs in `hs`, lowest first, with how often it
/// occurs.
pub open spec fn census_below(hs: Seq<u8>, v: int) -> Seq<(u8, usize)>
    decreases v,
{
    if v <= 0 {
        seq![]
    } else {
        let rest = census_below(hs, v - 1);
        if count_of(hs, v - 1) > 0 {
            rest.push(((v - 1) as u8, count_of(hs, v - 1) as usize))
        } else {
            rest
        }
    }
}

/// The levels of the words, in order.
pub open spec fn levels_of(words: Seq<Word>) -> Seq<u8> {
    words.map_values(|w: Word| w.hsk)
}

pub(crate) proof fn lemma_count_of_bound(hs: Seq<u8>, v: int)
    ensures
        count_of(hs, v) <= hs.len(),
    decreases hs.len(),
{
    if hs.len() > 0 {
        lemma_count_of_bound(hs.drop_last(), v);
    }
}

/// How many words sit at each level, lowest first; a level no word has is not
/// listed.
pub fn level_census(words: &[Word]) -> (r: Vec<(u8, usize)>)
    ensures
        r@ == census_below(levels_of(words@), 256),
{
    let ghost hs = levels_of(words@);
    let mut census: Vec<(u8, usize)> = Vec::new();
    let mut v: u16 = 0;
    while v < 256
        invariant
            v <= 256,
            hs == levels_of(words@),
            census@ == census_below(hs, v as int),
        decreases 256 - v,
    {
        let mut count: usize = 0;
        let mut k: usize = 0;
        while k < words.len()
            invariant
                k <= words.len(),
                v < 256,
                hs == levels_of(words@),
                count == count_of(hs.take(k as int), v as int),
            decreases words.len() - k,
        {
            proof {
                assert(hs.take(k + 1).drop_last() =~= hs.take(k as int));
                lemma_count_of_bound(hs.take(k as int), v as int);
            }
            if words[k].hsk as u16 == v {
                count += 1;
            }
            k += 1;
        }
        proof {
            assert(hs.take(k as int) =~= hs);
        }
        if count > 0 {
            census.push((v as u8, count));
        }
        v += 1;
    }
    census
}

// ---------------------------------------------------------------------------
// The word list
// ---------------------------------------------------------------------------

/// The rank the frequency list gives `c`: the first pair that names it.
pub open spec fn rank_of(ranks: Seq<(char, u32)>, c: char) -> Option<u32>
    decreases ranks.len(),
{
    if ranks.len() == 0 {
        None
    } else if ranks[0].0 == c {
        Some(ranks[0].1)
    } else {
        rank_of(ranks.drop_first(), c)
    }
}

/// The frequency list gives `c` a rank.
pub open spec fn ranked(ranks: Seq<(char, u32)>, c: char) -> bool {
    match rank_of(ranks, c) {
        Some(r) => r > 0,
        None => false,
    }
}

/// Every character of the word can be drawn and has a frequency rank.
pub open spec fn teachable(chars: Seq<char>, ranks: Seq<(char, u32)>, drawable: Seq<char>) -> bool {
    forall|i: int|
        0 <= i < chars.len() ==> crate::progress::holds(drawable, #[trigger] chars[i]) && ranked(
            ranks,
            chars[i],
        )
}

/// The rank of a word's rarest character: the largest rank among them.
pub open spec fn rarest(chars: Seq<char>, ranks: Seq<(char, u32)>) -> u32
    decreases chars.len(),
{
    if chars.len() == 0 {
        0
    } else {
        let rest = rarest(chars.drop_last(), ranks);
        let r = match rank_of(ranks, chars.last()) {
            Some(r) => r,
            None => 0,
        };
        if rest < r {
            r
        } else {
            rest
        }
    }
}

/// The characters of `s` that are not blanks: the reading with its spaces
/// taken out.
pub open spec fn solid(s: Seq<char>) -> Seq<char>
    decreases s.len(),
{
    if s.len() == 0 {
        seq![]
    } else if white(s.last()) {
        solid(s.drop_last())
    } else {
        solid(s.drop_last()).push(s.last())
    }
}

/// Why an entry of the word list is not a word of the course.
#[derive(Clone, Copy, Debug, PartialEq, Eq, Structural)]
pub enum Passed {
    /// One character: the course teaches those.
    SingleCharacter,
    /// Not in a current HSK list.
    NotHsk3,
    /// A character the board cannot draw, or one with no frequency rank.
    Unteachable,
    /// No form, or a form with no reading.
    NoReading,
}

/// A word as plain values: text, reading, meaning, level and rank.
pub type WordModel = (Seq<char>, Seq<char>, Seq<char>, u8, u32);

/// The plain values of a word.
pub open spec fn word_model(w: Word) -> WordModel {
    (w.text@, w.pinyin@, w.meaning@, w.hsk, w.rank)
}

/// What one entry of the list becomes, before duplicates are dropped.
pub open spec fn judged(e: RawWord, ranks: Seq<(char, u32)>, drawable: Seq<char>) -> Result<
    WordModel,
    Passed,
> {
    let text = trim(e.s@);
    if text.len() < 2 {
        Err(Passed::SingleCharacter)
    } else {
        match lowest_level(views(e.levels@)) {
            None => Err(Passed::NotHsk3),
            Some(hsk) => if !teachable(text, ranks, drawable) {
                Err(Passed::Unteachable)
            } else {
                match chosen_form(e.forms@) {
                    None => Err(Passed::NoReading),
                    Some(i) => {
                        let form = e.forms@[i];
                        let pinyin = solid(form.transcriptions.pinyin@);
                        if pinyin.len() == 0 {
                            Err(Passed::NoReading)
                        } else {
                            Ok(
                                (
                                    text,
                                    pinyin,
                                    join(nonblank_trimmed(views(form.meanings@)), "; "@),
                                    hsk,
                                    rarest(text, ranks),
                                ),
                            )
                        }
                    },
                }
            },
        }
    }
}

/// The words the first `n` entries give, the first mention of a text winning.
pub open spec fn kept_words(
    raw: Seq<RawWord>,
    ranks: Seq<(char, u32)>,
    drawable: Seq<char>,
    n: int,
) -> Seq<WordModel>
    decreases n,
{
    if n <= 0 {
        seq![]
    } else {
        let rest = kept_words(raw, ranks, drawable, n - 1);
        match judged(raw[n - 1], ranks, drawable) {
            Ok(w) => if exists|k: int| 0 <= k < rest.len() && (#[trigger] rest[k]).0 == w.0 {
                rest
            } else {
                rest.push(w)
            },
            Err(_) => rest,
        }
    }
}

/// How many of the first `n` entries were passed over for `why`.
pub open spec fn passed_count(
    raw: Seq<RawWord>,
    ranks: Seq<(char, u32)>,
    drawable: Seq<char>,
    n: int,
    why: Passed,
) -> nat
    decreases n,
{
    if n <= 0 {
        0
    } else {
        passed_count(raw, ranks, drawable, n - 1, why) + if judged(raw[n - 1], ranks, drawable)
            == Err::<WordModel, Passed>(why) {
            1nat
        } else {
            0nat
        }
    }
}

/// The word list, and how many entries were passed over and why.
#[derive(Clone, Debug)]
pub struct WordList {
    pub words: Vec<Word>,
    pub single_character: usize,
    pub not_hsk3: usize,
    pub unteachable: usize,
}

fn find_rank(ranks: &[(char, u32)], c: char) -> (r: Option<u32>)
    ensures
        r == rank_of(ranks@, c),
{
    let mut k: usize = 0;
    assert(ranks@.skip(0) =~= ranks@);
    while k < ranks.len()
        invariant
            k <= ranks.len(),
            rank_of(ranks@, c) == rank_of(ranks@.skip(k as int), c),
        decreases ranks.len() - k,
    {
        assert(ranks@.skip(k as int).drop_first() =~= ranks@.skip(k + 1));
        if ranks[k].0 == c {
            return Some(ranks[k].1);
        }
        k += 1;
    }
    None
}

fn has_char(set: &[char], c: char) -> (r: bool)
    ensures
        r == crate::progress::holds(set@, c),
{
    let mut i: usize = 0;
    while i < set.len()
        invariant
            i <= set.len(),
            forall|k: int| 0 <= k < i ==> set@[k] != c,
        decreases set.len() - i,
    {
        if set[i] == c {
            return true;
        }
        i += 1;
    }
    false
}

/// Whether the characters can all be taught, and the rank of the rarest.
fn teachable_rank(chars: &Vec<char>, ranks: &[(char, u32)], drawable: &[char]) -> (r: Option<u32>)
    ensures
        match r {
            Some(rank) => teachable(chars@, ranks@, drawable@) && rank == rarest(chars@, ranks@),
            None => !teachable(chars@, ranks@, drawable@),
        },
{
    let mut rank: u32 = 0;
    let mut k: usize = 0;
    while k < chars.len()
        invariant
            k <= chars.len(),
            teachable(chars@.take(k as int), ranks@, drawable@),
            rank == rarest(chars@.take(k as int), ranks@),
        decreases chars.len() - k,
    {
        proof {
            assert(chars@.take(k + 1).drop_last() =~= chars@.take(k as int));
        }
        let c = chars[k];
        let found = find_rank(ranks, c);
        let ok = has_char(drawable, c);
        match found {
            Some(r) => {
                if !ok || r == 0 {
                    proof {
                        assert(chars@[k as int] == c);
                    }
                    return None;
                }
                if rank < r {
                    rank = r;
                }
            },
            None => {
                proof {
                    assert(chars@[k as int] == c);
                }
                return None;
            },
        }
        proof {
            assert forall|i: int| 0 <= i < k + 1 implies crate::progress::holds(
                drawable@,
                #[trigger] chars@.take(k + 1)[i],
            ) && ranked(ranks@, chars@.take(k + 1)[i]) by {
                if i < k {
                    assert(chars@.take(k + 1)[i] == chars@.take(k as int)[i]);
                }
            }
        }
        k += 1;
    }
    assert(chars@.take(k as int) =~= chars@);
    Some(rank)
}

/// The reading with every blank taken out.
fn without_blanks(s: &str) -> (r: String)
    ensures
        r@ == solid(s@),
{
    let chars = chars_of(s);
    let mut out = String::new();
    let mut k: usize = 0;
    while k < chars.len()
        invariant
            k <= chars.len(),
            chars@ == s@,
            out@ == solid(chars@.take(k as int)),
        decreases chars.len() - k,
    {
        assert(chars@.take(k + 1).drop_last() =~= chars@.take(k as int));
        if !is_white(chars[k]) {
            push_char(&mut out, chars[k]);
        }
        k += 1;
    }
    assert(chars@.take(k as int) =~= chars@);
    out
}

/// The senses of a form trimmed, the blank ones dropped, joined with `"; "`.
fn joined_senses(meanings: &Vec<String>) -> (r: String)
    ensures
        r@ == join(nonblank_trimmed(views(meanings@)), "; "@),
{
    let ghost ms = views(meanings@);
    let mut senses: Vec<String> = Vec::new();
    let mut k: usize = 0;
    while k < meanings.len()
        invariant
            k <= meanings.len(),
            ms == views(meanings@),
            views(senses@) == nonblank_trimmed(ms.take(k as int)),
        decreases meanings.len() - k,
    {
        proof {
            assert(ms.take(k + 1).drop_last() =~= ms.take(k as int));
            assert(ms.take(k + 1).last() == meanings@[k as int]@);
        }
        let t = trimmed(meanings[k].as_str());
        if !t.as_str().is_empty() {
            let ghost before = senses@;
            senses.push(t);
            proof {
                crate::text::lemma_views_push(before, t);
            }
        }
        k += 1;
    }
    assert(ms.take(k as int) =~= ms);
    join_strings(&senses, "; ")
}

/// What one entry of the list becomes, by [`judged`].
fn judge(entry: &RawWord, ranks: &[(char, u32)], drawable: &[char]) -> (r: Result<Word, Passed>)
    ensures
        match r {
            Ok(w) => judged(*entry, ranks@, drawable@) == Ok::<WordModel, Passed>(word_model(w)),
            Err(why) => judged(*entry, ranks@, drawable@) == Err::<WordModel, Passed>(why),
        },
{
    let text = trimmed(entry.s.as_str());
    let chars = chars_of(text.as_str());
    if chars.len() < 2 {
        return Err(Passed::SingleCharacter);
    }
    let hsk = match hsk3_level(entry.levels.as_slice()) {
        Some(h) => h,
        None => return Err(Passed::NotHsk3),
    };
    let rank = match teachable_rank(&chars, ranks, drawable) {
        Some(r) => r,
        None => return Err(Passed::Unteachable),
    };
    let form = match choose_form(entry.forms.as_slice()) {
        Some(f) => f,
        None => return Err(Passed::NoReading),
    };
    let pinyin = without_blanks(form.transcriptions.pinyin.as_str());
    if pinyin.as_str().is_empty() {
        return Err(Passed::NoReading);
    }
    let meaning = joined_senses(&form.meanings);
    Ok(Word { text, pinyin, meaning, hsk, rank })
}

/// Build the word list from the entries of the HSK lists.
///
/// `ranks` gives each character's frequency rank and `drawable` the characters
/// the board can draw. A word is kept only when every one of its characters is
/// drawable and ranked, so the word browser never offers something the board
/// cannot ask for; its rank is its rarest character's. The first mention of a
/// text wins.
pub fn build_words(raw: &[RawWord], ranks: &[(char, u32)], drawable: &[char]) -> (r: WordList)
    ensures
        r.words@.map_values(|w: Word| word_model(w)) == kept_words(
            raw@,
            ranks@,
            drawable@,
            raw@.len() as int,
        ),
        r.single_character == passed_count(
            raw@,
            ranks@,
            drawable@,
            raw@.len() as int,
            Passed::SingleCharacter,
        ),
        r.not_hsk3 == passed_count(raw@, ranks@, drawable@, raw@.len() as int, Passed::NotHsk3),
        r.unteachable == passed_count(
            raw@,
            ranks@,
            drawable@,
            raw@.len() as int,
            Passed::Unteachable,
        ),
{
    let mut words: Vec<Word> = Vec::new();
    let mut single_character: usize = 0;
    let mut not_hsk3: usize = 0;
    let mut unteachable: usize = 0;
    let mut n: usize = 0;
    while n < raw.len()
        invariant
            n <= raw.len(),
            words@.map_values(|w: Word| word_model(w)) == kept_words(raw@, ranks@, drawable@, n as int),
            single_character == passed_count(raw@, ranks@, drawable@, n as int, Passed::SingleCharacter),
            not_hsk3 == passed_count(raw@, ranks@, drawable@, n as int, Passed::NotHsk3),
            unteachable == passed_count(raw@, ranks@, drawable@, n as int, Passed::Unteachable),
            single_character <= n,
            not_hsk3 <= n,
            unteachable <= n,
        decreases raw.len() - n,
    {
        let entry = &raw[n];
        let ghost e = raw@[n as int];
        let ghost before = words@;
        let ghost j = judged(e, ranks@, drawable@);
        let outcome = judge(entry, ranks, drawable);
        match outcome {
            Ok(w) => {
                assert(j == Ok::<WordModel, Passed>(word_model(w)));
                let mut seen = false;
                let mut k: usize = 0;
                while k < words.len()
                    invariant
                        k <= words.len(),
                        words@ == before,
                        seen == exists|i: int| 0 <= i < k && words@[i].text@ == w.text@,
                    decreases words.len() - k,
                {
                    if str_equal(words[k].text.as_str(), w.text.as_str()) {
                        seen = true;
                    }
                    k += 1;
                }
                let ghost rest = before.map_values(|x: Word| word_model(x));
                proof {
                    if seen {
                        let i = choose|i: int| 0 <= i < words.len() && words@[i].text@ == w.text@;
                        assert(rest[i].0 == w.text@);
                    } else {
                        assert forall|i: int| 0 <= i < rest.len() implies (#[trigger] rest[i]).0
                            != w.text@ by {
                            assert(rest[i] == word_model(words@[i]));
                        }
                    }
                }
                if !seen {
                    words.push(w);
                    proof {
                        crate::text::lemma_push(before, w);
                        assert(words@.map_values(|x: Word| word_model(x)) =~= rest.push(
                            word_model(w),
                        ));
                    }
                }
            },
            Err(why) => {
                assert(j == Err::<WordModel, Passed>(why));
                match why {
                    Passed::SingleCharacter => {
                        single_character += 1;
                    },
                    Passed::NotHsk3 => {
                        not_hsk3 += 1;
                    },
                    Passed::Unteachable => {
                        unteachable += 1;
                    },
                    Passed::NoReading => {},
                }
            },
        }
        n += 1;
    }
    WordList { words, single_character, not_hsk3, unteachable }
}


// ---------------------------------------------------------------------------
// The lexical layer
// ---------------------------------------------------------------------------

/// What the dictionary and the frequency list say of one character, merged.
#[derive(Clone, Debug)]
pub struct Lexical {
    pub rank: u32,
    pub hsk: u8,
    pub stroke_count: u8,
    /// The radical, or `'\0'` when unknown.
    pub radical: char,
    pub pinyin: Vec<String>,
    pub definition: String,
    pub etymology: String,
    pub decomposition: String,
}

impl Default for Lexical {
    fn default() -> (r: Lexical)
        ensures
            r.rank == 0 && r.hsk == 0 && r.stroke_count == 0 && r.radical == '\0',
            r.pinyin.len() == 0 && r.definition@.len() == 0 && r.etymology@.len() == 0
                && r.decomposition@.len() == 0,
    {
        Lexical {
            rank: 0,
            hsk: 0,
            stroke_count: 0,
            radical: '\0',
            pinyin: Vec::new(),
            definition: String::new(),
            etymology: String::new(),
            decomposition: String::new(),
        }
    }
}

/// One line of the character dictionary, as its fields are read.
#[derive(Clone, Debug)]
pub struct DictionaryRow {
    pub definition: String,
    pub pinyin: Vec<String>,
    pub radical: String,
    pub decomposition: String,
    /// The etymology hint, when the line has an etymology.
    pub etymology: Option<String>,
}

/// One row of the frequency list, as its fields are read.
#[derive(Clone, Debug)]
pub struct FrequencyRow {
    pub frequency_rank: u32,
    pub pinyin: String,
    pub definition: String,
    pub radical: String,
    pub stroke_count: String,
    pub hsk_level: String,
}

/// The first character of a trimmed field, as [`single_char`] reads it.
pub open spec fn first_of(value: Seq<char>) -> Option<char> {
    if trim(value).len() > 0 {
        Some(trim(value)[0])
    } else {
        None
    }
}

/// A decomposition as it is kept: trimmed, and nothing where the source has
/// none or says it cannot say (`？`).
pub open spec fn kept_decomposition(d: Seq<char>) -> Seq<char> {
    if trim(d).len() == 0 || trim(d) == seq!['？'] {
        seq![]
    } else {
        trim(d)
    }
}

fn copy_strings(v: &Vec<String>) -> (r: Vec<String>)
    ensures
        r@ == v@,
{
    let mut out: Vec<String> = Vec::new();
    let mut k: usize = 0;
    while k < v.len()
        invariant
            k <= v.len(),
            out@ == v@.take(k as int),
        decreases v.len() - k,
    {
        let ghost before = out@;
        let c = v[k].clone();
        out.push(c);
        proof {
            crate::text::lemma_push(before, c);
            assert(out@ =~= v@.take(k + 1));
        }
        k += 1;
    }
    assert(v@.take(k as int) =~= v@);
    out
}

/// Fold a dictionary line into a character's lexical data: its readings and
/// definition, its etymology hint trimmed when it has one, its radical (or
/// none), and its decomposition as [`kept_decomposition`] keeps it.
pub fn merge_dictionary_row(entry: &mut Lexical, row: &DictionaryRow)
    ensures
        final(entry).pinyin@ == row.pinyin@,
        final(entry).definition == row.definition,
        final(entry).etymology@ == match row.etymology {
            Some(h) => trim(h@),
            None => old(entry).etymology@,
        },
        final(entry).radical == match first_of(row.radical@) {
            Some(c) => c,
            None => '\0',
        },
        final(entry).decomposition@ == kept_decomposition(row.decomposition@),
        final(entry).rank == old(entry).rank,
        final(entry).hsk == old(entry).hsk,
        final(entry).stroke_count == old(entry).stroke_count,
{
    entry.pinyin = copy_strings(&row.pinyin);
    entry.definition = row.definition.clone();
    match &row.etymology {
        Some(h) => {
            entry.etymology = trimmed(h.as_str());
        },
        None => {},
    }
    entry.radical = match single_char(row.radical.as_str()) {
        Some(c) => c,
        None => '\0',
    };
    let d = trimmed_chars(row.decomposition.as_str());
    entry.decomposition = if d.len() == 0 || (d.len() == 1 && d[0] == '？') {
        String::new()
    } else {
        string_of_range(&d, 0, d.len())
    };
    proof {
        if d.len() == 1 && d[0] == '？' {
            assert(d@ =~= seq!['？']);
        }
        if !(d.len() == 0 || (d.len() == 1 && d[0] == '？')) {
            assert(d@.subrange(0, d@.len() as int) =~= d@);
            if d@ == seq!['？'] {
                assert(d@.len() == 1 && d@[0] == '？');
            }
        }
    }
}

/// Fold a frequency-list row into a character's lexical data. The list is
/// what the course is built from, so it wins for the rank, the level, the
/// stroke count, a radical it names and a definition it has; its readings are
/// taken only when the dictionary gave none.
pub fn merge_frequency_row(entry: &mut Lexical, row: &FrequencyRow)
    ensures
        final(entry).rank == row.frequency_rank,
        final(entry).hsk == leading_u8(row.hsk_level@),
        final(entry).stroke_count == leading_u8(row.stroke_count@),
        final(entry).radical == match first_of(row.radical@) {
            Some(c) => c,
            None => old(entry).radical,
        },
        final(entry).definition@ == if trim(row.definition@).len() > 0 {
            trim(row.definition@)
        } else {
            old(entry).definition@
        },
        views(final(entry).pinyin@) == if old(entry).pinyin.len() == 0 {
            nonblank_trimmed(cut_pieces(row.pinyin@))
        } else {
            views(old(entry).pinyin@)
        },
        final(entry).etymology == old(entry).etymology,
        final(entry).decomposition == old(entry).decomposition,
{
    entry.rank = row.frequency_rank;
    entry.hsk = parse_leading_u8(row.hsk_level.as_str());
    entry.stroke_count = parse_leading_u8(row.stroke_count.as_str());
    match single_char(row.radical.as_str()) {
        Some(c) => {
            entry.radical = c;
        },
        None => {},
    }
    let d = trimmed(row.definition.as_str());
    if !d.as_str().is_empty() {
        entry.definition = d;
    }
    if entry.pinyin.len() == 0 {
        entry.pinyin = split_readings(row.pinyin.as_str());
    }
}

} // verus!
