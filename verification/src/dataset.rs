//! The dataset's plain records: words, tone sets, and what a lookup of some
//! study text gives back, with the folding that makes two spellings of one
//! reading compare equal.

use vstd::prelude::*;

pub use crate::lexicon::{Character, Dataset};

use crate::pinyin::{base, base_of, readable, syllables, syllables_of, tone_from_pinyin};
use crate::text::{
    ascii_letter, ascii_lower, begins_with, chars_of, contains_str, digit, lemma_push, str_before,
    text_before,
    lemma_views_push, occurs_in, push_char, starts_with_str, str_equal, to_ascii_lower, trim,
    trimmed, views,
};

verus! {

/// A multi-character word from the HSK lists.
#[derive(Clone, Debug, PartialEq)]
pub struct Word {
    /// The word in simplified characters, e.g. `"学习"`.
    pub text: String,
    /// The reading of the whole word, e.g. `"xuéxí"`.
    pub pinyin: String,
    /// English definition. Several senses are joined with `"; "`.
    pub meaning: String,
    /// Lowest HSK 3.0 level the word appears in, 1..=7.
    pub hsk: u8,
    /// Derived frequency: the rank of the word's rarest character. `0` when
    /// unknown. An estimate from character data, for ordering only.
    pub rank: u32,
}

impl Word {
    /// The characters of the word, in order.
    pub fn characters(&self) -> (r: Vec<char>)
        ensures
            r@ == self.text@,
    {
        chars_of(self.text.as_str())
    }
}

/// One character of a tone set: a syllable read at one tone.
#[derive(Clone, Debug, PartialEq)]
pub struct ToneSetMember {
    pub ch: char,
    /// The reading with its tone mark, e.g. `"mā"`.
    pub reading: String,
    /// The tone of that reading, `1..=4`.
    pub tone: u8,
    pub definition: String,
    /// The character's frequency rank.
    pub rank: u32,
}

/// Characters that differ only in tone: one syllable, one character per tone.
#[derive(Clone, Debug, PartialEq)]
pub struct ToneSet {
    /// The syllable with tone marks stripped, e.g. `"ma"`; `ü` stays distinct
    /// from `u`.
    pub base: String,
    /// The members, tone 1 first.
    pub members: Vec<ToneSetMember>,
}

/// A draft reading and meaning for some study text, plus what each character in
/// it means on its own.
#[derive(Clone, Debug, PartialEq)]
pub struct TextLookup {
    /// Draft pinyin. Empty when nothing could be resolved.
    pub pinyin: String,
    /// The meaning, filled in only for a single character.
    pub meaning: String,
    /// One entry per character of the text, in order.
    pub characters: Vec<CharacterHint>,
    /// True when every character was found and has a reading.
    pub complete: bool,
}

/// What one character of the text contributes.
#[derive(Clone, Debug, PartialEq)]
pub struct CharacterHint {
    pub ch: char,
    /// Every reading the dataset knows, most common first.
    pub pinyin: Vec<String>,
    pub meaning: String,
}

/// The letter a character of a reading folds to for searching: tone marks
/// dropped, `v` and `ü` both `u`, anything else itself.
pub open spec fn fold_letter(c: char) -> char {
    if c == 'ā' || c == 'á' || c == 'ǎ' || c == 'à' || c == 'a' || c == 'A' {
        'a'
    } else if c == 'ē' || c == 'é' || c == 'ě' || c == 'è' || c == 'e' || c == 'E' || c == 'ê'
        || c == 'Ê' {
        'e'
    } else if c == 'ī' || c == 'í' || c == 'ǐ' || c == 'ì' || c == 'i' || c == 'I' {
        'i'
    } else if c == 'ō' || c == 'ó' || c == 'ǒ' || c == 'ò' || c == 'o' || c == 'O' {
        'o'
    } else if c == 'ū' || c == 'ú' || c == 'ǔ' || c == 'ù' || c == 'u' || c == 'U' {
        'u'
    } else if c == 'ǖ' || c == 'ǘ' || c == 'ǚ' || c == 'ǜ' || c == 'ü' || c == 'Ü' || c == 'v'
        || c == 'V' {
        'u'
    } else if c == 'ń' || c == 'ň' || c == 'ǹ' || c == 'n' || c == 'N' {
        'n'
    } else if c == 'ḿ' || c == 'm' || c == 'M' {
        'm'
    } else {
        c
    }
}

/// A reading folded for searching: each character folded, only ASCII letters
/// and digits kept, in lower case.
pub open spec fn folded(s: Seq<char>) -> Seq<char>
    decreases s.len(),
{
    if s.len() == 0 {
        seq![]
    } else {
        let rest = folded(s.drop_last());
        let f = fold_letter(s.last());
        if ascii_letter(f) || digit(f) {
            rest.push(ascii_lower(f))
        } else {
            rest
        }
    }
}

fn fold_char(c: char) -> (r: char)
    ensures
        r == fold_letter(c),
{
    match c {
        'ā' | 'á' | 'ǎ' | 'à' | 'a' | 'A' => 'a',
        'ē' | 'é' | 'ě' | 'è' | 'e' | 'E' | 'ê' | 'Ê' => 'e',
        'ī' | 'í' | 'ǐ' | 'ì' | 'i' | 'I' => 'i',
        'ō' | 'ó' | 'ǒ' | 'ò' | 'o' | 'O' => 'o',
        'ū' | 'ú' | 'ǔ' | 'ù' | 'u' | 'U' => 'u',
        'ǖ' | 'ǘ' | 'ǚ' | 'ǜ' | 'ü' | 'Ü' | 'v' | 'V' => 'u',
        'ń' | 'ň' | 'ǹ' | 'n' | 'N' => 'n',
        'ḿ' | 'm' | 'M' => 'm',
        other => other,
    }
}

/// Fold a reading for searching: drop tone marks and spacing, lowercase, and
/// treat `v` and `ü` as the same letter so a learner can type `nv` for 女.
pub fn fold_pinyin(input: &str) -> (r: String)
    ensures
        r@ == folded(input@),
{
    let chars = chars_of(input);
    let mut out = String::new();
    let mut k: usize = 0;
    while k < chars.len()
        invariant
            k <= chars.len(),
            chars@ == input@,
            out@ == folded(chars@.take(k as int)),
        decreases chars.len() - k,
    {
        assert(chars@.take(k + 1).drop_last() =~= chars@.take(k as int));
        let f = fold_char(chars[k]);
        if ('a' <= f && f <= 'z') || ('A' <= f && f <= 'Z') || ('0' <= f && f <= '9') {
            push_char(&mut out, to_ascii_lower(f));
        }
        k += 1;
    }
    assert(chars@.take(chars.len() as int) =~= chars@);
    out
}

/// Folding twice folds no further: a folded reading is its own fold, so a
/// folded query and a folded reading can be compared as they are.
pub proof fn law_folding_twice_is_folding_once(s: Seq<char>)
    ensures
        folded(folded(s)) == folded(s),
    decreases s.len(),
{
    if s.len() > 0 {
        law_folding_twice_is_folding_once(s.drop_last());
        let rest = folded(s.drop_last());
        let f = fold_letter(s.last());
        if ascii_letter(f) || digit(f) {
            let g = ascii_lower(f);
            assert(rest.push(g).drop_last() =~= rest);
            assert(fold_letter(g) == g);
        }
    }
}


/// Folding goes character by character: the fold of two texts side by side is
/// their folds side by side.
pub proof fn law_folding_goes_letter_by_letter(a: Seq<char>, b: Seq<char>)
    ensures
        folded(a + b) == folded(a) + folded(b),
    decreases b.len(),
{
    if b.len() == 0 {
        assert(a + b =~= a);
        assert(folded(a) + folded(b) =~= folded(a));
    } else {
        law_folding_goes_letter_by_letter(a, b.drop_last());
        assert((a + b).drop_last() =~= a + b.drop_last());
        assert((a + b).last() == b.last());
        let f = fold_letter(b.last());
        if ascii_letter(f) || digit(f) {
            assert(folded(a) + folded(b.drop_last()).push(ascii_lower(f)) =~= (folded(a)
                + folded(b.drop_last())).push(ascii_lower(f)));
        }
    }
}

proof fn lemma_fold_one(c: char)
    ensures
        folded(seq![c]) == if ascii_letter(fold_letter(c)) || digit(fold_letter(c)) {
            seq![ascii_lower(fold_letter(c))]
        } else {
            Seq::<char>::empty()
        },
{
    assert(seq![c].drop_last() =~= Seq::<char>::empty());
    assert(seq![c].last() == c);
    assert(folded(Seq::<char>::empty()) == Seq::<char>::empty());
    assert(Seq::<char>::empty().push(ascii_lower(fold_letter(c))) =~= seq![
        ascii_lower(fold_letter(c)),
    ]);
}

/// A folded reading is small ASCII letters and digits only; and folding does
/// not see a tone mark written on a letter, the case of an ASCII letter, the
/// difference between `v` and `ü`, or spacing, punctuation and any other
/// character that is neither an ASCII letter or digit nor a letter of pinyin,
/// wherever in the text they stand.
pub proof fn law_folding_ignores_marks_case_and_spacing(a: Seq<char>, b: Seq<char>)
    ensures
        forall|i: int|
            0 <= i < folded(a).len() ==> ('a' <= #[trigger] folded(a)[i] <= 'z') || digit(
                folded(a)[i],
            ),
        forall|c: char, t: u8|
            #[trigger] crate::pinyin::toned(c, t) is Some ==> folded(
                a + seq![crate::pinyin::toned(c, t)->0] + b,
            ) == folded(a + seq![c] + b),
        forall|c: char|
            ascii_letter(c) ==> #[trigger] folded(a + seq![c] + b) == folded(
                a + seq![ascii_lower(c)] + b,
            ),
        folded(a + seq!['v'] + b) == folded(a + seq!['ü'] + b),
        forall|c: char|
            !ascii_letter(c) && !digit(c) && fold_letter(c) == c ==> #[trigger] folded(
                a + seq![c] + b,
            ) == folded(a + b),
    decreases a.len(),
{
    reveal(crate::pinyin::toned);
    if a.len() > 0 {
        law_folding_ignores_marks_case_and_spacing(a.drop_last(), b);
        let f = fold_letter(a.last());
        assert(a.drop_last().push(a.last()) =~= a);
        if ascii_letter(f) || digit(f) {
            assert(folded(a) == folded(a.drop_last()).push(ascii_lower(f)));
        }
    }
    assert forall|c: char, d: char| folded(seq![c]) == folded(seq![d]) implies folded(
        a + seq![c] + b,
    ) == folded(a + seq![d] + b) by {
        law_folding_goes_letter_by_letter(a, seq![c]);
        law_folding_goes_letter_by_letter(a + seq![c], b);
        law_folding_goes_letter_by_letter(a, seq![d]);
        law_folding_goes_letter_by_letter(a + seq![d], b);
    }
    assert forall|c: char, t: u8| #[trigger] crate::pinyin::toned(c, t) is Some implies folded(
        a + seq![crate::pinyin::toned(c, t)->0] + b,
    ) == folded(a + seq![c] + b) by {
        lemma_fold_one(c);
        lemma_fold_one(crate::pinyin::toned(c, t)->0);
    }
    assert forall|c: char| ascii_letter(c) implies #[trigger] folded(a + seq![c] + b) == folded(
        a + seq![ascii_lower(c)] + b,
    ) by {
        lemma_fold_one(c);
        lemma_fold_one(ascii_lower(c));
    }
    lemma_fold_one('v');
    lemma_fold_one('ü');
    assert forall|c: char|
        !ascii_letter(c) && !digit(c) && fold_letter(c) == c implies #[trigger] folded(
        a + seq![c] + b,
    ) == folded(a + b) by {
        lemma_fold_one(c);
        law_folding_goes_letter_by_letter(a, seq![c]);
        law_folding_goes_letter_by_letter(a + seq![c], b);
        law_folding_goes_letter_by_letter(a, b);
        assert(folded(a) + Seq::<char>::empty() =~= folded(a));
    }
}

// ---------------------------------------------------------------------------
// Searching
// ---------------------------------------------------------------------------

/// What `str::to_lowercase` makes of a string: Unicode's lowercase mapping,
/// which depends on the string alone.
pub uninterp spec fn lowercase(s: Seq<char>) -> Seq<char>;

/// `str::to_lowercase`.
#[verifier::external_body]
fn lowered(s: &str) -> (r: String)
    ensures
        r@ == lowercase(s@),
{
    s.to_lowercase()
}

/// A word's comparison-ready text, computed once rather than on every
/// keystroke.
#[derive(Clone, Debug)]
pub struct WordKey {
    /// Reading folded: tone marks, spacing and the `v`/`ü` difference gone.
    pub pinyin: String,
    /// Definition lowercased.
    pub meaning: String,
}

/// The comparison-ready text of a word.
pub fn word_key(word: &Word) -> (r: WordKey)
    ensures
        r.pinyin@ == folded(word.pinyin@),
        r.meaning@ == lowercase(word.meaning@),
{
    WordKey { pinyin: fold_pinyin(word.pinyin.as_str()), meaning: lowered(word.meaning.as_str()) }
}

/// How well a word answers a trimmed query: lower is better, `None` is no
/// match. An exact word beats a prefix, which beats a contained word, which
/// beats a reading prefix, a contained reading, and a definition. A single
/// character is a browse-by-character request, so every word holding it is a
/// hit.
pub open spec fn word_rank(
    text: Seq<char>,
    pinyin: Seq<char>,
    meaning: Seq<char>,
    query: Seq<char>,
) -> Option<u8> {
    let f = folded(query);
    let l = lowercase(query);
    if query.len() == 0 {
        Some(0)
    } else if query.len() == 1 && occurs_in(text, query) {
        Some(1)
    } else if text == query {
        Some(0)
    } else if begins_with(text, query) {
        Some(1)
    } else if occurs_in(text, query) {
        Some(2)
    } else if f.len() > 0 && begins_with(pinyin, f) {
        Some(3)
    } else if f.len() > 0 && occurs_in(pinyin, f) {
        Some(4)
    } else if l.len() > 0 && occurs_in(meaning, l) {
        Some(5)
    } else {
        None
    }
}

/// How well a word answers the trimmed query `query`, whose fold and
/// lowercase are `folded` and `lowered`.
fn match_rank(word: &Word, key: &WordKey, query: &str, folded_q: &str, lowered_q: &str) -> (r:
    Option<u8>)
    requires
        folded_q@ == folded(query@),
        lowered_q@ == lowercase(query@),
    ensures
        r == word_rank(word.text@, key.pinyin@, key.meaning@, query@),
{
    let q = chars_of(query);
    if q.len() == 0 {
        return Some(0);
    }
    if q.len() == 1 && contains_str(word.text.as_str(), query) {
        return Some(1);
    }
    if str_equal(word.text.as_str(), query) {
        Some(0)
    } else if starts_with_str(word.text.as_str(), query) {
        Some(1)
    } else if contains_str(word.text.as_str(), query) {
        Some(2)
    } else if !folded_q.is_empty() && starts_with_str(key.pinyin.as_str(), folded_q) {
        Some(3)
    } else if !folded_q.is_empty() && contains_str(key.pinyin.as_str(), folded_q) {
        Some(4)
    } else if !lowered_q.is_empty() && contains_str(key.meaning.as_str(), lowered_q) {
        Some(5)
    } else {
        None
    }
}

/// The indices below `n` whose rank is `r`, in order.
pub open spec fn with_rank(ranks: Seq<Option<u8>>, r: u8, n: int) -> Seq<int>
    decreases n,
{
    if n <= 0 {
        seq![]
    } else if ranks[n - 1] == Some(r) {
        with_rank(ranks, r, n - 1).push(n - 1)
    } else {
        with_rank(ranks, r, n - 1)
    }
}

/// The indices of every match whose rank is below `upto`, best rank first and
/// in order within a rank.
pub open spec fn by_rank(ranks: Seq<Option<u8>>, upto: int) -> Seq<int>
    decreases upto,
{
    if upto <= 0 {
        seq![]
    } else {
        by_rank(ranks, upto - 1) + with_rank(ranks, (upto - 1) as u8, ranks.len() as int)
    }
}

/// How many of the first `n` ranks are matches.
pub open spec fn match_count(ranks: Seq<Option<u8>>, n: int) -> nat
    decreases n,
{
    if n <= 0 {
        0
    } else {
        match_count(ranks, n - 1) + if ranks[n - 1] is Some {
            1nat
        } else {
            0nat
        }
    }
}

/// The rank of each word for a search, `None` where the level filter or the
/// query rules it out.
pub open spec fn word_ranks(
    words: Seq<Word>,
    keys: Seq<WordKey>,
    query: Seq<char>,
    level: Option<u8>,
) -> Seq<Option<u8>> {
    Seq::new(
        words.len(),
        |i: int|
            if level matches Some(l) && words[i].hsk != l {
                None
            } else {
                word_rank(words[i].text@, keys[i].pinyin@, keys[i].meaning@, trim(query))
            },
    )
}

/// The ranks of a search, computed once for both the search and its count.
fn rank_words(words: &[Word], keys: &[WordKey], query: &str, level: Option<u8>) -> (r: Vec<
    Option<u8>,
>)
    requires
        keys.len() == words.len(),
    ensures
        r@ == word_ranks(words@, keys@, query@, level),
{
    let q = trimmed(query);
    let f = fold_pinyin(q.as_str());
    let l = lowered(q.as_str());
    let mut ranks: Vec<Option<u8>> = Vec::new();
    let mut i: usize = 0;
    while i < words.len()
        invariant
            i <= words.len(),
            keys.len() == words.len(),
            q@ == trim(query@),
            f@ == folded(q@),
            l@ == lowercase(q@),
            ranks@ == word_ranks(words@, keys@, query@, level).take(i as int),
        decreases words.len() - i,
    {
        let rank = match level {
            Some(lv) => if words[i].hsk != lv {
                None
            } else {
                match_rank(&words[i], &keys[i], q.as_str(), f.as_str(), l.as_str())
            },
            None => match_rank(&words[i], &keys[i], q.as_str(), f.as_str(), l.as_str()),
        };
        ranks.push(rank);
        assert(ranks@ =~= word_ranks(words@, keys@, query@, level).take(i + 1));
        i += 1;
    }
    assert(word_ranks(words@, keys@, query@, level).take(i as int) =~= word_ranks(
        words@,
        keys@,
        query@,
        level,
    ));
    ranks
}

/// The indices of the matches, best rank first, in order within a rank.
fn order_by_rank(ranks: &Vec<Option<u8>>, levels: u8) -> (r: Vec<usize>)
    ensures
        r@.map_values(|i: usize| i as int) == by_rank(ranks@, levels as int),
        forall|k: int| 0 <= k < r.len() ==> r@[k] < ranks.len(),
{
    let mut out: Vec<usize> = Vec::new();
    let mut rank: u8 = 0;
    while rank < levels
        invariant
            rank <= levels,
            out@.map_values(|i: usize| i as int) == by_rank(ranks@, rank as int),
            forall|k: int| 0 <= k < out.len() ==> out@[k] < ranks.len(),
        decreases levels - rank,
    {
        let ghost start = out@.map_values(|i: usize| i as int);
        let mut i: usize = 0;
        while i < ranks.len()
            invariant
                i <= ranks.len(),
                rank < levels,
                out@.map_values(|i: usize| i as int) == start + with_rank(ranks@, rank, i as int),
                forall|k: int| 0 <= k < out.len() ==> out@[k] < ranks.len(),
            decreases ranks.len() - i,
        {
            if ranks[i] == Some(rank) {
                let ghost before = out@;
                out.push(i);
                proof {
                    lemma_push(before, i);
                    assert(out@.map_values(|i: usize| i as int) =~= before.map_values(
                        |i: usize| i as int,
                    ).push(i as int));
                }
            }
            i += 1;
        }
        rank += 1;
    }
    out
}

/// Find words by character, reading or meaning.
///
/// An empty query browses from the first word down; anything else is matched
/// by [`word_rank`]. Results come best rank first, ties in the order the words
/// are given. `level` restricts the search to one HSK level, and `limit` caps
/// the result.
pub fn search_words<'a>(
    words: &'a [Word],
    keys: &[WordKey],
    query: &str,
    level: Option<u8>,
    limit: usize,
) -> (r: Vec<&'a Word>)
    requires
        keys.len() == words.len(),
    ensures
        ({
            let order = by_rank(word_ranks(words@, keys@, query@, level), 6);
            &&& r.len() == if limit < order.len() {
                limit as int
            } else {
                order.len() as int
            }
            &&& forall|k: int|
                0 <= k < r.len() ==> 0 <= order[k] < words.len() && *(#[trigger] r@[k])
                    == words@[order[k]]
        }),
{
    let ranks = rank_words(words, keys, query, level);
    let order = order_by_rank(&ranks, 6);
    let ghost o = by_rank(ranks@, 6);
    let mut out: Vec<&'a Word> = Vec::new();
    let mut k: usize = 0;
    while k < order.len() && k < limit
        invariant
            k <= order.len(),
            k <= limit,
            order@.map_values(|i: usize| i as int) == o,
            forall|j: int| 0 <= j < order.len() ==> order@[j] < words.len(),
            ranks.len() == words.len(),
            o == by_rank(word_ranks(words@, keys@, query@, level), 6),
            out.len() == k,
            forall|j: int|
                0 <= j < k ==> 0 <= o[j] < words.len() && *(#[trigger] out@[j]) == words@[o[j]],
        decreases order.len() - k,
    {
        assert(o[k as int] == order@[k as int] as int);
        let w = &words[order[k]];
        let ghost before = out@;
        out.push(w);
        proof {
            lemma_push(before, w);
        }
        k += 1;
    }
    assert(o.len() == order.len());
    out
}

proof fn lemma_with_rank_len(ranks: Seq<Option<u8>>, r: u8, n: int)
    ensures
        with_rank(ranks, r, n).len() <= if n > 0 {
            n
        } else {
            0
        },
    decreases n,
{
    if n > 0 {
        lemma_with_rank_len(ranks, r, n - 1);
    }
}

/// Counting matches rank by rank counts each match once, when no rank is
/// `upto` or above.
proof fn lemma_with_rank_bound(ranks: Seq<Option<u8>>, r: u8, n: int)
    ensures
        forall|j: int| 0 <= j < with_rank(ranks, r, n).len() ==> 0 <= #[trigger] with_rank(ranks, r, n)[j] < n,
    decreases n,
{
    if n > 0 {
        lemma_with_rank_bound(ranks, r, n - 1);
        let prev = with_rank(ranks, r, n - 1);
        if ranks[n - 1] == Some(r) {
            assert forall|j: int| 0 <= j < with_rank(ranks, r, n).len() implies 0 <= #[trigger] with_rank(ranks, r, n)[j] < n by {
                if j < prev.len() {
                    assert(with_rank(ranks, r, n)[j] == prev[j]);
                }
            }
        }
    }
}

/// Every position a search lists is the position of a rank.
pub(crate) proof fn lemma_by_rank_bound(ranks: Seq<Option<u8>>, upto: int)
    ensures
        forall|j: int| 0 <= j < by_rank(ranks, upto).len() ==> 0 <= #[trigger] by_rank(ranks, upto)[j] < ranks.len(),
    decreases upto,
{
    if upto > 0 {
        lemma_by_rank_bound(ranks, upto - 1);
        lemma_with_rank_bound(ranks, (upto - 1) as u8, ranks.len() as int);
        let a = by_rank(ranks, upto - 1);
        let b = with_rank(ranks, (upto - 1) as u8, ranks.len() as int);
        assert forall|j: int| 0 <= j < by_rank(ranks, upto).len() implies 0 <= #[trigger] by_rank(ranks, upto)[j] < ranks.len() by {
            if j < a.len() {
                assert(by_rank(ranks, upto)[j] == a[j]);
            } else {
                assert(by_rank(ranks, upto)[j] == b[j - a.len()]);
            }
        }
    }
}

proof fn lemma_by_rank_counts(ranks: Seq<Option<u8>>, upto: int, n: int)
    requires
        0 <= n <= ranks.len(),
        0 <= upto <= 256,
        forall|i: int| 0 <= i < ranks.len() ==> (#[trigger] ranks[i] matches Some(x) ==> x < upto),
    ensures
        match_count(ranks, n) == sum_with_ranks(ranks, upto, n),
    decreases n,
{
    if n > 0 {
        lemma_by_rank_counts(ranks, upto, n - 1);
        lemma_sum_step(ranks, upto, n);
        assert(ranks[n - 1] matches Some(x) ==> x < upto);
    } else {
        lemma_sum_zero(ranks, upto);
    }
}

proof fn lemma_sum_zero(ranks: Seq<Option<u8>>, upto: int)
    ensures
        sum_with_ranks(ranks, upto, 0) == 0,
    decreases upto,
{
    if upto > 0 {
        lemma_sum_zero(ranks, upto - 1);
    }
}

/// How many of the first `n` indices have each rank below `upto`, summed.
pub open spec fn sum_with_ranks(ranks: Seq<Option<u8>>, upto: int, n: int) -> nat
    decreases upto,
{
    if upto <= 0 {
        0
    } else {
        sum_with_ranks(ranks, upto - 1, n) + with_rank(ranks, (upto - 1) as u8, n).len()
    }
}

proof fn lemma_sum_step(ranks: Seq<Option<u8>>, upto: int, n: int)
    requires
        0 < n <= ranks.len(),
        0 <= upto <= 256,
    ensures
        sum_with_ranks(ranks, upto, n) == sum_with_ranks(ranks, upto, n - 1) + if ranks[n - 1] matches Some(
            x,
        ) && x < upto {
            1nat
        } else {
            0nat
        },
    decreases upto,
{
    if upto > 0 {
        lemma_sum_step(ranks, upto - 1, n);
    }
}

proof fn lemma_by_rank_len(ranks: Seq<Option<u8>>, upto: int)
    ensures
        by_rank(ranks, upto).len() == sum_with_ranks(ranks, upto, ranks.len() as int),
    decreases upto,
{
    if upto > 0 {
        lemma_by_rank_len(ranks, upto - 1);
    }
}

/// How many words a query matches, ignoring any limit.
pub fn count_words(words: &[Word], keys: &[WordKey], query: &str, level: Option<u8>) -> (r: usize)
    requires
        keys.len() == words.len(),
    ensures
        r == match_count(word_ranks(words@, keys@, query@, level), words.len() as int),
{
    let ranks = rank_words(words, keys, query, level);
    let mut count: usize = 0;
    let mut i: usize = 0;
    while i < ranks.len()
        invariant
            i <= ranks.len(),
            count == match_count(ranks@, i as int),
            count <= i,
        decreases ranks.len() - i,
    {
        if ranks[i].is_some() {
            count += 1;
        }
        i += 1;
    }
    count
}

/// The count of a search is the length of that search with no limit: the two
/// share one rule for what matches, and cannot disagree.
pub proof fn law_a_word_count_is_the_unlimited_search(
    words: Seq<Word>,
    keys: Seq<WordKey>,
    query: Seq<char>,
    level: Option<u8>,
)
    requires
        keys.len() == words.len(),
    ensures
        by_rank(word_ranks(words, keys, query, level), 6).len() == match_count(
            word_ranks(words, keys, query, level),
            words.len() as int,
        ),
{
    let ranks = word_ranks(words, keys, query, level);
    assert forall|i: int| 0 <= i < ranks.len() implies (#[trigger] ranks[i] matches Some(x) ==> x < 6) by {
    }
    lemma_by_rank_counts(ranks, 6, ranks.len() as int);
    lemma_by_rank_len(ranks, 6);
}


// ---------------------------------------------------------------------------
// The character dictionary
// ---------------------------------------------------------------------------

/// A character query, prepared once and then compared against every
/// character, so that a search and a count of its matches agree.
#[derive(Clone, Debug)]
pub struct CharacterQuery {
    /// The query as typed, trimmed.
    pub text: String,
    /// Readings folded: tone marks and spacing gone, `v` and `ü` unified.
    pub folded: String,
    /// The query lowercased, for matching definitions.
    pub lowered: String,
    /// The query's syllables, folded, when it has more than one.
    pub syllables: Vec<String>,
}

/// The syllables of a reading folded, the empty ones dropped.
pub open spec fn folded_syllables(sy: Seq<(Seq<char>, u8)>) -> Seq<Seq<char>>
    decreases sy.len(),
{
    if sy.len() == 0 {
        seq![]
    } else {
        let rest = folded_syllables(sy.drop_last());
        let f = folded(sy.last().0);
        if f.len() == 0 {
            rest
        } else {
            rest.push(f)
        }
    }
}

/// The syllables a trimmed query is taken apart into: only a query that folds
/// to more than one letter and reads as more than one syllable has them.
pub open spec fn query_syllables(t: Seq<char>) -> Seq<Seq<char>> {
    if folded(t).len() > 1 && readable(t) && folded_syllables(syllables_of(t)).len() > 1 {
        folded_syllables(syllables_of(t))
    } else {
        seq![]
    }
}

impl CharacterQuery {
    /// The fold, the lowercase and the syllables are those of the text.
    pub open spec fn is_prepared(&self) -> bool {
        &&& self.folded@ == folded(self.text@)
        &&& self.lowered@ == lowercase(self.text@)
        &&& views(self.syllables@) == query_syllables(self.text@)
    }

    /// Prepare the query `query`.
    pub fn new(query: &str) -> (r: CharacterQuery)
        ensures
            r.text@ == trim(query@),
            r.is_prepared(),
    {
        let text = trimmed(query);
        let f = fold_pinyin(text.as_str());
        let mut parts: Vec<String> = Vec::new();
        if chars_of(f.as_str()).len() > 1 {
            match syllables(text.as_str()) {
                Some(list) => {
                    let ghost sy = syllables_of(text@);
                    let mut k: usize = 0;
                    while k < list.len()
                        invariant
                            k <= list.len(),
                            sy == syllables_of(text@),
                            list.len() == sy.len(),
                            forall|j: int| 0 <= j < list.len() ==> (#[trigger] list@[j]).text@ == sy[j].0,
                            views(parts@) == folded_syllables(sy.take(k as int)),
                        decreases list.len() - k,
                    {
                        proof {
                            assert(sy.take(k + 1).drop_last() =~= sy.take(k as int));
                        }
                        let g = fold_pinyin(list[k].text.as_str());
                        if !g.as_str().is_empty() {
                            let ghost before = parts@;
                            parts.push(g);
                            proof {
                                lemma_views_push(before, g);
                            }
                        }
                        k += 1;
                    }
                    assert(sy.take(k as int) =~= sy);
                    if parts.len() <= 1 {
                        parts = Vec::new();
                        assert(views(parts@) =~= Seq::<Seq<char>>::empty());
                    }
                },
                None => {},
            }
        }
        assert(views(parts@) == query_syllables(text@));
        CharacterQuery { lowered: lowered(text.as_str()), text, folded: f, syllables: parts }
    }
}

/// A character's comparison-ready text, with what a search filters it on.
#[derive(Clone, Debug)]
pub struct CharacterKey {
    pub ch: char,
    /// HSK level 1..=7, or `0` when the character is not in the HSK lists.
    pub hsk: u8,
    /// Whether the course can teach it: it has geometry and a rank.
    pub teachable: bool,
    /// Every reading, folded as [`fold_pinyin`] folds it, most common first.
    pub pinyin: Vec<String>,
    /// Definition lowercased.
    pub meaning: String,
}

/// The comparison-ready text of a character.
pub fn character_key(ch: char, hsk: u8, teachable: bool, pinyin: &[String], definition: &str) -> (r:
    CharacterKey)
    ensures
        r.ch == ch,
        r.hsk == hsk,
        r.teachable == teachable,
        views(r.pinyin@) == views(pinyin@).map_values(|p: Seq<char>| folded(p)),
        r.meaning@ == lowercase(definition@),
{
    let mut readings: Vec<String> = Vec::new();
    let mut k: usize = 0;
    while k < pinyin.len()
        invariant
            k <= pinyin.len(),
            views(readings@) == views(pinyin@).take(k as int).map_values(|p: Seq<char>| folded(p)),
        decreases pinyin.len() - k,
    {
        let f = fold_pinyin(pinyin[k].as_str());
        let ghost before = readings@;
        readings.push(f);
        proof {
            lemma_views_push(before, f);
            assert(views(readings@) =~= views(pinyin@).take(k + 1).map_values(
                |p: Seq<char>| folded(p),
            ));
        }
        k += 1;
    }
    assert(views(pinyin@).take(k as int) =~= views(pinyin@));
    CharacterKey { ch, hsk, teachable, pinyin: readings, meaning: lowered(definition) }
}

/// Some reading is `q`.
pub open spec fn reads_as(readings: Seq<Seq<char>>, q: Seq<char>) -> bool {
    exists|i: int| 0 <= i < readings.len() && readings[i] == q
}

/// Some reading begins with `q`.
pub open spec fn reads_from(readings: Seq<Seq<char>>, q: Seq<char>) -> bool {
    exists|i: int| 0 <= i < readings.len() && begins_with(readings[i], q)
}

/// Some reading holds `q`.
pub open spec fn reads_with(readings: Seq<Seq<char>>, q: Seq<char>) -> bool {
    exists|i: int| 0 <= i < readings.len() && occurs_in(readings[i], q)
}

/// How well a character answers the trimmed query `text`: lower is better,
/// `None` is no match.
///
/// An empty query browses what the course can teach. Then the character
/// itself, an exact reading, a reading prefix, a reading holding the query, the
/// definition, one syllable of a longer reading, and one character of several
/// typed at once, in that order.
pub open spec fn character_rank(key: CharacterKey, text: Seq<char>) -> Option<u8> {
    let f = folded(text);
    let l = lowercase(text);
    let sy = query_syllables(text);
    let readings = views(key.pinyin@);
    if text.len() == 0 {
        if key.teachable {
            Some(0)
        } else {
            None
        }
    } else if text.len() == 1 && text[0] == key.ch {
        Some(0)
    } else if f.len() > 0 && reads_as(readings, f) {
        Some(1)
    } else if f.len() > 0 && reads_from(readings, f) {
        Some(2)
    } else if f.len() > 0 && reads_with(readings, f) {
        Some(3)
    } else if l.len() > 0 && occurs_in(key.meaning@, l) {
        Some(4)
    } else if exists|s: int| 0 <= s < sy.len() && reads_as(readings, #[trigger] sy[s]) {
        Some(5)
    } else if text.len() > 1 && crate::progress::holds(text, key.ch) {
        Some(6)
    } else {
        None
    }
}

/// None of the rules above the syllable rule place the character.
pub open spec fn no_closer_match(key: CharacterKey, text: Seq<char>) -> bool {
    let f = folded(text);
    let l = lowercase(text);
    let readings = views(key.pinyin@);
    &&& text.len() > 0
    &&& !(text.len() == 1 && text[0] == key.ch)
    &&& !(f.len() > 0 && reads_as(readings, f))
    &&& !(f.len() > 0 && reads_from(readings, f))
    &&& !(f.len() > 0 && reads_with(readings, f))
    &&& !(l.len() > 0 && occurs_in(key.meaning@, l))
}

/// Which of three tests some reading passes: equal to, beginning with, or
/// holding `q`.
fn any_reading(readings: &Vec<String>, q: &str, how: u8) -> (r: bool)
    requires
        how < 3,
    ensures
        how == 0 ==> r == reads_as(views(readings@), q@),
        how == 1 ==> r == reads_from(views(readings@), q@),
        how == 2 ==> r == reads_with(views(readings@), q@),
{
    let ghost rs = views(readings@);
    let mut i: usize = 0;
    while i < readings.len()
        invariant
            i <= readings.len(),
            how < 3,
            rs == views(readings@),
            how == 0 ==> forall|j: int| 0 <= j < i ==> rs[j] != q@,
            how == 1 ==> forall|j: int| 0 <= j < i ==> !begins_with(rs[j], q@),
            how == 2 ==> forall|j: int| 0 <= j < i ==> !occurs_in(rs[j], q@),
        decreases readings.len() - i,
    {
        assert(rs[i as int] == readings@[i as int]@);
        let hit = if how == 0 {
            str_equal(readings[i].as_str(), q)
        } else if how == 1 {
            starts_with_str(readings[i].as_str(), q)
        } else {
            contains_str(readings[i].as_str(), q)
        };
        if hit {
            return true;
        }
        i += 1;
    }
    false
}

/// How well a character answers a prepared query, by [`character_rank`].
pub fn match_character_rank(key: &CharacterKey, query: &CharacterQuery) -> (r: Option<u8>)
    requires
        query.is_prepared(),
    ensures
        r == character_rank(*key, query.text@),
{
    let text = chars_of(query.text.as_str());
    if text.len() == 0 {
        return if key.teachable {
            Some(0)
        } else {
            None
        };
    }
    if text.len() == 1 && text[0] == key.ch {
        return Some(0);
    }
    if !query.folded.as_str().is_empty() {
        if any_reading(&key.pinyin, query.folded.as_str(), 0) {
            return Some(1);
        }
        if any_reading(&key.pinyin, query.folded.as_str(), 1) {
            return Some(2);
        }
        if any_reading(&key.pinyin, query.folded.as_str(), 2) {
            return Some(3);
        }
    }
    if !query.lowered.as_str().is_empty() && contains_str(key.meaning.as_str(), query.lowered.as_str()) {
        return Some(4);
    }
    assert(no_closer_match(*key, query.text@));
    let mut s: usize = 0;
    while s < query.syllables.len()
        invariant
            s <= query.syllables.len(),
            query.is_prepared(),
            no_closer_match(*key, query.text@),
            forall|j: int| 0 <= j < s ==> !reads_as(views(key.pinyin@), query.syllables@[j]@),
        decreases query.syllables.len() - s,
    {
        assert(views(query.syllables@)[s as int] == query.syllables@[s as int]@);
        if any_reading(&key.pinyin, query.syllables[s].as_str(), 0) {
            return Some(5);
        }
        s += 1;
    }
    proof {
        let sy = query_syllables(query.text@);
        assert forall|x: int| 0 <= x < sy.len() implies !reads_as(views(key.pinyin@), #[trigger] sy[x]) by {
            assert(sy[x] == query.syllables@[x]@);
        }
    }
    if text.len() > 1 {
        let mut i: usize = 0;
        while i < text.len()
            invariant
                i <= text.len(),
                text@ == query.text@,
                text.len() > 1,
                no_closer_match(*key, query.text@),
                !exists|x: int|
                    0 <= x < query_syllables(query.text@).len() && reads_as(
                        views(key.pinyin@),
                        #[trigger] query_syllables(query.text@)[x],
                    ),
                forall|j: int| 0 <= j < i ==> text@[j] != key.ch,
            decreases text.len() - i,
        {
            if text[i] == key.ch {
                return Some(6);
            }
            i += 1;
        }
    }
    None
}

/// The rank of each character for a search, `None` where the level filter or
/// the query rules it out.
pub open spec fn character_ranks(keys: Seq<CharacterKey>, text: Seq<char>, level: Option<u8>) -> Seq<
    Option<u8>,
> {
    Seq::new(
        keys.len(),
        |i: int|
            if level matches Some(l) && keys[i].hsk != l {
                None
            } else {
                character_rank(keys[i], text)
            },
    )
}

fn rank_characters(keys: &[CharacterKey], query: &CharacterQuery, level: Option<u8>) -> (r: Vec<
    Option<u8>,
>)
    requires
        query.is_prepared(),
    ensures
        r@ == character_ranks(keys@, query.text@, level),
{
    let mut ranks: Vec<Option<u8>> = Vec::new();
    let mut i: usize = 0;
    while i < keys.len()
        invariant
            i <= keys.len(),
            query.is_prepared(),
            ranks@ == character_ranks(keys@, query.text@, level).take(i as int),
        decreases keys.len() - i,
    {
        let rank = match level {
            Some(lv) => if keys[i].hsk != lv {
                None
            } else {
                match_character_rank(&keys[i], query)
            },
            None => match_character_rank(&keys[i], query),
        };
        ranks.push(rank);
        assert(ranks@ =~= character_ranks(keys@, query.text@, level).take(i + 1));
        i += 1;
    }
    assert(character_ranks(keys@, query.text@, level).take(i as int) =~= character_ranks(
        keys@,
        query.text@,
        level,
    ));
    ranks
}

/// Find characters by character, reading or meaning: the indices of the
/// matching keys, best rank first and in the keys' order within a rank, at
/// most `limit` of them. `level` restricts the search to one HSK level.
pub fn search_characters(keys: &[CharacterKey], query: &str, level: Option<u8>, limit: usize) -> (r:
    Vec<usize>)
    ensures
        ({
            let order = by_rank(character_ranks(keys@, trim(query@), level), 7);
            &&& r.len() == if limit < order.len() {
                limit as int
            } else {
                order.len() as int
            }
            &&& forall|k: int| 0 <= k < r.len() ==> r@[k] == order[k]
        }),
{
    let q = CharacterQuery::new(query);
    let ranks = rank_characters(keys, &q, level);
    let order = order_by_rank(&ranks, 7);
    let ghost o = by_rank(ranks@, 7);
    let mut out: Vec<usize> = Vec::new();
    let mut k: usize = 0;
    while k < order.len() && k < limit
        invariant
            k <= order.len(),
            k <= limit,
            order@.map_values(|i: usize| i as int) == o,
            out.len() == k,
            forall|j: int| 0 <= j < k ==> out@[j] == o[j],
        decreases order.len() - k,
    {
        assert(o[k as int] == order@[k as int] as int);
        out.push(order[k]);
        k += 1;
    }
    assert(o.len() == order.len());
    out
}

/// How many characters a query matches, ignoring any limit.
pub fn count_characters(keys: &[CharacterKey], query: &str, level: Option<u8>) -> (r: usize)
    ensures
        r == match_count(character_ranks(keys@, trim(query@), level), keys.len() as int),
{
    let q = CharacterQuery::new(query);
    let ranks = rank_characters(keys, &q, level);
    let mut count: usize = 0;
    let mut i: usize = 0;
    while i < ranks.len()
        invariant
            i <= ranks.len(),
            count == match_count(ranks@, i as int),
            count <= i,
        decreases ranks.len() - i,
    {
        if ranks[i].is_some() {
            count += 1;
        }
        i += 1;
    }
    count
}

/// The count of a character search is the length of that search with no
/// limit.
pub proof fn law_a_character_count_is_the_unlimited_search(
    keys: Seq<CharacterKey>,
    text: Seq<char>,
    level: Option<u8>,
)
    ensures
        by_rank(character_ranks(keys, text, level), 7).len() == match_count(
            character_ranks(keys, text, level),
            keys.len() as int,
        ),
{
    let ranks = character_ranks(keys, text, level);
    assert forall|i: int| 0 <= i < ranks.len() implies (#[trigger] ranks[i] matches Some(x) ==> x < 7) by {
    }
    lemma_by_rank_counts(ranks, 7, ranks.len() as int);
    lemma_by_rank_len(ranks, 7);
}


// ---------------------------------------------------------------------------
// Ranks, levels and lookups
// ---------------------------------------------------------------------------

/// A rank that sorts most-common-first, with "unknown" (`0`) last.
pub open spec fn spec_rank_key(rank: u32) -> u32 {
    if rank == 0 {
        u32::MAX
    } else {
        rank
    }
}

/// A rank that sorts most-common-first, with "unknown" last.
pub fn rank_key(rank: u32) -> (r: u32)
    ensures
        r == spec_rank_key(rank),
{
    if rank == 0 {
        u32::MAX
    } else {
        rank
    }
}

/// The largest rank key among the members, or the key of an unknown rank when
/// there are none.
pub open spec fn rarest_of(members: Seq<ToneSetMember>) -> u32
    decreases members.len(),
{
    if members.len() == 0 {
        u32::MAX
    } else if members.len() == 1 {
        spec_rank_key(members[0].rank)
    } else {
        let rest = rarest_of(members.drop_last());
        let k = spec_rank_key(members.last().rank);
        if rest < k {
            k
        } else {
            rest
        }
    }
}

/// The rank of a tone set's least common member: the number that decides
/// whether the set is worth a learner's time.
pub fn rarest(set: &ToneSet) -> (r: u32)
    ensures
        r == rarest_of(set.members@),
{
    let n = set.members.len();
    if n == 0 {
        return u32::MAX;
    }
    let mut best: u32 = rank_key(set.members[0].rank);
    let mut k: usize = 1;
    while k < n
        invariant
            1 <= k <= n,
            n == set.members.len(),
            best == rarest_of(set.members@.take(k as int)),
        decreases n - k,
    {
        assert(set.members@.take(k + 1).drop_last() =~= set.members@.take(k as int));
        let key = rank_key(set.members[k].rank);
        if best < key {
            best = key;
        }
        k += 1;
    }
    assert(set.members@.take(k as int) =~= set.members@);
    best
}

/// Runs of equal levels, counted: each maximal run of consecutive equal levels
/// becomes one `(level, count)`.
pub open spec fn runs(levels: Seq<u8>) -> Seq<(u8, usize)>
    decreases levels.len(),
{
    if levels.len() == 0 {
        seq![]
    } else {
        let rest = runs(levels.drop_last());
        let v = levels.last();
        if rest.len() > 0 && rest.last().0 == v {
            rest.update(rest.len() - 1, (v, (rest.last().1 + 1) as usize))
        } else {
            rest.push((v, 1usize))
        }
    }
}

proof fn lemma_runs_bound(levels: Seq<u8>)
    requires
        levels.len() <= usize::MAX,
    ensures
        forall|i: int| 0 <= i < runs(levels).len() ==> (#[trigger] runs(levels)[i]).1 <= levels.len(),
    decreases levels.len(),
{
    if levels.len() > 0 {
        let rest = runs(levels.drop_last());
        lemma_runs_bound(levels.drop_last());
        if rest.len() > 0 && rest.last().0 == levels.last() {
            assert(rest.last().1 + 1 <= levels.len());
            assert forall|i: int| 0 <= i < runs(levels).len() implies (#[trigger] runs(levels)[i]).1 <= levels.len() by {
                if i < rest.len() - 1 {
                    assert(runs(levels)[i] == rest[i]);
                }
            }
        } else {
            assert forall|i: int| 0 <= i < runs(levels).len() implies (#[trigger] runs(levels)[i]).1 <= levels.len() by {
                if i < rest.len() {
                    assert(runs(levels)[i] == rest[i]);
                }
            }
        }
    }
}

/// How many words sit at each HSK level, in the order the words are kept:
/// each run of one level counted once. For words sorted by level, which is
/// how a dataset keeps them, that is each level once, lowest first.
pub fn words_per_level(words: &[Word]) -> (r: Vec<(u8, usize)>)
    ensures
        r@ == runs(crate::prepare::levels_of(words@)),
{
    let ghost hs = crate::prepare::levels_of(words@);
    let mut counts: Vec<(u8, usize)> = Vec::new();
    let mut k: usize = 0;
    while k < words.len()
        invariant
            k <= words.len(),
            hs == crate::prepare::levels_of(words@),
            counts@ == runs(hs.take(k as int)),
        decreases words.len() - k,
    {
        proof {
            assert(hs.take(k + 1).drop_last() =~= hs.take(k as int));
            lemma_runs_bound(hs.take(k as int));
        }
        let level = words[k].hsk;
        let n = counts.len();
        if n > 0 && counts[n - 1].0 == level {
            let c = counts[n - 1].1;
            counts.set(n - 1, (level, c + 1));
        } else {
            counts.push((level, 1));
        }
        k += 1;
    }
    assert(hs.take(k as int) =~= hs);
    counts
}

/// What a lookup knows of one character: its readings, most common first, and
/// its meaning.
pub open spec fn known_hint(known: Seq<CharacterHint>, c: char) -> Option<CharacterHint>
    decreases known.len(),
{
    if known.len() == 0 {
        None
    } else if known[0].ch == c {
        Some(known[0])
    } else {
        known_hint(known.drop_first(), c)
    }
}

/// The dictionary word whose text is `t`: the first such.
pub open spec fn word_for(words: Seq<Word>, t: Seq<char>) -> Option<Word>
    decreases words.len(),
{
    if words.len() == 0 {
        None
    } else if words[0].text@ == t {
        Some(words[0])
    } else {
        word_for(words.drop_first(), t)
    }
}

/// The first readings of the hints that have one, run together.
pub open spec fn composed(hints: Seq<CharacterHint>) -> Seq<char>
    decreases hints.len(),
{
    if hints.len() == 0 {
        seq![]
    } else {
        let rest = composed(hints.drop_last());
        if hints.last().pinyin.len() > 0 {
            rest + hints.last().pinyin@[0]@
        } else {
            rest
        }
    }
}

/// The hint for one character: what is known of it, or nothing.
pub open spec fn hint_is(h: CharacterHint, known: Seq<CharacterHint>, c: char) -> bool {
    &&& h.ch == c
    &&& match known_hint(known, c) {
        Some(k) => views(h.pinyin@) == views(k.pinyin@) && h.meaning@ == k.meaning@,
        None => h.pinyin.len() == 0 && h.meaning@.len() == 0,
    }
}

fn find_hint(known: &[CharacterHint], c: char) -> (r: CharacterHint)
    ensures
        hint_is(r, known@, c),
{
    let mut k: usize = 0;
    assert(known@.skip(0) =~= known@);
    while k < known.len()
        invariant
            k <= known.len(),
            known_hint(known@, c) == known_hint(known@.skip(k as int), c),
        decreases known.len() - k,
    {
        assert(known@.skip(k as int).drop_first() =~= known@.skip(k + 1));
        if known[k].ch == c {
            let mut readings: Vec<String> = Vec::new();
            let mut j: usize = 0;
            while j < known[k].pinyin.len()
                invariant
                    k < known.len(),
                    j <= known@[k as int].pinyin.len(),
                    views(readings@) == views(known@[k as int].pinyin@).take(j as int),
                decreases known@[k as int].pinyin.len() - j,
            {
                let ghost before = readings@;
                let t = known[k].pinyin[j].clone();
                readings.push(t);
                proof {
                    lemma_views_push(before, t);
                    assert(views(readings@) =~= views(known@[k as int].pinyin@).take(j + 1));
                }
                j += 1;
            }
            assert(views(known@[k as int].pinyin@).take(j as int) =~= views(known@[k as int].pinyin@));
            return CharacterHint { ch: c, pinyin: readings, meaning: known[k].meaning.clone() };
        }
        k += 1;
    }
    CharacterHint { ch: c, pinyin: Vec::new(), meaning: String::new() }
}

pub(crate) fn find_word<'a>(words: &'a [Word], t: &str) -> (r: Option<&'a Word>)
    ensures
        match r {
            Some(w) => word_for(words@, t@) == Some(*w),
            None => word_for(words@, t@) is None,
        },
{
    let mut k: usize = 0;
    assert(words@.skip(0) =~= words@);
    while k < words.len()
        invariant
            k <= words.len(),
            word_for(words@, t@) == word_for(words@.skip(k as int), t@),
        decreases words.len() - k,
    {
        assert(words@.skip(k as int).drop_first() =~= words@.skip(k + 1));
        if str_equal(words[k].text.as_str(), t) {
            return Some(&words[k]);
        }
        k += 1;
    }
    None
}

/// What the dataset can tell about a piece of study text before it is edited.
///
/// `known` holds what the dataset knows of each character, and `words` its
/// dictionary words. A single character is its own word: its first reading and
/// its meaning are the answer. A dictionary word gets the dictionary's reading
/// and meaning. Anything else gets the characters' first readings run together
/// and no meaning, because a meaning cannot be composed from parts. The hints
/// are returned either way.
pub fn lookup_text(text: &str, known: &[CharacterHint], words: &[Word]) -> (r: TextLookup)
    ensures
        ({
            let t = trim(text@);
            let hints = r.characters@;
            &&& hints.len() == t.len()
            &&& forall|i: int| 0 <= i < t.len() ==> hint_is(#[trigger] hints[i], known@, t[i])
            &&& r.complete == (t.len() > 0 && forall|i: int| 0 <= i < t.len() ==> (#[trigger] hints[i]).pinyin.len() > 0)
            &&& if t.len() == 1 {
                &&& r.pinyin@ == if hints[0].pinyin.len() > 0 {
                    hints[0].pinyin@[0]@
                } else {
                    Seq::<char>::empty()
                }
                &&& r.meaning@ == hints[0].meaning@
            } else {
                match word_for(words@, t) {
                    Some(w) => r.pinyin@ == w.pinyin@ && r.meaning@ == w.meaning@,
                    None => r.pinyin@ == composed(hints) && r.meaning@.len() == 0,
                }
            }
        }),
{
    let t = crate::text::trimmed_chars(text);
    let mut hints: Vec<CharacterHint> = Vec::new();
    let mut complete = t.len() > 0;
    let mut k: usize = 0;
    while k < t.len()
        invariant
            k <= t.len(),
            t@ == trim(text@),
            hints.len() == k,
            forall|i: int| 0 <= i < k ==> hint_is(#[trigger] hints@[i], known@, t@[i]),
            complete == (t.len() > 0 && forall|i: int| 0 <= i < k ==> (#[trigger] hints@[i]).pinyin.len() > 0),
        decreases t.len() - k,
    {
        let h = find_hint(known, t[k]);
        if h.pinyin.len() == 0 {
            complete = false;
        }
        let ghost before = hints@;
        hints.push(h);
        proof {
            lemma_push(before, h);
        }
        k += 1;
    }
    let (pinyin, meaning) = if hints.len() == 1 {
        let p = if hints[0].pinyin.len() > 0 {
            hints[0].pinyin[0].clone()
        } else {
            String::new()
        };
        (p, hints[0].meaning.clone())
    } else {
        let whole = crate::text::string_of(&t);
        match find_word(words, whole.as_str()) {
            Some(w) => (w.pinyin.clone(), w.meaning.clone()),
            None => {
                let mut out = String::new();
                let mut j: usize = 0;
                while j < hints.len()
                    invariant
                        j <= hints.len(),
                        out@ == composed(hints@.take(j as int)),
                    decreases hints.len() - j,
                {
                    assert(hints@.take(j + 1).drop_last() =~= hints@.take(j as int));
                    if hints[j].pinyin.len() > 0 {
                        crate::text::append_str(&mut out, hints[j].pinyin[0].as_str());
                    }
                    j += 1;
                }
                assert(hints@.take(j as int) =~= hints@);
                (out, String::new())
            },
        }
    };
    let r = TextLookup { pinyin, meaning, characters: hints, complete };
    assert(r.characters@.len() == trim(text@).len());
    assert(forall|i: int| 0 <= i < trim(text@).len() ==> hint_is(#[trigger] r.characters@[i], known@, trim(text@)[i]));
    assert(r.complete == (trim(text@).len() > 0 && forall|i: int| 0 <= i < trim(text@).len() ==> (#[trigger] r.characters@[i]).pinyin.len() > 0));
    r
}


// ---------------------------------------------------------------------------
// Tone sets
// ---------------------------------------------------------------------------

/// A character the course teaches, as the tone sets read it.
#[derive(Clone, Debug)]
pub struct RankedCharacter {
    pub ch: char,
    /// Frequency rank, 1 = most common.
    pub rank: u32,
    /// Every reading, most common first.
    pub pinyin: Vec<String>,
    pub definition: String,
}

/// The syllable and tone a character is placed at: those of its first reading,
/// which is what a voice says for it alone. `None` when it has no reading,
/// the reading is not one full-toned syllable, or its syllable is empty.
pub open spec fn slot_of(c: RankedCharacter) -> Option<(Seq<char>, u8)> {
    if c.pinyin.len() == 0 {
        None
    } else {
        let r = c.pinyin@[0]@;
        let b = base_of(r);
        if b.len() > 0 && readable(r) && syllables_of(r).len() == 1 && 1 <= syllables_of(r)[0].1
            <= 4 {
            Some((b, syllables_of(r)[0].1))
        } else {
            None
        }
    }
}

/// The first character from `k` on placed at syllable `b` and tone `t`: the
/// most common one for that place.
pub open spec fn winner_from(chars: Seq<RankedCharacter>, b: Seq<char>, t: u8, k: int) -> Option<int>
    decreases chars.len() - k,
{
    if k < 0 || k >= chars.len() {
        None
    } else if slot_of(chars[k]) == Some((b, t)) {
        Some(k)
    } else {
        winner_from(chars, b, t, k + 1)
    }
}

/// The members of the set for syllable `b` with tones below `upto`: for each
/// tone that has a character, the index of its most common one, tone first.
pub open spec fn members_below(chars: Seq<RankedCharacter>, b: Seq<char>, upto: int) -> Seq<(int, u8)>
    decreases upto,
{
    if upto <= 1 {
        seq![]
    } else {
        let rest = members_below(chars, b, upto - 1);
        match winner_from(chars, b, (upto - 1) as u8, 0) {
            Some(i) => rest.push((i, (upto - 1) as u8)),
            None => rest,
        }
    }
}

/// The members of the set for syllable `b`, tone 1 first.
pub open spec fn members_of(chars: Seq<RankedCharacter>, b: Seq<char>) -> Seq<(int, u8)> {
    members_below(chars, b, 5)
}

/// A set is worth drilling when two tones of its syllable have a character.
pub open spec fn is_contrast(chars: Seq<RankedCharacter>, b: Seq<char>) -> bool {
    members_of(chars, b).len() >= 2
}

/// The member is character `i` of `chars`, placed at tone `t`.
pub open spec fn member_is(member: ToneSetMember, chars: Seq<RankedCharacter>, i: int, t: u8) -> bool {
    &&& 0 <= i < chars.len()
    &&& member.ch == chars[i].ch
    &&& chars[i].pinyin.len() > 0
    &&& member.reading@ == chars[i].pinyin@[0]@
    &&& member.tone == t
    &&& member.definition@ == chars[i].definition@
    &&& member.rank == chars[i].rank
}

/// Each member is the character and tone `m` names, in order.
pub open spec fn members_match(
    members: Seq<ToneSetMember>,
    m: Seq<(int, u8)>,
    chars: Seq<RankedCharacter>,
) -> bool {
    &&& members.len() == m.len()
    &&& forall|k: int| 0 <= k < m.len() ==> member_is(#[trigger] members[k], chars, m[k].0, m[k].1)
}

/// `set` is the tone set of its syllable: one member per tone that has a
/// character, the most common character for it, tone first.
pub open spec fn set_is(set: ToneSet, chars: Seq<RankedCharacter>) -> bool {
    members_match(set.members@, members_of(chars, set.base@), chars)
}

proof fn lemma_members_match_push(
    members: Seq<ToneSetMember>,
    m: Seq<(int, u8)>,
    chars: Seq<RankedCharacter>,
    x: ToneSetMember,
    i: int,
    t: u8,
)
    requires
        members_match(members, m, chars),
        member_is(x, chars, i, t),
    ensures
        members_match(members.push(x), m.push((i, t)), chars),
{
    assert forall|k: int| 0 <= k < m.len() + 1 implies member_is(#[trigger] members.push(x)[k], chars, m.push((i, t))[k].0, m.push((i, t))[k].1) by {
        if k < m.len() {
            assert(members.push(x)[k] == members[k]);
            assert(m.push((i, t))[k] == m[k]);
        }
    }
}

fn slots(chars: &[RankedCharacter]) -> (r: Vec<Option<(String, u8)>>)
    ensures
        r.len() == chars.len(),
        forall|i: int|
            0 <= i < chars.len() ==> match #[trigger] r@[i] {
                Some((b, t)) => slot_of(chars@[i]) == Some((b@, t)),
                None => slot_of(chars@[i]) is None,
            },
{
    let mut out: Vec<Option<(String, u8)>> = Vec::new();
    let mut i: usize = 0;
    while i < chars.len()
        invariant
            i <= chars.len(),
            out.len() == i,
            forall|j: int|
                0 <= j < i ==> match #[trigger] out@[j] {
                    Some((b, t)) => slot_of(chars@[j]) == Some((b@, t)),
                    None => slot_of(chars@[j]) is None,
                },
        decreases chars.len() - i,
    {
        let slot = if chars[i].pinyin.len() == 0 {
            None
        } else {
            let reading = chars[i].pinyin[0].as_str();
            let b = base(reading);
            match tone_from_pinyin(reading) {
                Some(t) => if !b.as_str().is_empty() && 1 <= t && t <= 4 {
                    Some((b, t))
                } else {
                    None
                },
                None => None,
            }
        };
        let ghost before = out@;
        out.push(slot);
        proof {
            lemma_push(before, slot);
        }
        i += 1;
    }
    out
}

/// The most common character at syllable `b` and tone `t`.
fn find_winner(slots: &Vec<Option<(String, u8)>>, b: &String, t: u8, Ghost(chars): Ghost<Seq<RankedCharacter>>) -> (r: Option<usize>)
    requires
        slots.len() == chars.len(),
        forall|i: int|
            0 <= i < chars.len() ==> match #[trigger] slots@[i] {
                Some((x, y)) => slot_of(chars[i]) == Some((x@, y)),
                None => slot_of(chars[i]) is None,
            },
    ensures
        match r {
            Some(i) => winner_from(chars, b@, t, 0) == Some(i as int),
            None => winner_from(chars, b@, t, 0) is None,
        },
{
    let mut k: usize = 0;
    while k < slots.len()
        invariant
            k <= slots.len(),
            slots.len() == chars.len(),
            forall|i: int|
                0 <= i < chars.len() ==> match #[trigger] slots@[i] {
                    Some((x, y)) => slot_of(chars[i]) == Some((x@, y)),
                    None => slot_of(chars[i]) is None,
                },
            winner_from(chars, b@, t, 0) == winner_from(chars, b@, t, k as int),
        decreases slots.len() - k,
    {
        let hit = match &slots[k] {
            Some((x, y)) => *y == t && str_equal(x.as_str(), b.as_str()),
            None => false,
        };
        proof {
            assert(hit == (slot_of(chars[k as int]) == Some((b@, t))));
        }
        if hit {
            return Some(k);
        }
        k += 1;
    }
    None
}


/// The slots of the characters, by [`slot_of`].
pub open spec fn slots_are(slots: Seq<Option<(String, u8)>>, chars: Seq<RankedCharacter>) -> bool {
    &&& slots.len() == chars.len()
    &&& forall|i: int|
        0 <= i < chars.len() ==> match #[trigger] slots[i] {
            Some((x, y)) => slot_of(chars[i]) == Some((x@, y)),
            None => slot_of(chars[i]) is None,
        }
}

/// The tone set of syllable `b`, whether or not it is a contrast.
fn set_for(chars: &[RankedCharacter], slots: &Vec<Option<(String, u8)>>, b: &String) -> (r: ToneSet)
    requires
        slots_are(slots@, chars@),
    ensures
        r.base@ == b@,
        set_is(r, chars@),
{
    let mut members: Vec<ToneSetMember> = Vec::new();
    let mut t: u8 = 1;
    while t <= 4
        invariant
            1 <= t <= 5,
            slots_are(slots@, chars@),
            members_match(members@, members_below(chars@, b@, t as int), chars@),
        decreases 5 - t,
    {
        let ghost before_m = members_below(chars@, b@, t as int);
        match find_winner(slots, b, t, Ghost(chars@)) {
            Some(i) => {
                proof {
                    lemma_winner_bounds(chars@, b@, t, 0);
                    assert(slot_of(chars@[i as int]) is Some);
                }
                let c = &chars[i];
                let member = ToneSetMember {
                    ch: c.ch,
                    reading: c.pinyin[0].clone(),
                    tone: t,
                    definition: c.definition.clone(),
                    rank: c.rank,
                };
                let ghost before = members@;
                members.push(member);
                proof {
                    assert(member_is(member, chars@, i as int, t));
                    lemma_members_match_push(before, before_m, chars@, member, i as int, t);
                    assert(members_below(chars@, b@, t + 1) == before_m.push((i as int, t)));
                }
            },
            None => {
                assert(members_below(chars@, b@, t + 1) == before_m);
            },
        }
        t += 1;
    }
    assert(t == 5);
    ToneSet { base: b.clone(), members }
}

proof fn lemma_winner_bounds(chars: Seq<RankedCharacter>, b: Seq<char>, t: u8, k: int)
    ensures
        winner_from(chars, b, t, k) matches Some(i) ==> 0 <= i < chars.len() && slot_of(chars[i])
            == Some((b, t)),
    decreases chars.len() - k,
{
    if 0 <= k < chars.len() && slot_of(chars[k]) != Some((b, t)) {
        lemma_winner_bounds(chars, b, t, k + 1);
    }
}

/// The syllable a character is placed at.
pub open spec fn slot_base(c: RankedCharacter) -> Option<Seq<char>> {
    match slot_of(c) {
        Some((b, _)) => Some(b),
        None => None,
    }
}

/// Some character is placed at syllable `b`.
pub open spec fn has_slot(chars: Seq<RankedCharacter>, b: Seq<char>) -> bool {
    exists|i: int| 0 <= i < chars.len() && #[trigger] slot_base(chars[i]) == Some(b)
}

/// The syllables characters are placed at, each once.
fn syllables_used(slots: &Vec<Option<(String, u8)>>, Ghost(chars): Ghost<Seq<RankedCharacter>>) -> (r: Vec<String>)
    requires
        slots_are(slots@, chars),
    ensures
        forall|j: int, k: int| 0 <= j < k < r.len() ==> r@[j]@ != r@[k]@,
        forall|j: int| 0 <= j < r.len() ==> has_slot(chars, #[trigger] r@[j]@),
        forall|b: Seq<char>| has_slot(chars, b) ==> exists|j: int| 0 <= j < r.len() && (#[trigger] r@[j])@ == b,
{
    let mut out: Vec<String> = Vec::new();
    let mut i: usize = 0;
    while i < slots.len()
        invariant
            i <= slots.len(),
            slots_are(slots@, chars),
            forall|j: int, k: int| 0 <= j < k < out.len() ==> out@[j]@ != out@[k]@,
            forall|j: int| 0 <= j < out.len() ==> has_slot(chars, #[trigger] out@[j]@),
            forall|x: int|
                0 <= x < i && (#[trigger] slot_base(chars[x])) is Some ==> exists|j: int|
                    0 <= j < out.len() && (#[trigger] out@[j])@ == slot_base(chars[x])->0,
        decreases slots.len() - i,
    {
        match &slots[i] {
            Some((b, _)) => {
                let mut seen = false;
                let mut j: usize = 0;
                while j < out.len()
                    invariant
                        j <= out.len(),
                        seen == exists|k: int| 0 <= k < j && (#[trigger] out@[k])@ == b@,
                    decreases out.len() - j,
                {
                    if str_equal(out[j].as_str(), b.as_str()) {
                        seen = true;
                    }
                    j += 1;
                }
                if !seen {
                    let ghost before = out@;
                    let nb = b.clone();
                    out.push(nb);
                    proof {
                        lemma_push(before, nb);
                        assert(slot_base(chars[i as int]) == Some(nb@));
                        assert(has_slot(chars, nb@));
                        assert forall|x: int|
                            0 <= x < i + 1 && (#[trigger] slot_base(chars[x])) is Some implies exists|j: int|
                                0 <= j < out.len() && (#[trigger] out@[j])@ == slot_base(chars[x])->0 by {
                            if x < i {
                                let bb = slot_base(chars[x])->0;
                                let j = choose|j: int| 0 <= j < before.len() && (#[trigger] before[j])@ == bb;
                                assert(out@[j] == before[j]);
                            } else {
                                assert(out@[before.len() as int]@ == nb@);
                            }
                        }
                    }
                }
            },
            None => {},
        }
        i += 1;
    }
    proof {
        assert forall|b: Seq<char>| has_slot(chars, b) implies exists|j: int| 0 <= j < out.len() && (#[trigger] out@[j])@ == b by {
            let x = choose|x: int| 0 <= x < chars.len() && #[trigger] slot_base(chars[x]) == Some(b);
            assert(slot_base(chars[x]) is Some);
        }
    }
    out
}


proof fn lemma_members_have_slot(chars: Seq<RankedCharacter>, b: Seq<char>, upto: int)
    requires
        members_below(chars, b, upto).len() > 0,
    ensures
        has_slot(chars, b),
    decreases upto,
{
    if upto > 1 {
        match winner_from(chars, b, (upto - 1) as u8, 0) {
            Some(i) => {
                lemma_winner_bounds(chars, b, (upto - 1) as u8, 0);
                assert(slot_base(chars[i]) == Some(b));
            },
            None => {
                lemma_members_have_slot(chars, b, upto - 1);
            },
        }
    }
}

/// Every contrast: the tone set of each syllable with two tones or more, each
/// syllable once.
fn contrast_sets(chars: &[RankedCharacter], slots: &Vec<Option<(String, u8)>>) -> (r: Vec<ToneSet>)
    requires
        slots_are(slots@, chars@),
    ensures
        forall|k: int| 0 <= k < r.len() ==> set_is(#[trigger] r@[k], chars@) && is_contrast(chars@, r@[k].base@),
        forall|j: int, k: int| 0 <= j < k < r.len() ==> r@[j].base@ != r@[k].base@,
        forall|b: Seq<char>| is_contrast(chars@, b) ==> exists|k: int| 0 <= k < r.len() && (#[trigger] r@[k]).base@ == b,
{
    let bases = syllables_used(slots, Ghost(chars@));
    let mut sets: Vec<ToneSet> = Vec::new();
    let mut k: usize = 0;
    while k < bases.len()
        invariant
            k <= bases.len(),
            slots_are(slots@, chars@),
            forall|j: int, l: int| 0 <= j < l < bases.len() ==> bases@[j]@ != bases@[l]@,
            forall|j: int| 0 <= j < sets.len() ==> set_is(#[trigger] sets@[j], chars@) && is_contrast(chars@, sets@[j].base@),
            forall|j: int| 0 <= j < sets.len() ==> exists|l: int| 0 <= l < k && (#[trigger] sets@[j]).base@ == bases@[l]@,
            forall|l: int| 0 <= l < k && is_contrast(chars@, #[trigger] bases@[l]@) ==> exists|j: int|
                0 <= j < sets.len() && (#[trigger] sets@[j]).base@ == bases@[l]@,
            forall|j: int, l: int| 0 <= j < l < sets.len() ==> sets@[j].base@ != sets@[l].base@,
        decreases bases.len() - k,
    {
        let set = set_for(chars, slots, &bases[k]);
        if set.members.len() >= 2 {
            let ghost before = sets@;
            sets.push(set);
            proof {
                lemma_push(before, set);
                assert forall|j: int| 0 <= j < sets.len() implies exists|l: int| 0 <= l < k + 1 && (#[trigger] sets@[j]).base@ == bases@[l]@ by {
                    if j < before.len() {
                        assert(sets@[j] == before[j]);
                    } else {
                        assert(sets@[j].base@ == bases@[k as int]@);
                    }
                }
                assert forall|l: int| 0 <= l < k + 1 && is_contrast(chars@, #[trigger] bases@[l]@) implies exists|j: int|
                    0 <= j < sets.len() && (#[trigger] sets@[j]).base@ == bases@[l]@ by {
                    if l < k {
                        let j = choose|j: int| 0 <= j < before.len() && (#[trigger] before[j]).base@ == bases@[l]@;
                        assert(sets@[j] == before[j]);
                    } else {
                        assert(sets@[before.len() as int] == set);
                    }
                }
                assert forall|j: int, l: int| 0 <= j < l < sets.len() implies sets@[j].base@ != sets@[l].base@ by {
                    if l == before.len() {
                        let x = choose|x: int| 0 <= x < k && (#[trigger] before[j]).base@ == bases@[x]@;
                        assert(sets@[j] == before[j]);
                    } else {
                        assert(sets@[j] == before[j]);
                        assert(sets@[l] == before[l]);
                    }
                }
            }
        } else {
            proof {
                assert forall|l: int| 0 <= l < k + 1 && is_contrast(chars@, #[trigger] bases@[l]@) implies exists|j: int|
                    0 <= j < sets.len() && (#[trigger] sets@[j]).base@ == bases@[l]@ by {
                    if l == k {
                        assert(set.members.len() == members_of(chars@, bases@[k as int]@).len());
                    }
                }
            }
        }
        k += 1;
    }
    proof {
        assert forall|b: Seq<char>| is_contrast(chars@, b) implies exists|j: int| 0 <= j < sets.len() && (#[trigger] sets@[j]).base@ == b by {
            lemma_members_have_slot(chars@, b, 5);
            let l = choose|l: int| 0 <= l < bases.len() && (#[trigger] bases@[l])@ == b;
            assert(is_contrast(chars@, bases@[l]@));
        }
    }
    sets
}


/// The order tone sets are offered in: by their rarest member, most useful
/// first, then by syllable.
pub open spec fn set_before(a: ToneSet, b: ToneSet) -> bool {
    rarest_of(a.members@) < rarest_of(b.members@) || (rarest_of(a.members@) == rarest_of(
        b.members@,
    ) && text_before(a.base@, b.base@))
}

proof fn lemma_set_before_order(a: ToneSet, b: ToneSet, c: ToneSet)
    ensures
        !set_before(a, a),
        a.base@ != b.base@ ==> set_before(a, b) || set_before(b, a),
        !(set_before(a, b) && set_before(b, a)),
        set_before(a, b) && set_before(b, c) ==> set_before(a, c),
{
    crate::text::lemma_text_before_irreflexive(a.base@);
    crate::text::lemma_text_before_total(a.base@, b.base@);
    if set_before(a, b) && set_before(b, c) && rarest_of(a.members@) == rarest_of(b.members@)
        && rarest_of(b.members@) == rarest_of(c.members@) {
        crate::text::lemma_text_before_transitive(a.base@, b.base@, c.base@);
    }
}

fn set_comes_before(a: &ToneSet, b: &ToneSet) -> (r: bool)
    ensures
        r == set_before(*a, *b),
{
    let x = rarest(a);
    let y = rarest(b);
    x < y || (x == y && str_before(a.base.as_str(), b.base.as_str()))
}

/// `x` is one of `s`.
pub open spec fn appears(x: ToneSet, s: Seq<ToneSet>) -> bool {
    exists|k: int| 0 <= k < s.len() && s[k] == x
}

/// The sets in the order they are offered in.
fn sort_sets(sets: Vec<ToneSet>) -> (r: Vec<ToneSet>)
    requires
        forall|j: int, k: int| 0 <= j < k < sets.len() ==> sets@[j].base@ != sets@[k].base@,
    ensures
        r.len() == sets.len(),
        forall|j: int, k: int| 0 <= j < k < r.len() ==> set_before(r@[j], r@[k]),
        forall|j: int| 0 <= j < sets.len() ==> appears(#[trigger] sets@[j], r@),
        forall|k: int| 0 <= k < r.len() ==> appears(#[trigger] r@[k], sets@),
{
    let ghost orig = sets@;
    let mut rest = sets;
    let mut out: Vec<ToneSet> = Vec::new();
    while rest.len() > 0
        invariant
            rest@ == orig.take(rest.len() as int),
            rest.len() + out.len() == orig.len(),
            forall|j: int, k: int| 0 <= j < k < orig.len() ==> orig[j].base@ != orig[k].base@,
            forall|j: int, k: int| 0 <= j < k < out.len() ==> set_before(out@[j], out@[k]),
            forall|j: int| rest.len() <= j < orig.len() ==> appears(#[trigger] orig[j], out@),
            forall|k: int| 0 <= k < out.len() ==> appears(#[trigger] out@[k], orig.skip(rest.len() as int)),
        decreases rest.len(),
    {
        let ghost m = rest.len() - 1;
        let x = rest.pop().unwrap();
        proof {
            assert(x == orig[m]);
            assert(rest@ =~= orig.take(m));
        }
        let mut p: usize = 0;
        while p < out.len() && !set_comes_before(&x, &out[p])
            invariant
                p <= out.len(),
                forall|i: int| 0 <= i < p ==> !set_before(x, out@[i]),
            decreases out.len() - p,
        {
            p += 1;
        }
        let ghost before = out@;
        proof {
            assert forall|i: int| 0 <= i < before.len() implies before[i].base@ != x.base@ by {
                assert(appears(before[i], orig.skip(m + 1)));
                let j = choose|j: int| 0 <= j < orig.skip(m + 1).len() && #[trigger] orig.skip(m + 1)[j] == before[i];
                assert(orig.skip(m + 1)[j] == orig[m + 1 + j]);
            }
        }
        out.insert(p, x);
        proof {
            assert(out@[p as int] == x);
            assert forall|j: int, k: int| 0 <= j < k < out.len() implies set_before(out@[j], out@[k]) by {
                if k < p {
                    assert(out@[j] == before[j] && out@[k] == before[k]);
                } else if k == p {
                    assert(out@[j] == before[j]);
                    lemma_set_before_order(before[j], x, x);
                } else if j == p {
                    assert(out@[k] == before[k - 1]);
                    assert(set_before(x, before[p as int]));
                    if k - 1 > p {
                        assert(set_before(before[p as int], before[k - 1]));
                        lemma_set_before_order(x, before[p as int], before[k - 1]);
                    }
                } else if j < p {
                    assert(out@[j] == before[j] && out@[k] == before[k - 1]);
                } else {
                    assert(out@[j] == before[j - 1] && out@[k] == before[k - 1]);
                }
            }
            assert forall|j: int| m <= j < orig.len() implies appears(#[trigger] orig[j], out@) by {
                if j > m {
                    assert(appears(orig[j], before));
                    let k = choose|k: int| 0 <= k < before.len() && before[k] == orig[j];
                    if k < p {
                        assert(out@[k] == before[k]);
                    } else {
                        assert(out@[k + 1] == before[k]);
                    }
                } else {
                    assert(out@[p as int] == orig[j]);
                }
            }
            assert forall|k: int| 0 <= k < out.len() implies appears(#[trigger] out@[k], orig.skip(m)) by {
                if k == p {
                    assert(orig.skip(m)[0] == orig[m]);
                } else {
                    let b = if k < p {
                        before[k]
                    } else {
                        before[k - 1]
                    };
                    assert(out@[k] == b);
                    assert(appears(b, orig.skip(m + 1)));
                    let j = choose|j: int| 0 <= j < orig.skip(m + 1).len() && #[trigger] orig.skip(m + 1)[j] == b;
                    assert(orig.skip(m)[j + 1] == orig.skip(m + 1)[j]);
                }
            }
        }
    }
    proof {
        assert(orig.skip(0) =~= orig);
    }
    out
}


proof fn lemma_rarest_of_same_ranks(a: Seq<ToneSetMember>, b: Seq<ToneSetMember>)
    requires
        a.len() == b.len(),
        forall|k: int| 0 <= k < a.len() ==> (#[trigger] a[k]).rank == b[k].rank,
    ensures
        rarest_of(a) == rarest_of(b),
    decreases a.len(),
{
    if a.len() > 1 {
        lemma_rarest_of_same_ranks(a.drop_last(), b.drop_last());
        assert(a.last().rank == b.last().rank);
    } else if a.len() == 1 {
        assert(a[0].rank == b[0].rank);
    }
}

/// Two tone sets of one syllable hold the same characters, so they are
/// offered at the same place.
proof fn lemma_same_syllable_same_place(x: ToneSet, y: ToneSet, chars: Seq<RankedCharacter>)
    requires
        set_is(x, chars),
        set_is(y, chars),
        x.base@ == y.base@,
    ensures
        rarest_of(x.members@) == rarest_of(y.members@),
{
    let m = members_of(chars, x.base@);
    assert forall|k: int| 0 <= k < x.members@.len() implies (#[trigger] x.members@[k]).rank == y.members@[k].rank by {
        assert(member_is(x.members@[k], chars, m[k].0, m[k].1));
        assert(member_is(y.members@[k], chars, m[k].0, m[k].1));
    }
    lemma_rarest_of_same_ranks(x.members@, y.members@);
}

/// Sets of characters that differ only in tone, most useful first.
///
/// `ranked` holds the characters the course teaches, most common first. Each
/// is placed by its first reading, the one a voice says for it alone: its
/// syllable with the tone taken off ([`base`]), and its tone, which must be
/// one of the four full tones. The most common character for each syllable and
/// tone is that tone's member, and a syllable with two tones or more is a set,
/// its members tone first. Sets come ordered by their rarest member, then by
/// syllable, and at most `limit` of them.
pub fn tone_sets(ranked: &[RankedCharacter], limit: usize) -> (r: Vec<ToneSet>)
    ensures
        r.len() <= limit,
        forall|k: int| 0 <= k < r.len() ==> set_is(#[trigger] r@[k], ranked@) && is_contrast(ranked@, r@[k].base@),
        forall|j: int, k: int| 0 <= j < k < r.len() ==> set_before(r@[j], r@[k]),
        forall|s: ToneSet|
            set_is(s, ranked@) && is_contrast(ranked@, s.base@) && !(exists|k: int|
                0 <= k < r.len() && (#[trigger] r@[k]).base@ == s.base@) ==> r.len() == limit
                && forall|k: int| 0 <= k < r.len() ==> set_before(#[trigger] r@[k], s),
{
    let slots = slots(ranked);
    let sets = contrast_sets(ranked, &slots);
    let ghost unsorted = sets@;
    let mut sorted = sort_sets(sets);
    let ghost full = sorted@;
    sorted.truncate(limit);
    proof {
        assert forall|k: int| 0 <= k < sorted.len() implies set_is(#[trigger] sorted@[k], ranked@) && is_contrast(ranked@, sorted@[k].base@) by {
            assert(sorted@[k] == full[k]);
            assert(appears(full[k], unsorted));
        }
        assert forall|s: ToneSet|
            set_is(s, ranked@) && is_contrast(ranked@, s.base@) && !(exists|k: int|
                0 <= k < sorted.len() && (#[trigger] sorted@[k]).base@ == s.base@) implies sorted.len() == limit
                && forall|k: int| 0 <= k < sorted.len() ==> set_before(#[trigger] sorted@[k], s) by {
            let j = choose|j: int| 0 <= j < unsorted.len() && (#[trigger] unsorted[j]).base@ == s.base@;
            assert(appears(unsorted[j], full));
            let q = choose|q: int| 0 <= q < full.len() && full[q] == unsorted[j];
            if q < limit {
                assert(sorted@[q] == full[q]);
            }
            assert(q >= limit);
            lemma_same_syllable_same_place(full[q], s, ranked@);
            assert forall|k: int| 0 <= k < sorted.len() implies set_before(#[trigger] sorted@[k], s) by {
                assert(sorted@[k] == full[k]);
                assert(set_before(full[k], full[q]));
                crate::text::lemma_text_before_irreflexive(s.base@);
            }
        }
    }
    sorted
}


proof fn lemma_members_below_tones(chars: Seq<RankedCharacter>, b: Seq<char>, upto: int)
    requires
        upto <= 5,
    ensures
        forall|k: int| 0 <= k < members_below(chars, b, upto).len() ==> 1 <= #[trigger] members_below(chars, b, upto)[k].1 < upto,
        forall|j: int, k: int| 0 <= j < k < members_below(chars, b, upto).len() ==> members_below(chars, b, upto)[j].1 < members_below(chars, b, upto)[k].1,
    decreases upto,
{
    if upto > 1 {
        lemma_members_below_tones(chars, b, upto - 1);
        let rest = members_below(chars, b, upto - 1);
        let all = members_below(chars, b, upto);
        assert forall|k: int| 0 <= k < all.len() implies 1 <= #[trigger] all[k].1 < upto by {
            if k < rest.len() {
                assert(all[k] == rest[k]);
            }
        }
        assert forall|j: int, k: int| 0 <= j < k < all.len() implies all[j].1 < all[k].1 by {
            if k < rest.len() {
                assert(all[j] == rest[j] && all[k] == rest[k]);
            } else {
                assert(all[j] == rest[j]);
            }
        }
    }
}

/// A tone set holds one character per tone, tone 1 first: its members' tones
/// are full tones, in rising order, none twice.
pub proof fn law_a_tone_set_has_one_member_per_tone_in_order(set: ToneSet, chars: Seq<RankedCharacter>)
    requires
        set_is(set, chars),
    ensures
        forall|k: int| 0 <= k < set.members.len() ==> 1 <= (#[trigger] set.members@[k]).tone <= 4,
        forall|j: int, k: int| 0 <= j < k < set.members.len() ==> set.members@[j].tone < set.members@[k].tone,
{
    let m = members_of(chars, set.base@);
    lemma_members_below_tones(chars, set.base@, 5);
    assert forall|k: int| 0 <= k < set.members.len() implies 1 <= (#[trigger] set.members@[k]).tone <= 4 by {
        assert(member_is(set.members@[k], chars, m[k].0, m[k].1));
    }
    assert forall|j: int, k: int| 0 <= j < k < set.members.len() implies set.members@[j].tone < set.members@[k].tone by {
        assert(member_is(set.members@[j], chars, m[j].0, m[j].1));
        assert(member_is(set.members@[k], chars, m[k].0, m[k].1));
    }
}

} // verus!
