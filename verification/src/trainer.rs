//! What the tone trainer shows: word families built on the characters that
//! differ only in tone, and the app's own name.

use vstd::prelude::*;

use crate::dataset::{ToneSet, Word};
use crate::pinyin::{aligns, spoken_of, tone_target, tones_of};
use crate::progress::holds;
use crate::text::{append_str, decimal, decimal_string, join, lemma_push, push_char, str_before, str_equal, text_before, views};

verus! {

/// One word of a word family: a whole word, with the reading that is scored.
#[derive(Clone, Debug)]
pub struct WordMember {
    pub text: String,
    /// The reading with tone marks, e.g. `"nǐhǎo"`.
    pub reading: String,
    /// The tones as spoken, after sandhi: what a recording is scored against.
    pub spoken: Vec<u8>,
    /// The tones the dictionary gives, before sandhi.
    pub citation: Vec<u8>,
    pub meaning: String,
    /// Lowest HSK 3.0 level the word appears in, `1..=7`.
    pub hsk: u8,
    /// Estimated frequency: the rank of the word's rarest character.
    pub rank: u32,
}

/// A word family: the words sharing one character from a tone set.
#[derive(Clone, Debug)]
pub struct WordSet {
    /// The character the family hangs on, a member of a tone set.
    pub key: char,
    /// The syllable the family is about: the tone set's own base, e.g. `"xin"`.
    pub base: String,
    /// That character's own readings, one per tone it has a minimal pair for.
    pub contrast: String,
    /// The words, most useful first.
    pub words: Vec<WordMember>,
}

/// The application's name, version and licence, as the about box shows them.
#[derive(Clone, Debug)]
pub struct AppInfo {
    pub name: String,
    pub version: String,
    pub licence: String,
}


/// The longest word the trainer scores, in syllables: past four, the syllable
/// boundaries of a recording cannot be found from energy alone.
pub const MAX_WORD_SYLLABLES: usize = 4;

/// A word the trainer can score: two to [`MAX_WORD_SYLLABLES`] characters.
pub open spec fn scorable_length(w: Word) -> bool {
    2 <= w.text@.len() <= MAX_WORD_SYLLABLES
}

/// The character a family hangs on: the first member of its tone set.
pub open spec fn family_key(s: ToneSet) -> Option<char> {
    if s.members.len() > 0 {
        Some(s.members@[0].ch)
    } else {
        None
    }
}

/// Family `i` looks at word `q`: the word holds the family's character and
/// has a length the trainer scores.
pub open spec fn touches(contrasts: Seq<ToneSet>, words: Seq<Word>, i: int, q: int) -> bool {
    &&& 0 <= i < contrasts.len()
    &&& 0 <= q < words.len()
    &&& family_key(contrasts[i]) matches Some(k)
    &&& holds(words[q].text@, k)
    &&& scorable_length(words[q])
}

/// Family `i` claims word `q`: it is the first family, and `q` the first such
/// word, to look at a word with that text. A word is drilled once, under the
/// first family that holds it.
pub open spec fn claims(contrasts: Seq<ToneSet>, words: Seq<Word>, i: int, q: int) -> bool {
    &&& touches(contrasts, words, i, q)
    &&& !exists|j: int, p: int|
        ((j < i) || (j == i && p < q)) && #[trigger] touches(contrasts, words, j, p) && words[p].text@
            == words[q].text@
}

/// The words family `i` offers, in the order the words are given: the ones it
/// claims whose reading divides one syllable per character.
pub open spec fn family_words(contrasts: Seq<ToneSet>, words: Seq<Word>, i: int, n: int) -> Seq<int>
    decreases n,
{
    if n <= 0 {
        seq![]
    } else {
        let rest = family_words(contrasts, words, i, n - 1);
        if claims(contrasts, words, i, n - 1) && aligns(words[n - 1].text@, words[n - 1].pinyin@) {
            rest.push(n - 1)
        } else {
            rest
        }
    }
}

/// The member is word `w`, with the tones its reading gives.
pub open spec fn member_is(m: WordMember, w: Word) -> bool {
    let cit = tones_of(w.pinyin@);
    &&& m.text@ == w.text@
    &&& m.reading@ == w.pinyin@
    &&& m.citation@ == cit
    &&& m.spoken@ == spoken_of(w.text@, cit)
    &&& m.meaning@ == w.meaning@
    &&& m.hsk == w.hsk
    &&& m.rank == w.rank
}

/// The order words are offered in within a family: most common first, then by
/// text.
pub open spec fn member_before(a: WordMember, b: WordMember) -> bool {
    a.rank < b.rank || (a.rank == b.rank && text_before(a.text@, b.text@))
}

/// The tone contrast a family is about, e.g. `"妈 tone 1 · 麻 tone 2"`.
pub open spec fn contrast_text(s: ToneSet) -> Seq<char> {
    join(
        Seq::new(
            s.members@.len(),
            |k: int| seq![s.members@[k].ch] + " tone "@ + decimal(s.members@[k].tone as nat),
        ),
        " · "@,
    )
}

/// Which of the first `n` words family `i` looked at, by text: whether `t` is
/// the text of a word some earlier family, or this one before word `n`, looked
/// at.
pub open spec fn looked_at(contrasts: Seq<ToneSet>, words: Seq<Word>, i: int, n: int, t: Seq<char>) -> bool {
    exists|j: int, p: int|
        ((j < i) || (j == i && p < n)) && #[trigger] touches(contrasts, words, j, p) && words[p].text@ == t
}

proof fn lemma_family_words_bounds(contrasts: Seq<ToneSet>, words: Seq<Word>, i: int, n: int)
    ensures
        forall|a: int, b: int| 0 <= a < b < family_words(contrasts, words, i, n).len() ==> family_words(contrasts, words, i, n)[a] < family_words(contrasts, words, i, n)[b],
        forall|k: int| 0 <= k < family_words(contrasts, words, i, n).len() ==> 0 <= #[trigger] family_words(contrasts, words, i, n)[k] < n,
        forall|k: int| 0 <= k < family_words(contrasts, words, i, n).len() ==> claims(contrasts, words, i, #[trigger] family_words(contrasts, words, i, n)[k]),
    decreases n,
{
    if n > 0 {
        lemma_family_words_bounds(contrasts, words, i, n - 1);
        let rest = family_words(contrasts, words, i, n - 1);
        let all = family_words(contrasts, words, i, n);
        assert forall|k: int| 0 <= k < all.len() implies 0 <= #[trigger] all[k] < n && claims(contrasts, words, i, all[k]) by {
            if k < rest.len() {
                assert(all[k] == rest[k]);
            }
        }
        assert forall|a: int, b: int| 0 <= a < b < all.len() implies all[a] < all[b] by {
            if b < rest.len() {
                assert(all[a] == rest[a] && all[b] == rest[b]);
            } else {
                assert(all[a] == rest[a]);
                assert(0 <= rest[a] < n - 1);
            }
        }
    }
}

/// The member for word `w`, when its reading divides one syllable per
/// character.
fn member_for(w: &Word) -> (r: Option<WordMember>)
    ensures
        match r {
            Some(m) => aligns(w.text@, w.pinyin@) && member_is(m, *w),
            None => !aligns(w.text@, w.pinyin@),
        },
{
    let target = match tone_target(w.text.as_str(), w.pinyin.as_str()) {
        Some(t) => t,
        None => return None,
    };
    let ghost cit = tones_of(w.pinyin@);
    let mut citation: Vec<u8> = Vec::new();
    let mut k: usize = 0;
    while k < target.syllables.len()
        invariant
            k <= target.syllables.len(),
            target.syllables.len() == w.text@.len(),
            aligns(w.text@, w.pinyin@),
            cit == tones_of(w.pinyin@),
            forall|j: int| 0 <= j < target.syllables.len() ==> (#[trigger] target.syllables[j]).citation == cit[j],
            citation@ == cit.take(k as int),
        decreases target.syllables.len() - k,
    {
        citation.push(target.syllables[k].citation);
        assert(citation@ =~= cit.take(k + 1));
        k += 1;
    }
    assert(cit.len() == w.text@.len());
    assert(citation@ =~= cit);
    let spoken = target.spoken();
    proof {
        let sp = spoken_of(w.text@, cit);
        assert(sp.len() == cit.len());
        assert(spoken@ =~= sp);
    }
    Some(WordMember {
        text: w.text.clone(),
        reading: w.pinyin.clone(),
        spoken,
        citation,
        meaning: w.meaning.clone(),
        hsk: w.hsk,
        rank: w.rank,
    })
}


/// Whether `text` holds `c`.
fn text_has(text: &str, c: char) -> (r: bool)
    ensures
        r == holds(text@, c),
{
    let v = crate::text::chars_of(text);
    let mut i: usize = 0;
    while i < v.len()
        invariant
            i <= v.len(),
            v@ == text@,
            forall|k: int| 0 <= k < i ==> v@[k] != c,
        decreases v.len() - i,
    {
        if v[i] == c {
            return true;
        }
        i += 1;
    }
    false
}

/// The texts in `seen` are exactly those family `i` and the ones before it
/// looked at, up to word `n`.
pub open spec fn seen_is(seen: Seq<String>, contrasts: Seq<ToneSet>, words: Seq<Word>, i: int, n: int) -> bool {
    forall|t: Seq<char>| (exists|m: int| 0 <= m < seen.len() && (#[trigger] seen[m])@ == t) <==> #[trigger] looked_at(contrasts, words, i, n, t)
}

/// The members family `i` offers, in the order of the words, and the texts it
/// looked at added to `seen`.
fn collect_family(
    contrasts: &[ToneSet],
    words: &[Word],
    i: usize,
    key: char,
    seen: &mut Vec<String>,
) -> (r: Vec<WordMember>)
    requires
        i < contrasts.len(),
        family_key(contrasts@[i as int]) == Some(key),
        seen_is(old(seen)@, contrasts@, words@, i as int, 0),
    ensures
        seen_is(final(seen)@, contrasts@, words@, i as int, words.len() as int),
        r.len() == family_words(contrasts@, words@, i as int, words.len() as int).len(),
        forall|k: int|
            0 <= k < r.len() ==> member_is(
                #[trigger] r@[k],
                words@[family_words(contrasts@, words@, i as int, words.len() as int)[k]],
            ),
{
    let mut members: Vec<WordMember> = Vec::new();
    let mut q: usize = 0;
    while q < words.len()
        invariant
            q <= words.len(),
            i < contrasts.len(),
            family_key(contrasts@[i as int]) == Some(key),
            seen_is(seen@, contrasts@, words@, i as int, q as int),
            members.len() == family_words(contrasts@, words@, i as int, q as int).len(),
            forall|k: int|
                0 <= k < members.len() ==> member_is(
                    #[trigger] members@[k],
                    words@[family_words(contrasts@, words@, i as int, q as int)[k]],
                ),
        decreases words.len() - q,
    {
        let w = &words[q];
        let n = crate::text::chars_of(w.text.as_str()).len();
        let touched = text_has(w.text.as_str(), key) && 2 <= n && n <= MAX_WORD_SYLLABLES;
        assert(touched == touches(contrasts@, words@, i as int, q as int));
        let ghost old_seen = seen@;
        let mut claimed = false;
        if touched {
            let mut found = false;
            let mut m: usize = 0;
            while m < seen.len()
                invariant
                    m <= seen.len(),
                    found == exists|x: int| 0 <= x < m && (#[trigger] seen@[x])@ == w.text@,
                decreases seen.len() - m,
            {
                if str_equal(seen[m].as_str(), w.text.as_str()) {
                    found = true;
                }
                m += 1;
            }
            assert(found == looked_at(contrasts@, words@, i as int, q as int, w.text@));
            if !found {
                let t = w.text.clone();
                seen.push(t);
                claimed = true;
                proof {
                    lemma_push(old_seen, t);
                }
            }
        }
        proof {
            if !touched {
                assert(!claims(contrasts@, words@, i as int, q as int));
            }
            assert(claimed == claims(contrasts@, words@, i as int, q as int));
            assert forall|t: Seq<char>| (exists|m: int| 0 <= m < seen@.len() && (#[trigger] seen@[m])@ == t) <==> #[trigger] looked_at(contrasts@, words@, i as int, q + 1, t) by {
                if looked_at(contrasts@, words@, i as int, q + 1, t) {
                    let (j, p) = choose|j: int, p: int| ((j < i) || (j == i && p < q + 1)) && #[trigger] touches(contrasts@, words@, j, p) && words@[p].text@ == t;
                    if j < i || p < q {
                        assert(looked_at(contrasts@, words@, i as int, q as int, t));
                        let m = choose|m: int| 0 <= m < old_seen.len() && (#[trigger] old_seen[m])@ == t;
                        assert(seen@[m] == old_seen[m]);
                    } else {
                        assert(p == q);
                        if seen@.len() == old_seen.len() {
                            let x = choose|x: int| 0 <= x < old_seen.len() && (#[trigger] old_seen[x])@ == w.text@;
                        } else {
                            assert(seen@[old_seen.len() as int]@ == t);
                        }
                    }
                }
                if exists|m: int| 0 <= m < seen@.len() && (#[trigger] seen@[m])@ == t {
                    let m = choose|m: int| 0 <= m < seen@.len() && (#[trigger] seen@[m])@ == t;
                    if m < old_seen.len() {
                        assert(seen@[m] == old_seen[m]);
                        assert(looked_at(contrasts@, words@, i as int, q as int, t));
                        let (j, p) = choose|j: int, p: int| ((j < i) || (j == i && p < q)) && #[trigger] touches(contrasts@, words@, j, p) && words@[p].text@ == t;
                        assert(((j < i) || (j == i && p < q + 1)) && touches(contrasts@, words@, j, p) && words@[p].text@ == t);
                    } else {
                        assert(touches(contrasts@, words@, i as int, q as int));
                    }
                }
            }
        }
        if claimed {
            match member_for(w) {
                Some(member) => {
                    let ghost before = members@;
                    members.push(member);
                    proof {
                        lemma_push(before, member);
                        let fw = family_words(contrasts@, words@, i as int, q + 1);
                        assert(fw == family_words(contrasts@, words@, i as int, q as int).push(q as int));
                        assert forall|k: int| 0 <= k < members.len() implies member_is(#[trigger] members@[k], words@[fw[k]]) by {
                            if k < before.len() {
                                assert(members@[k] == before[k]);
                            }
                        }
                    }
                },
                None => {
                    assert(family_words(contrasts@, words@, i as int, q + 1) == family_words(contrasts@, words@, i as int, q as int));
                },
            }
        } else {
            assert(family_words(contrasts@, words@, i as int, q + 1) == family_words(contrasts@, words@, i as int, q as int));
        }
        q += 1;
    }
    members
}


proof fn lemma_member_order(a: WordMember, b: WordMember, c: WordMember)
    ensures
        !member_before(a, a),
        a.text@ != b.text@ ==> member_before(a, b) || member_before(b, a),
        !(member_before(a, b) && member_before(b, a)),
        member_before(a, b) && member_before(b, c) ==> member_before(a, c),
{
    crate::text::lemma_text_before_irreflexive(a.text@);
    crate::text::lemma_text_before_total(a.text@, b.text@);
    if member_before(a, b) && member_before(b, c) && a.rank == b.rank && b.rank == c.rank {
        crate::text::lemma_text_before_transitive(a.text@, b.text@, c.text@);
    }
}

fn member_comes_before(a: &WordMember, b: &WordMember) -> (r: bool)
    ensures
        r == member_before(*a, *b),
{
    a.rank < b.rank || (a.rank == b.rank && str_before(a.text.as_str(), b.text.as_str()))
}

/// `x` is one of `s`.
pub open spec fn among(x: WordMember, s: Seq<WordMember>) -> bool {
    exists|k: int| 0 <= k < s.len() && s[k] == x
}

/// The members most common first, then by text.
fn sort_members(members: Vec<WordMember>) -> (r: Vec<WordMember>)
    requires
        forall|j: int, k: int| 0 <= j < k < members.len() ==> members@[j].text@ != members@[k].text@,
    ensures
        r.len() == members.len(),
        forall|j: int, k: int| 0 <= j < k < r.len() ==> member_before(r@[j], r@[k]),
        forall|j: int| 0 <= j < members.len() ==> among(#[trigger] members@[j], r@),
        forall|k: int| 0 <= k < r.len() ==> among(#[trigger] r@[k], members@),
{
    let ghost orig = members@;
    let mut rest = members;
    let mut out: Vec<WordMember> = Vec::new();
    while rest.len() > 0
        invariant
            rest@ == orig.take(rest.len() as int),
            rest.len() + out.len() == orig.len(),
            forall|j: int, k: int| 0 <= j < k < orig.len() ==> orig[j].text@ != orig[k].text@,
            forall|j: int, k: int| 0 <= j < k < out.len() ==> member_before(out@[j], out@[k]),
            forall|j: int| rest.len() <= j < orig.len() ==> among(#[trigger] orig[j], out@),
            forall|k: int| 0 <= k < out.len() ==> among(#[trigger] out@[k], orig.skip(rest.len() as int)),
        decreases rest.len(),
    {
        let ghost m = rest.len() - 1;
        let x = rest.pop().unwrap();
        proof {
            assert(x == orig[m]);
            assert(rest@ =~= orig.take(m));
        }
        let mut p: usize = 0;
        while p < out.len() && !member_comes_before(&x, &out[p])
            invariant
                p <= out.len(),
                forall|i: int| 0 <= i < p ==> !member_before(x, out@[i]),
            decreases out.len() - p,
        {
            p += 1;
        }
        let ghost before = out@;
        proof {
            assert forall|i: int| 0 <= i < before.len() implies before[i].text@ != x.text@ by {
                assert(among(before[i], orig.skip(m + 1)));
                let j = choose|j: int| 0 <= j < orig.skip(m + 1).len() && #[trigger] orig.skip(m + 1)[j] == before[i];
                assert(orig.skip(m + 1)[j] == orig[m + 1 + j]);
            }
        }
        out.insert(p, x);
        proof {
            assert(out@[p as int] == x);
            assert forall|j: int, k: int| 0 <= j < k < out.len() implies member_before(out@[j], out@[k]) by {
                if k < p {
                    assert(out@[j] == before[j] && out@[k] == before[k]);
                } else if k == p {
                    assert(out@[j] == before[j]);
                    lemma_member_order(before[j], x, x);
                } else if j == p {
                    assert(out@[k] == before[k - 1]);
                    assert(member_before(x, before[p as int]));
                    if k - 1 > p {
                        assert(member_before(before[p as int], before[k - 1]));
                        lemma_member_order(x, before[p as int], before[k - 1]);
                    }
                } else if j < p {
                    assert(out@[j] == before[j] && out@[k] == before[k - 1]);
                } else {
                    assert(out@[j] == before[j - 1] && out@[k] == before[k - 1]);
                }
            }
            assert forall|j: int| m <= j < orig.len() implies among(#[trigger] orig[j], out@) by {
                if j > m {
                    assert(among(orig[j], before));
                    let k = choose|k: int| 0 <= k < before.len() && before[k] == orig[j];
                    if k < p {
                        assert(out@[k] == before[k]);
                    } else {
                        assert(out@[k + 1] == before[k]);
                    }
                } else {
                    assert(out@[p as int] == orig[j]);
                }
            }
            assert forall|k: int| 0 <= k < out.len() implies among(#[trigger] out@[k], orig.skip(m)) by {
                if k == p {
                    assert(orig.skip(m)[0] == orig[m]);
                } else {
                    let b = if k < p {
                        before[k]
                    } else {
                        before[k - 1]
                    };
                    assert(out@[k] == b);
                    assert(among(b, orig.skip(m + 1)));
                    let j = choose|j: int| 0 <= j < orig.skip(m + 1).len() && #[trigger] orig.skip(m + 1)[j] == b;
                    assert(orig.skip(m)[j + 1] == orig.skip(m + 1)[j]);
                }
            }
        }
    }
    proof {
        assert(orig.skip(0) =~= orig);
    }
    out
}

/// The tone contrast a family is about.
fn contrast_of(set: &ToneSet) -> (r: String)
    ensures
        r@ == contrast_text(*set),
{
    let mut pieces: Vec<String> = Vec::new();
    let mut k: usize = 0;
    while k < set.members.len()
        invariant
            k <= set.members.len(),
            views(pieces@) == Seq::new(
                k as nat,
                |j: int| seq![set.members@[j].ch] + " tone "@ + decimal(set.members@[j].tone as nat),
            ),
        decreases set.members.len() - k,
    {
        let mut piece = String::new();
        push_char(&mut piece, set.members[k].ch);
        append_str(&mut piece, " tone ");
        append_str(&mut piece, decimal_string(set.members[k].tone as u64).as_str());
        let ghost before = pieces@;
        pieces.push(piece);
        proof {
            crate::text::lemma_views_push(before, piece);
            assert(views(pieces@) =~= Seq::new(
                (k + 1) as nat,
                |j: int| seq![set.members@[j].ch] + " tone "@ + decimal(set.members@[j].tone as nat),
            ));
        }
        k += 1;
    }
    crate::text::join_strings(&pieces, " · ")
}


/// The families among the first `n` that offer at least one word, in order.
pub open spec fn offered(contrasts: Seq<ToneSet>, words: Seq<Word>, n: int) -> Seq<int>
    decreases n,
{
    if n <= 0 {
        seq![]
    } else {
        let rest = offered(contrasts, words, n - 1);
        if family_key(contrasts[n - 1]) is Some && family_words(contrasts, words, n - 1, words.len() as int).len() > 0 {
            rest.push(n - 1)
        } else {
            rest
        }
    }
}

/// `set` is the family of tone set `i`: its character, syllable and contrast,
/// and the words it offers, most common first.
pub open spec fn family_is(set: WordSet, contrasts: Seq<ToneSet>, words: Seq<Word>, i: int) -> bool {
    let fw = family_words(contrasts, words, i, words.len() as int);
    &&& 0 <= i < contrasts.len()
    &&& family_key(contrasts[i]) == Some(set.key)
    &&& set.base@ == contrasts[i].base@
    &&& set.contrast@ == contrast_text(contrasts[i])
    &&& set.words.len() == fw.len()
    &&& forall|j: int, k: int| 0 <= j < k < set.words.len() ==> member_before(set.words@[j], set.words@[k])
    &&& forall|k: int| 0 <= k < set.words.len() ==> from_one_of(#[trigger] set.words@[k], words, fw)
    &&& forall|x: int| 0 <= x < fw.len() ==> has_member(set.words@, #[trigger] words[fw[x]])
}

/// The member is one of the words `fw` names.
pub open spec fn from_one_of(m: WordMember, words: Seq<Word>, fw: Seq<int>) -> bool {
    exists|x: int| 0 <= x < fw.len() && member_is(m, words[fw[x]])
}

/// Some member is the word `w`.
pub open spec fn has_member(ms: Seq<WordMember>, w: Word) -> bool {
    exists|k: int| 0 <= k < ms.len() && member_is(ms[k], w)
}

/// How many families are offered at most: `limit`, or one when it is zero,
/// since a family is offered before the count is checked.
pub open spec fn family_cap(limit: usize) -> int {
    if limit == 0 {
        1
    } else {
        limit as int
    }
}

proof fn lemma_offered_prefix(contrasts: Seq<ToneSet>, words: Seq<Word>, i: int, n: int)
    requires
        0 <= i <= n,
    ensures
        offered(contrasts, words, i).len() <= offered(contrasts, words, n).len(),
        offered(contrasts, words, n).take(offered(contrasts, words, i).len() as int) == offered(contrasts, words, i),
    decreases n - i,
{
    if i < n {
        lemma_offered_prefix(contrasts, words, i, n - 1);
        let a = offered(contrasts, words, i);
        let b = offered(contrasts, words, n - 1);
        let c = offered(contrasts, words, n);
        assert(c.take(b.len() as int) =~= b);
        assert(c.take(a.len() as int) =~= b.take(a.len() as int));
    } else {
        assert(offered(contrasts, words, n).take(offered(contrasts, words, n).len() as int) =~= offered(contrasts, words, n));
    }
}

/// The family of tone set `i`, from the members it offers in word order.
fn family_from(
    contrasts: &[ToneSet],
    words: &[Word],
    i: usize,
    key: char,
    members: Vec<WordMember>,
) -> (r: WordSet)
    requires
        i < contrasts.len(),
        family_key(contrasts@[i as int]) == Some(key),
        members.len() == family_words(contrasts@, words@, i as int, words.len() as int).len(),
        forall|k: int|
            0 <= k < members.len() ==> member_is(
                #[trigger] members@[k],
                words@[family_words(contrasts@, words@, i as int, words.len() as int)[k]],
            ),
    ensures
        family_is(r, contrasts@, words@, i as int),
{
    let ghost fw = family_words(contrasts@, words@, i as int, words.len() as int);
    proof {
        lemma_family_words_bounds(contrasts@, words@, i as int, words.len() as int);
        assert forall|j: int, k: int| 0 <= j < k < members.len() implies members@[j].text@ != members@[k].text@ by {
            assert(member_is(members@[j], words@[fw[j]]));
            assert(member_is(members@[k], words@[fw[k]]));
            assert(fw[j] < fw[k]);
            assert(claims(contrasts@, words@, i as int, fw[k]));
            if words@[fw[j]].text@ == words@[fw[k]].text@ {
                assert(claims(contrasts@, words@, i as int, fw[j]));
                assert(touches(contrasts@, words@, i as int, fw[j]));
            }
        }
    }
    let ghost unsorted = members@;
    let sorted = sort_members(members);
    let set = WordSet {
        key,
        base: contrasts[i].base.clone(),
        contrast: contrast_of(&contrasts[i]),
        words: sorted,
    };
    proof {
        assert forall|k: int| 0 <= k < set.words.len() implies from_one_of(#[trigger] set.words@[k], words@, fw) by {
            assert(among(set.words@[k], unsorted));
            let x = choose|x: int| 0 <= x < unsorted.len() && unsorted[x] == set.words@[k];
            assert(member_is(unsorted[x], words@[fw[x]]));
            assert(member_is(set.words@[k], words@[fw[x]]));
        }
        assert forall|x: int| 0 <= x < fw.len() implies has_member(set.words@, #[trigger] words@[fw[x]]) by {
            assert(member_is(unsorted[x], words@[fw[x]]));
            assert(among(unsorted[x], set.words@));
            let k = choose|k: int| 0 <= k < set.words@.len() && set.words@[k] == unsorted[x];
            assert(member_is(set.words@[k], words@[fw[x]]));
        }
    }
    set
}

/// Word families built on the characters that differ only in tone.
///
/// `contrasts` are the tone sets, most useful first, and `words` the
/// dictionary's words, most useful first. A family hangs on the first member
/// of its set and holds every word containing that character that the trainer
/// can score: two to [`MAX_WORD_SYLLABLES`] syllables, with a reading that
/// divides one syllable per character. A word appears once, under the first
/// family that holds it, and a family with no words is not offered. Words come
/// most common first; at most `limit` families are offered, and never none
/// for want of a limit.
pub fn word_sets(contrasts: &[ToneSet], words: &[Word], limit: usize) -> (r: Vec<WordSet>)
    ensures
        ({
            let picked = offered(contrasts@, words@, contrasts.len() as int);
            &&& r.len() == if family_cap(limit) < picked.len() {
                family_cap(limit)
            } else {
                picked.len() as int
            }
            &&& forall|k: int| 0 <= k < r.len() ==> family_is(#[trigger] r@[k], contrasts@, words@, picked[k])
        }),
{
    let cap: usize = if limit == 0 {
        1
    } else {
        limit
    };
    let mut seen: Vec<String> = Vec::new();
    let mut sets: Vec<WordSet> = Vec::new();
    let mut i: usize = 0;
    while i < contrasts.len() && sets.len() < cap
        invariant
            i <= contrasts.len(),
            cap == family_cap(limit),
            seen_is(seen@, contrasts@, words@, i as int, 0),
            sets.len() == offered(contrasts@, words@, i as int).len(),
            sets.len() <= cap,
            forall|k: int| 0 <= k < sets.len() ==> family_is(#[trigger] sets@[k], contrasts@, words@, offered(contrasts@, words@, i as int)[k]),
        decreases contrasts.len() - i,
    {
        let ghost before = offered(contrasts@, words@, i as int);
        if contrasts[i].members.len() == 0 {
            proof {
                assert forall|t: Seq<char>| looked_at(contrasts@, words@, i as int, words.len() as int, t) == looked_at(contrasts@, words@, i + 1, 0, t) by {
                }
                assert forall|t: Seq<char>| #[trigger] looked_at(contrasts@, words@, i + 1, 0, t) == looked_at(contrasts@, words@, i as int, 0, t) by {
                    if looked_at(contrasts@, words@, i + 1, 0, t) {
                        let (j, p) = choose|j: int, p: int| ((j < i + 1) || (j == i + 1 && p < 0)) && #[trigger] touches(contrasts@, words@, j, p) && words@[p].text@ == t;
                        assert(j != i);
                    }
                }
                assert(offered(contrasts@, words@, i + 1) == before);
            }
            i += 1;
        } else {
            let key = contrasts[i].members[0].ch;
            let members = collect_family(contrasts, words, i, key, &mut seen);
            proof {
                let fw = family_words(contrasts@, words@, i as int, words.len() as int);
                lemma_family_words_bounds(contrasts@, words@, i as int, words.len() as int);
                assert forall|t: Seq<char>| #[trigger] looked_at(contrasts@, words@, i + 1, 0, t) == looked_at(contrasts@, words@, i as int, words.len() as int, t) by {
                    if looked_at(contrasts@, words@, i + 1, 0, t) {
                        let (j, p) = choose|j: int, p: int| ((j < i + 1) || (j == i + 1 && p < 0)) && #[trigger] touches(contrasts@, words@, j, p) && words@[p].text@ == t;
                        if j == i {
                            assert(p < words.len());
                        }
                    }
                }
            }
            if members.len() > 0 {
                let set = family_from(contrasts, words, i, key, members);
                let ghost old_sets = sets@;
                sets.push(set);
                proof {
                    lemma_push(old_sets, set);
                    assert(offered(contrasts@, words@, i + 1) == before.push(i as int));
                    assert forall|k: int| 0 <= k < sets.len() implies family_is(#[trigger] sets@[k], contrasts@, words@, offered(contrasts@, words@, i + 1)[k]) by {
                        if k < old_sets.len() {
                            assert(sets@[k] == old_sets[k]);
                        }
                    }
                }
            } else {
                assert(offered(contrasts@, words@, i + 1) == before);
            }
            i += 1;
        }
    }
    proof {
        lemma_offered_prefix(contrasts@, words@, i as int, contrasts.len() as int);
        let all = offered(contrasts@, words@, contrasts.len() as int);
        let part = offered(contrasts@, words@, i as int);
        if i < contrasts.len() {
            assert(sets.len() >= cap);
            assert(forall|k: int| 0 <= k < part.len() ==> all[k] == part[k]);
        } else {
            assert(part == all);
        }
    }
    sets
}


/// A word is drilled once: no two families, and no two places in one family,
/// claim words with the same text.
pub proof fn law_a_word_is_claimed_once(contrasts: Seq<ToneSet>, words: Seq<Word>, i: int, q: int, j: int, p: int)
    requires
        claims(contrasts, words, i, q),
        claims(contrasts, words, j, p),
        words[q].text@ == words[p].text@,
    ensures
        i == j && q == p,
{
    if (j < i) || (j == i && p < q) {
        assert(touches(contrasts, words, j, p));
    } else if (i < j) || (i == j && q < p) {
        assert(touches(contrasts, words, i, q));
    }
}

} // verus!
