//! The dataset as the lookups read it: its characters in frequency order, its
//! words in the order a learner meets them, one entry per word, and the keys
//! every search compares against, computed once.

use vstd::prelude::*;

use crate::dataset::{
    by_rank, character_key, character_ranks, count_characters, count_words, find_word, folded,
    known_hint, lookup_text, lowercase, match_count, search_characters, search_words,
    spec_rank_key, rank_key, runs, word_for, word_key, word_ranks, words_per_level, CharacterHint,
    CharacterKey, TextLookup, Word, WordKey, composed, hint_is, is_contrast, set_before, set_is,
    tone_sets, RankedCharacter, ToneSet,
};
use crate::prepare::{count_of, levels_of};
use crate::order::{ascending, below, sort_indices, strict_order};
use crate::text::{
    lemma_text_before_irreflexive, lemma_text_before_total, lemma_text_before_transitive,
    str_before, str_equal, text_before, chars_of, copy_strings, lemma_push, trim, trimmed,
    trimmed_chars, views,
};

verus! {

/// One character of the dataset, as looking up, searching and teaching read
/// it. Its stroke geometry belongs to the grader; what these need of it is
/// only whether there is any.
#[derive(Clone, Debug, PartialEq)]
pub struct Character {
    pub ch: char,
    /// Frequency rank (1 = most common). `0` means the character is not in
    /// the frequency list.
    pub rank: u32,
    /// HSK level 1..=7, or `0` when the character is not in the HSK lists.
    pub hsk: u8,
    /// Number of strokes, as listed upstream.
    pub stroke_count: u8,
    /// Kangxi radical, or `'\0'` when unknown.
    pub radical: char,
    /// Every reading, most common first.
    pub pinyin: Vec<String>,
    pub definition: String,
    /// Short mnemonic hint, when one exists.
    pub etymology: String,
    /// Whether there are stroke centre-lines to grade an attempt against.
    pub has_medians: bool,
}

impl Character {
    /// It has geometry and a rank.
    pub open spec fn teachable(&self) -> bool {
        self.rank > 0 && self.has_medians
    }

    /// True when this character can be taught: it has geometry and a rank.
    pub fn is_teachable(&self) -> (r: bool)
        ensures
            r == self.teachable(),
    {
        self.rank > 0 && self.has_medians
    }
}

// ---------------------------------------------------------------------------
// The orders
// ---------------------------------------------------------------------------

/// `a` comes before `b` in the dataset: more common first, unranked last, then
/// by codepoint.
pub open spec fn character_before(a: Character, b: Character) -> bool {
    spec_rank_key(a.rank) < spec_rank_key(b.rank) || (spec_rank_key(a.rank) == spec_rank_key(
        b.rank,
    ) && (a.ch as u32) < (b.ch as u32))
}

/// `a` and `b` take the same place in the dataset's order.
pub open spec fn character_level(a: Character, b: Character) -> bool {
    spec_rank_key(a.rank) == spec_rank_key(b.rank) && a.ch == b.ch
}

/// The order on the positions of `cs` that the dataset sorts by: the
/// characters' order, and where two characters share a place, their positions.
pub open spec fn character_precedes(cs: Seq<Character>, i: int, j: int) -> bool {
    character_before(cs[i], cs[j]) || (character_level(cs[i], cs[j]) && i < j)
}

/// [`character_precedes`] as a relation.
pub open spec fn character_order_of(cs: Seq<Character>) -> spec_fn(int, int) -> bool {
    |i: int, j: int| character_precedes(cs, i, j)
}

/// `a` comes before `b` among words: lower HSK level first, then more common,
/// unknown rank last, then by text.
pub open spec fn word_before(a: Word, b: Word) -> bool {
    a.hsk < b.hsk || (a.hsk == b.hsk && (spec_rank_key(a.rank) < spec_rank_key(b.rank) || (
    spec_rank_key(a.rank) == spec_rank_key(b.rank) && text_before(a.text@, b.text@))))
}

/// `a` and `b` take the same place among words.
pub open spec fn word_level(a: Word, b: Word) -> bool {
    a.hsk == b.hsk && spec_rank_key(a.rank) == spec_rank_key(b.rank) && a.text@ == b.text@
}

/// The order on the positions of `ws` that words are sorted by: the words'
/// order, and where two share a place, their positions.
pub open spec fn word_precedes(ws: Seq<Word>, i: int, j: int) -> bool {
    word_before(ws[i], ws[j]) || (word_level(ws[i], ws[j]) && i < j)
}

/// [`word_precedes`] as a relation.
pub open spec fn word_order_of(ws: Seq<Word>) -> spec_fn(int, int) -> bool {
    |i: int, j: int| word_precedes(ws, i, j)
}

/// The positions of `ws` by text first, and within one text by
/// [`word_precedes`]: each text's words together, its most useful first.
pub open spec fn text_precedes(ws: Seq<Word>, i: int, j: int) -> bool {
    text_before(ws[i].text@, ws[j].text@) || (ws[i].text@ == ws[j].text@ && word_precedes(ws, i, j))
}

/// [`text_precedes`] as a relation.
pub open spec fn text_order_of(ws: Seq<Word>) -> spec_fn(int, int) -> bool {
    |i: int, j: int| text_precedes(ws, i, j)
}

/// The word at `i` comes first of all the words with its text: it is the one
/// a dataset keeps.
pub open spec fn kept(ws: Seq<Word>, i: int) -> bool {
    forall|j: int| 0 <= j < ws.len() && j != i && ws[j].text@ == ws[i].text@ ==> word_precedes(ws, i, j)
}

/// `w` is the word at some kept position of `ws`.
pub open spec fn kept_word(ws: Seq<Word>, w: Word) -> bool {
    exists|i: int| 0 <= i < ws.len() && kept(ws, i) && ws[i] == w
}

/// `r` is what a dataset keeps of the words `ws`: one word per text, the most
/// useful of them, in the order words are kept in.
pub open spec fn words_kept(ws: Seq<Word>, r: Seq<Word>) -> bool {
    &&& forall|k: int, l: int| 0 <= k < l < r.len() ==> word_before(#[trigger] r[k], #[trigger] r[l])
    &&& forall|k: int| 0 <= k < r.len() ==> kept_word(ws, #[trigger] r[k])
    &&& forall|i: int| 0 <= i < ws.len() && #[trigger] kept(ws, i) ==> r.contains(ws[i])
}

/// `r` is `items` taken at the positions `p`, in that order.
pub open spec fn taken_at<T>(items: Seq<T>, p: Seq<usize>, r: Seq<T>) -> bool {
    &&& r.len() == p.len()
    &&& forall|k: int| 0 <= k < r.len() ==> r[k] == items[#[trigger] p[k] as int]
}

/// `r` is `cs` sorted into the dataset's order, characters that share a place
/// keeping the order they came in.
pub open spec fn arranged(cs: Seq<Character>, p: Seq<usize>, r: Seq<Character>) -> bool {
    &&& p.len() == cs.len()
    &&& ascending(p, character_order_of(cs))
    &&& below(p, cs.len() as int)
    &&& forall|x: usize| x < cs.len() ==> #[trigger] p.contains(x)
    &&& taken_at(cs, p, r)
}

/// Some arrangement of `cs` in the dataset's order gives `r`.
pub open spec fn characters_sorted(cs: Seq<Character>, r: Seq<Character>) -> bool {
    exists|p: Seq<usize>| #[trigger] arranged(cs, p, r)
}

proof fn lemma_character_order(cs: Seq<Character>)
    ensures
        strict_order(character_order_of(cs), cs.len() as int),
{
    let prec = character_order_of(cs);
    let n = cs.len() as int;
    assert forall|i: int, j: int| 0 <= i < n && 0 <= j < n && i != j implies #[trigger] prec(i, j)
        || prec(j, i) by {
        if !character_before(cs[i], cs[j]) && !character_before(cs[j], cs[i]) {
            assert((cs[i].ch as u32) == (cs[j].ch as u32));
        }
    }
}

proof fn lemma_word_order(ws: Seq<Word>)
    ensures
        strict_order(word_order_of(ws), ws.len() as int),
{
    let prec = word_order_of(ws);
    let n = ws.len() as int;
    assert forall|i: int| 0 <= i < n implies !#[trigger] prec(i, i) by {
        lemma_text_before_irreflexive(ws[i].text@);
    }
    assert forall|i: int, j: int| 0 <= i < n && 0 <= j < n && i != j implies #[trigger] prec(i, j)
        || prec(j, i) by {
        lemma_text_before_total(ws[i].text@, ws[j].text@);
    }
    assert forall|i: int, j: int, k: int|
        0 <= i < n && 0 <= j < n && 0 <= k < n && #[trigger] prec(i, j) && #[trigger] prec(j, k)
            implies prec(i, k) by {
        lemma_text_before_total(ws[i].text@, ws[j].text@);
        lemma_text_before_total(ws[j].text@, ws[k].text@);
        lemma_text_before_total(ws[i].text@, ws[k].text@);
        if text_before(ws[i].text@, ws[j].text@) && text_before(ws[j].text@, ws[k].text@) {
            lemma_text_before_transitive(ws[i].text@, ws[j].text@, ws[k].text@);
        }
    }
}

proof fn lemma_text_order(ws: Seq<Word>)
    ensures
        strict_order(text_order_of(ws), ws.len() as int),
{
    let prec = text_order_of(ws);
    let n = ws.len() as int;
    lemma_word_order(ws);
    assert forall|i: int| 0 <= i < n implies !#[trigger] prec(i, i) by {
        lemma_text_before_irreflexive(ws[i].text@);
        assert(!word_order_of(ws)(i, i));
    }
    assert forall|i: int, j: int| 0 <= i < n && 0 <= j < n && i != j implies #[trigger] prec(i, j)
        || prec(j, i) by {
        lemma_text_before_total(ws[i].text@, ws[j].text@);
        assert(word_order_of(ws)(i, j) || word_order_of(ws)(j, i));
    }
    assert forall|i: int, j: int, k: int|
        0 <= i < n && 0 <= j < n && 0 <= k < n && #[trigger] prec(i, j) && #[trigger] prec(j, k)
            implies prec(i, k) by {
        lemma_text_before_total(ws[i].text@, ws[j].text@);
        lemma_text_before_total(ws[j].text@, ws[k].text@);
        lemma_text_before_total(ws[i].text@, ws[k].text@);
        if text_before(ws[i].text@, ws[j].text@) && text_before(ws[j].text@, ws[k].text@) {
            lemma_text_before_transitive(ws[i].text@, ws[j].text@, ws[k].text@);
        }
        if ws[i].text@ == ws[j].text@ && ws[j].text@ == ws[k].text@ {
            assert(word_order_of(ws)(i, j) && word_order_of(ws)(j, k));
            assert(word_order_of(ws)(i, k));
        }
    }
}

fn character_first(cs: &[Character], i: usize, j: usize) -> (r: bool)
    requires
        i < cs.len(),
        j < cs.len(),
    ensures
        r == character_precedes(cs@, i as int, j as int),
{
    let a = rank_key(cs[i].rank);
    let b = rank_key(cs[j].rank);
    let x = cs[i].ch as u32;
    let y = cs[j].ch as u32;
    a < b || (a == b && (x < y || (x == y && i < j)))
}

fn word_first(ws: &[Word], i: usize, j: usize) -> (r: bool)
    requires
        i < ws.len(),
        j < ws.len(),
    ensures
        r == word_precedes(ws@, i as int, j as int),
{
    let a = &ws[i];
    let b = &ws[j];
    if a.hsk != b.hsk {
        return a.hsk < b.hsk;
    }
    let x = rank_key(a.rank);
    let y = rank_key(b.rank);
    if x != y {
        return x < y;
    }
    if str_equal(a.text.as_str(), b.text.as_str()) {
        proof {
            lemma_text_before_irreflexive(a.text@);
        }
        i < j
    } else {
        str_before(a.text.as_str(), b.text.as_str())
    }
}

fn text_first(ws: &[Word], i: usize, j: usize) -> (r: bool)
    requires
        i < ws.len(),
        j < ws.len(),
    ensures
        r == text_precedes(ws@, i as int, j as int),
{
    if str_equal(ws[i].text.as_str(), ws[j].text.as_str()) {
        proof {
            lemma_text_before_irreflexive(ws@[i as int].text@);
        }
        word_first(ws, i, j)
    } else {
        str_before(ws[i].text.as_str(), ws[j].text.as_str())
    }
}

/// The order the dataset keeps characters in, as positions in `chars`: most
/// common first, unranked last, then by codepoint; characters that share a
/// place keep the order they were given in. Every position comes once.
pub fn character_order(chars: &[Character]) -> (r: Vec<usize>)
    ensures
        r.len() == chars.len(),
        ascending(r@, character_order_of(chars@)),
        below(r@, chars.len() as int),
        forall|x: usize| x < chars.len() ==> #[trigger] r@.contains(x),
{
    let ghost prec = character_order_of(chars@);
    let earlier = |i: usize, j: usize| -> (r: bool)
        requires
            i < chars.len(),
            j < chars.len(),
        ensures
            r == character_precedes(chars@, i as int, j as int),
        { character_first(chars, i, j) };
    proof {
        lemma_character_order(chars@);
        assert forall|i: usize, j: usize, r: bool|
            i < chars.len() && j < chars.len() && #[trigger] earlier.ensures((i, j), r) implies r
            == prec(i as int, j as int) by {}
    }
    sort_indices(chars.len(), &earlier, Ghost(prec))
}

/// The items at the distinct positions `p`, in that order; the rest are
/// dropped.
fn take_at<T>(items: Vec<T>, p: &Vec<usize>) -> (r: Vec<T>)
    requires
        below(p@, items.len() as int),
        forall|a: int, b: int| 0 <= a < b < p.len() ==> p@[a] != p@[b],
    ensures
        taken_at(items@, p@, r@),
{
    let ghost orig = items@;
    let n = items.len();
    let mut rest = items;
    let mut slots: Vec<Option<T>> = Vec::new();
    while rest.len() > 0
        invariant
            n == orig.len(),
            rest@ == orig.take(rest.len() as int),
            slots.len() + rest.len() == n,
            forall|s: int| 0 <= s < slots.len() ==> #[trigger] slots@[s] == Some(orig[n - 1 - s]),
        decreases rest.len(),
    {
        let ghost m = rest.len() - 1;
        let x = rest.pop().unwrap();
        proof {
            assert(x == orig[m]);
            assert(rest@ =~= orig.take(m));
        }
        slots.push(Some(x));
    }
    let mut out: Vec<T> = Vec::new();
    let mut k: usize = 0;
    while k < p.len()
        invariant
            n == orig.len(),
            slots.len() == n,
            k <= p.len(),
            below(p@, n as int),
            forall|a: int, b: int| 0 <= a < b < p.len() ==> p@[a] != p@[b],
            forall|i: int|
                0 <= i < n ==> #[trigger] slots@[n - 1 - i] == if p@.take(k as int).contains(
                    i as usize,
                ) {
                    None
                } else {
                    Some(orig[i])
                },
            out.len() == k,
            forall|j: int| 0 <= j < k ==> out@[j] == orig[#[trigger] p@[j] as int],
        decreases p.len() - k,
    {
        let i = p[k];
        proof {
            assert(p@[k as int] < n);
            let t0 = p@.take(k as int);
            if t0.contains(i) {
                let a = choose|a: int| 0 <= a < t0.len() && t0[a] == i;
                assert(p@[a] == p@[k as int]);
            }
            assert(slots@[n - 1 - i as int] == Some(orig[i as int]));
        }
        let x = slots[n - 1 - i].take();
        proof {
            let t0 = p@.take(k as int);
            let t1 = p@.take(k + 1);
            assert(t1 =~= t0.push(i));
            assert forall|j: int| 0 <= j < n implies #[trigger] slots@[n - 1 - j] == if t1.contains(
                j as usize,
            ) {
                None
            } else {
                Some(orig[j])
            } by {
                if j == i {
                    assert(t1[k as int] == i);
                } else {
                    if t0.contains(j as usize) {
                        let a = choose|a: int| 0 <= a < t0.len() && t0[a] == j as usize;
                        assert(t1[a] == j as usize);
                    }
                    if t1.contains(j as usize) {
                        let a = choose|a: int| 0 <= a < t1.len() && t1[a] == j as usize;
                        assert(a != k);
                        assert(t0[a] == j as usize);
                    }
                }
            }
        }
        if let Some(v) = x {
            out.push(v);
        }
        k += 1;
    }
    out
}

/// The first word of each run of one text, in the positions sorted by text,
/// is the word kept for that text, and no other is.
proof fn lemma_run_start(ws: Seq<Word>, t: Seq<usize>, k: int)
    requires
        t.len() == ws.len(),
        ascending(t, text_order_of(ws)),
        below(t, ws.len() as int),
        forall|x: usize| x < ws.len() ==> #[trigger] t.contains(x),
        0 <= k < t.len(),
        ws.len() <= usize::MAX,
    ensures
        kept(ws, t[k] as int) <==> (k == 0 || ws[t[k - 1] as int].text@ != ws[t[k] as int].text@),
{
    lemma_text_order(ws);
    lemma_word_order(ws);
    let n = ws.len() as int;
    let i = t[k] as int;
    let wp = word_order_of(ws);
    let tp = text_order_of(ws);
    assert(0 <= i < n);
    if k == 0 || ws[t[k - 1] as int].text@ != ws[i].text@ {
        assert forall|j: int| 0 <= j < n && j != i && ws[j].text@ == ws[i].text@ implies word_precedes(
            ws,
            i,
            j,
        ) by {
            assert(t.contains(j as usize));
            let m = choose|m: int| 0 <= m < t.len() && t[m] == j as usize;
            assert(t[m] as int == j);
            assert(m != k);
            if m < k {
                let p = t[k - 1] as int;
                assert(0 <= p < n);
                assert(tp(p, i));
                if m < k - 1 {
                    assert(tp(j, p));
                }
                lemma_text_before_total(ws[p].text@, ws[i].text@);
                lemma_text_before_total(ws[j].text@, ws[p].text@);
                assert(false);
            } else {
                assert(tp(i, j));
                lemma_text_before_irreflexive(ws[i].text@);
            }
        }
    } else {
        let j = t[k - 1] as int;
        assert(0 <= j < n);
        assert(tp(j, i));
        lemma_text_before_irreflexive(ws[i].text@);
        assert(wp(j, i));
        assert(j != i) by {
            assert(!tp(i, i));
        }
        assert(!wp(i, j)) by {
            if wp(i, j) {
                assert(wp(i, i));
            }
        }
    }
}

/// Every word kept once: the first of each text in the word order, the words
/// in that order.
fn keep_words(words: Vec<Word>) -> (r: Vec<Word>)
    ensures
        words_kept(words@, r@),
{
    let n = words.len();
    let ghost ws = words@;
    let ghost wp = word_order_of(ws);
    let ghost tp = text_order_of(ws);
    proof {
        lemma_word_order(ws);
        lemma_text_order(ws);
    }
    let order = {
        let by_word = |i: usize, j: usize| -> (r: bool)
            requires
                i < words.len(),
                j < words.len(),
            ensures
                r == word_precedes(words@, i as int, j as int),
            { word_first(&words, i, j) };
        assert forall|i: usize, j: usize, r: bool|
            i < n && j < n && #[trigger] by_word.ensures((i, j), r) implies r == wp(i as int, j as int) by {}
        sort_indices(n, &by_word, Ghost(wp))
    };
    let t = {
        let by_text = |i: usize, j: usize| -> (r: bool)
            requires
                i < words.len(),
                j < words.len(),
            ensures
                r == text_precedes(words@, i as int, j as int),
            { text_first(&words, i, j) };
        assert forall|i: usize, j: usize, r: bool|
            i < n && j < n && #[trigger] by_text.ensures((i, j), r) implies r == tp(i as int, j as int) by {}
        sort_indices(n, &by_text, Ghost(tp))
    };
    let mut flags: Vec<bool> = Vec::new();
    while flags.len() < n
        invariant
            flags.len() <= n,
            forall|i: int| 0 <= i < flags.len() ==> !#[trigger] flags@[i],
        decreases n - flags.len(),
    {
        flags.push(false);
    }
    let mut k: usize = 0;
    while k < n
        invariant
            n == ws.len(),
            words@ == ws,
            tp == text_order_of(ws),
            wp == word_order_of(ws),
            k <= n,
            flags.len() == n,
            t.len() == n,
            ascending(t@, tp),
            below(t@, n as int),
            forall|x: usize| x < n ==> #[trigger] t@.contains(x),
            forall|m: int| 0 <= m < k ==> flags@[#[trigger] t@[m] as int] == kept(ws, t@[m] as int),
            forall|i: usize| i < n && !t@.take(k as int).contains(i) ==> !#[trigger] flags@[i as int],
        decreases n - k,
    {
        let i = t[k];
        let first = k == 0 || !str_equal(words[t[k - 1]].text.as_str(), words[i].text.as_str());
        proof {
            lemma_run_start(ws, t@, k as int);
            assert forall|a: int, b: int| 0 <= a < b < n implies t@[a] != t@[b] by {
                assert(tp(t@[a] as int, t@[b] as int));
            }
        }
        if first {
            flags.set(i, true);
        }
        proof {
            let t0 = t@.take(k as int);
            let t1 = t@.take(k + 1);
            assert(t1 =~= t0.push(i));
            assert forall|m: int| 0 <= m < k + 1 implies flags@[#[trigger] t@[m] as int] == kept(
                ws,
                t@[m] as int,
            ) by {
                if m < k {
                    assert(t@[m] != i);
                }
            }
            assert forall|x: usize| x < n && !t1.contains(x) implies !#[trigger] flags@[x as int] by {
                assert(t1[k as int] == i);
                if t0.contains(x) {
                    let a = choose|a: int| 0 <= a < t0.len() && t0[a] == x;
                    assert(t1[a] == x);
                }
            }
        }
        k += 1;
    }
    proof {
        assert(t@.take(n as int) =~= t@);
        assert forall|i: int| 0 <= i < n implies flags@[i] == kept(ws, i) by {
            assert(t@.contains(i as usize));
            let m = choose|m: int| 0 <= m < t@.len() && t@[m] == i as usize;
            assert(flags@[t@[m] as int] == kept(ws, t@[m] as int));
        }
    }
    let mut pick: Vec<usize> = Vec::new();
    let ghost mut pos: Seq<int> = seq![];
    let mut k: usize = 0;
    while k < n
        invariant
            n == ws.len(),
            wp == word_order_of(ws),
            k <= n,
            flags.len() == n,
            order.len() == n,
            ascending(order@, wp),
            below(order@, n as int),
            forall|i: int| 0 <= i < n ==> flags@[i] == kept(ws, i),
            pick.len() == pos.len(),
            forall|a: int| 0 <= a < pos.len() ==> 0 <= #[trigger] pos[a] < k && pick@[a] == order@[pos[a]],
            forall|a: int, b: int| 0 <= a < b < pos.len() ==> #[trigger] pos[a] < #[trigger] pos[b],
            forall|a: int| 0 <= a < pick.len() ==> flags@[#[trigger] pick@[a] as int],
            forall|m: int| 0 <= m < k && flags@[#[trigger] order@[m] as int] ==> pick@.contains(order@[m]),
        decreases n - k,
    {
        if flags[order[k]] {
            let ghost before = pick@;
            pick.push(order[k]);
            proof {
                pos = pos.push(k as int);
                assert forall|m: int| 0 <= m < k + 1 && flags@[#[trigger] order@[m] as int] implies pick@.contains(
                    order@[m],
                ) by {
                    if m < k {
                        let a = choose|a: int| 0 <= a < before.len() && before[a] == order@[m];
                        assert(pick@[a] == order@[m]);
                    } else {
                        assert(pick@[pick.len() - 1] == order@[m]);
                    }
                }
            }
        }
        k += 1;
    }
    proof {
        assert forall|a: int, b: int| 0 <= a < b < pick.len() implies wp(pick@[a] as int, pick@[b] as int) by {
            assert(pos[a] < pos[b]);
            assert(pick@[a] == order@[pos[a]] && pick@[b] == order@[pos[b]]);
        }
        assert forall|a: int, b: int| 0 <= a < b < pick.len() implies pick@[a] != pick@[b] by {
            assert(wp(pick@[a] as int, pick@[b] as int));
        }
        assert(below(pick@, n as int)) by {
            assert forall|a: int| 0 <= a < pick.len() implies #[trigger] pick@[a] < n by {
                assert(pick@[a] == order@[pos[a]]);
            }
        }
    }
    let r = take_at(words, &pick);
    proof {
        assert forall|k: int, l: int| 0 <= k < l < r.len() implies word_before(#[trigger] r@[k], #[trigger] r@[l]) by {
            let i = pick@[k] as int;
            let j = pick@[l] as int;
            assert(wp(i, j));
            assert(kept(ws, i) && kept(ws, j));
            if ws[i].text@ == ws[j].text@ {
                assert(i != j);
                assert(wp(j, i));
                assert(wp(i, i));
            }
        }
        assert forall|k: int| 0 <= k < r.len() implies kept_word(ws, #[trigger] r@[k]) by {
            let i = pick@[k] as int;
            assert(kept(ws, i) && ws[i] == r@[k]);
        }
        assert forall|i: int| 0 <= i < ws.len() && #[trigger] kept(ws, i) implies r@.contains(ws[i]) by {
            assert(order@.contains(i as usize));
            let m = choose|m: int| 0 <= m < order.len() && order@[m] == i as usize;
            assert(flags@[order@[m] as int]);
            let a = choose|a: int| 0 <= a < pick.len() && pick@[a] == order@[m];
            assert(r@[a] == ws[i]);
        }
    }
    r
}

// ---------------------------------------------------------------------------
// The dataset
// ---------------------------------------------------------------------------

/// `k` is the comparison-ready text of the word `w`.
pub open spec fn word_key_of(k: WordKey, w: Word) -> bool {
    k.pinyin@ == folded(w.pinyin@) && k.meaning@ == lowercase(w.meaning@)
}

/// `k` is the comparison-ready text of the character `c`.
pub open spec fn character_key_of(k: CharacterKey, c: Character) -> bool {
    &&& k.ch == c.ch
    &&& k.hsk == c.hsk
    &&& k.teachable == c.teachable()
    &&& views(k.pinyin@) == views(c.pinyin@).map_values(|p: Seq<char>| folded(p))
    &&& k.meaning@ == lowercase(c.definition@)
}

/// The characters and words the course knows, with what every search compares
/// against computed once.
///
/// Characters are kept most common first, unranked ones last, then by
/// codepoint. Words are kept once per text, the most useful entry of each, by
/// HSK level and then by how common they are.
#[derive(Debug)]
pub struct Dataset {
    chars: Vec<Character>,
    words: Vec<Word>,
    word_keys: Vec<WordKey>,
    character_keys: Vec<CharacterKey>,
}

/// The position of the last character `c` in `cs`: the one a lookup finds.
pub open spec fn last_at(cs: Seq<Character>, c: char) -> Option<int>
    decreases cs.len(),
{
    if cs.len() == 0 {
        None
    } else if cs.last().ch == c {
        Some(cs.len() - 1)
    } else {
        last_at(cs.drop_last(), c)
    }
}

/// The characters of `cs` the course teaches, in order.
pub open spec fn teachable_of(cs: Seq<Character>) -> Seq<Character>
    decreases cs.len(),
{
    if cs.len() == 0 {
        seq![]
    } else if cs.last().teachable() {
        teachable_of(cs.drop_last()).push(cs.last())
    } else {
        teachable_of(cs.drop_last())
    }
}

/// The characters of `cs` with stroke geometry, in order.
pub open spec fn drawable_of(cs: Seq<Character>) -> Seq<char>
    decreases cs.len(),
{
    if cs.len() == 0 {
        seq![]
    } else if cs.last().has_medians {
        drawable_of(cs.drop_last()).push(cs.last().ch)
    } else {
        drawable_of(cs.drop_last())
    }
}

/// How often `c` occurs in `s`.
pub open spec fn occurrences(s: Seq<char>, c: char) -> nat
    decreases s.len(),
{
    if s.len() == 0 {
        0
    } else {
        occurrences(s.drop_last(), c) + if s.last() == c {
            1nat
        } else {
            0nat
        }
    }
}

/// The positions of the words holding `c`, in order, each once for every time
/// its word holds `c`.
pub open spec fn holding(ws: Seq<Word>, c: char) -> Seq<int>
    decreases ws.len(),
{
    if ws.len() == 0 {
        seq![]
    } else {
        holding(ws.drop_last(), c) + Seq::new(
            occurrences(ws.last().text@, c),
            |k: int| ws.len() - 1,
        )
    }
}

/// The level of each character the course teaches, `0` for the rest.
pub open spec fn taught_levels(cs: Seq<Character>) -> Seq<u8> {
    Seq::new(cs.len(), |i: int| if cs[i].teachable() { cs[i].hsk } else { 0u8 })
}

/// Each level from 1 up to below `v` that some count in `hs` reaches, lowest
/// first, with its count.
pub open spec fn level_counts(hs: Seq<u8>, v: int) -> Seq<(u8, usize)>
    decreases v,
{
    if v <= 1 {
        seq![]
    } else {
        let rest = level_counts(hs, v - 1);
        if count_of(hs, v - 1) > 0 {
            rest.push(((v - 1) as u8, count_of(hs, v - 1) as usize))
        } else {
            rest
        }
    }
}

/// `h` is what the dataset `cs` tells of the character `c`: its readings and
/// definition, or nothing when the dataset does not have it.
pub open spec fn hint_from(h: CharacterHint, cs: Seq<Character>, c: char) -> bool {
    &&& h.ch == c
    &&& match last_at(cs, c) {
        Some(i) => views(h.pinyin@) == views(cs[i].pinyin@) && h.meaning@ == cs[i].definition@,
        None => h.pinyin.len() == 0 && h.meaning@.len() == 0,
    }
}

/// The hint for `h.ch` in `known` agrees with the dataset `cs`.
pub open spec fn agrees(known: Seq<CharacterHint>, cs: Seq<Character>, c: char) -> bool {
    match known_hint(known, c) {
        Some(k) => hint_from(k, cs, c) && last_at(cs, c) is Some,
        None => true,
    }
}


/// `rs` is the characters `cs` as the tone sets read them.
pub open spec fn ranked_from(rs: Seq<RankedCharacter>, cs: Seq<Character>) -> bool {
    &&& rs.len() == cs.len()
    &&& forall|k: int|
        0 <= k < rs.len() ==> {
            &&& (#[trigger] rs[k]).ch == cs[k].ch
            &&& rs[k].rank == cs[k].rank
            &&& views(rs[k].pinyin@) == views(cs[k].pinyin@)
            &&& rs[k].definition@ == cs[k].definition@
        }
}

/// `r` is what [`tone_sets`] gives for the characters `ranked` and `limit`:
/// tone sets of those characters, each a contrast, ordered, and only cut short
/// by the limit.
pub open spec fn sets_found(ranked: Seq<RankedCharacter>, r: Seq<ToneSet>, limit: usize) -> bool {
    &&& r.len() <= limit
    &&& forall|k: int| 0 <= k < r.len() ==> set_is(#[trigger] r[k], ranked) && is_contrast(ranked, r[k].base@)
    &&& forall|j: int, k: int| 0 <= j < k < r.len() ==> set_before(r[j], r[k])
    &&& forall|s: ToneSet|
        set_is(s, ranked) && is_contrast(ranked, s.base@) && !(exists|k: int|
            0 <= k < r.len() && (#[trigger] r[k]).base@ == s.base@) ==> r.len() == limit && forall|k: int|
            0 <= k < r.len() ==> set_before(#[trigger] r[k], s)
}

proof fn lemma_known_hint_push(s: Seq<CharacterHint>, h: CharacterHint, c: char)
    ensures
        known_hint(s.push(h), c) == if known_hint(s, c) is Some {
            known_hint(s, c)
        } else if h.ch == c {
            Some(h)
        } else {
            None
        },
    decreases s.len(),
{
    if s.len() > 0 {
        assert(s.push(h)[0] == s[0]);
        assert(s.push(h).drop_first() =~= s.drop_first().push(h));
        lemma_known_hint_push(s.drop_first(), h, c);
    } else {
        assert(s.push(h)[0] == h);
        assert(s.push(h).drop_first() =~= Seq::<CharacterHint>::empty());
        assert(known_hint(s.push(h).drop_first(), c) is None);
    }
}

proof fn lemma_last_at(cs: Seq<Character>, c: char)
    ensures
        last_at(cs, c) matches Some(i) ==> 0 <= i < cs.len() && cs[i].ch == c,
    decreases cs.len(),
{
    if cs.len() > 0 {
        lemma_last_at(cs.drop_last(), c);
    }
}

proof fn lemma_last_at_prefix(cs: Seq<Character>, n: int, c: char)
    requires
        0 <= n < cs.len(),
    ensures
        last_at(cs.take(n + 1), c) == if cs[n].ch == c {
            Some(n)
        } else {
            last_at(cs.take(n), c)
        },
{
    assert(cs.take(n + 1).drop_last() =~= cs.take(n));
}

impl Dataset {
    /// The characters, in the order they are kept.
    pub closed spec fn characters(&self) -> Seq<Character> {
        self.chars@
    }

    /// The words, in the order they are kept.
    pub closed spec fn word_list(&self) -> Seq<Word> {
        self.words@
    }

    /// The words' comparison-ready texts, one per word.
    pub closed spec fn word_key_list(&self) -> Seq<WordKey> {
        self.word_keys@
    }

    /// The characters' comparison-ready texts, one per character.
    pub closed spec fn character_key_list(&self) -> Seq<CharacterKey> {
        self.character_keys@
    }

    /// Every key is that of the word or character at its place.
    #[verifier::type_invariant]
    spec fn keys_match(&self) -> bool {
        &&& self.word_keys.len() == self.words.len()
        &&& forall|i: int| 0 <= i < self.words.len() ==> word_key_of(#[trigger] self.word_keys@[i], self.words@[i])
        &&& self.character_keys.len() == self.chars.len()
        &&& forall|i: int|
            0 <= i < self.chars.len() ==> character_key_of(#[trigger] self.character_keys@[i], self.chars@[i])
    }

    /// Build a dataset from characters, sorting them into frequency order.
    pub fn from_chars(chars: Vec<Character>) -> (r: Dataset)
        ensures
            characters_sorted(chars@, r.characters()),
            r.word_list().len() == 0,
            r.word_key_list().len() == 0,
            r.character_key_list().len() == r.characters().len(),
            forall|i: int|
                0 <= i < r.characters().len() ==> character_key_of(#[trigger] r.character_key_list()[i], r.characters()[i]),
    {
        let r = Self::from_parts(chars, Vec::new());
        proof {
            if r.word_list().len() > 0 {
                assert(kept_word(Seq::<Word>::empty(), r.word_list()[0]));
            }
        }
        r
    }

    /// Build a dataset from characters and words, both put in their order
    /// here: characters most common first, and each word once, its most useful
    /// entry, lowest level first.
    pub fn from_parts(chars: Vec<Character>, words: Vec<Word>) -> (r: Dataset)
        ensures
            characters_sorted(chars@, r.characters()),
            words_kept(words@, r.word_list()),
            r.word_key_list().len() == r.word_list().len(),
            forall|i: int| 0 <= i < r.word_list().len() ==> word_key_of(#[trigger] r.word_key_list()[i], r.word_list()[i]),
            r.character_key_list().len() == r.characters().len(),
            forall|i: int|
                0 <= i < r.characters().len() ==> character_key_of(#[trigger] r.character_key_list()[i], r.characters()[i]),
    {
        let ghost cs = chars@;
        let order = character_order(&chars);
        proof {
            lemma_character_order(cs);
            assert forall|a: int, b: int| 0 <= a < b < order.len() implies order@[a] != order@[b] by {
                assert(character_order_of(cs)(order@[a] as int, order@[b] as int));
            }
        }
        let sorted = take_at(chars, &order);
        assert(arranged(cs, order@, sorted@));
        let kept_list = keep_words(words);
        let mut word_keys: Vec<WordKey> = Vec::new();
        let mut i: usize = 0;
        while i < kept_list.len()
            invariant
                i <= kept_list.len(),
                word_keys.len() == i,
                forall|j: int| 0 <= j < i ==> word_key_of(#[trigger] word_keys@[j], kept_list@[j]),
            decreases kept_list.len() - i,
        {
            let key = word_key(&kept_list[i]);
            let ghost before = word_keys@;
            word_keys.push(key);
            proof {
                lemma_push(before, key);
            }
            i += 1;
        }
        let mut character_keys: Vec<CharacterKey> = Vec::new();
        let mut i: usize = 0;
        while i < sorted.len()
            invariant
                i <= sorted.len(),
                character_keys.len() == i,
                forall|j: int| 0 <= j < i ==> character_key_of(#[trigger] character_keys@[j], sorted@[j]),
            decreases sorted.len() - i,
        {
            let c = &sorted[i];
            let key = character_key(c.ch, c.hsk, c.is_teachable(), c.pinyin.as_slice(), c.definition.as_str());
            let ghost before = character_keys@;
            character_keys.push(key);
            proof {
                lemma_push(before, key);
            }
            i += 1;
        }
        Dataset { chars: sorted, words: kept_list, word_keys, character_keys }
    }

    /// Where the character `ch` is kept: the last entry for it.
    pub fn position(&self, ch: char) -> (r: Option<usize>)
        ensures
            match last_at(self.characters(), ch) {
                Some(i) => r == Some(i as usize),
                None => r is None,
            },
    {
        let mut k: usize = self.chars.len();
        assert(self.chars@.take(k as int) =~= self.chars@);
        while k > 0
            invariant
                k <= self.chars.len(),
                last_at(self.chars@, ch) == last_at(self.chars@.take(k as int), ch),
            decreases k,
        {
            proof {
                lemma_last_at_prefix(self.chars@, k - 1, ch);
            }
            if self.chars[k - 1].ch == ch {
                return Some(k - 1);
            }
            k -= 1;
        }
        None
    }

    /// The character `ch`, when the dataset has it.
    pub fn get(&self, ch: char) -> (r: Option<&Character>)
        ensures
            match last_at(self.characters(), ch) {
                Some(i) => r == Some(&self.characters()[i]),
                None => r is None,
            },
    {
        proof {
            lemma_last_at(self.chars@, ch);
            assert(self.characters() == self.chars@);
        }
        let p = self.position(ch);
        match p {
            Some(i) => {
                let ghost j = last_at(self.chars@, ch).unwrap();
                assert(last_at(self.characters(), ch) is Some);
                assert(p == Some(j as usize));
                assert(0 <= j < self.chars@.len());
                assert(self.chars.len() == self.chars@.len());
                assert(i as int == j);
                let c = &self.chars[i];
                assert(*c == self.chars@[j]);
                Some(c)
            },
            None => None,
        }
    }

    /// True when there is stroke geometry to grade an attempt at `ch`
    /// against.
    pub fn is_practisable(&self, ch: char) -> (r: bool)
        ensures
            r == (last_at(self.characters(), ch) matches Some(i) && self.characters()[i].has_medians),
    {
        proof {
            lemma_last_at(self.chars@, ch);
        }
        match self.get(ch) {
            Some(c) => c.has_medians,
            None => false,
        }
    }

    /// Every character the board can ask for, so that the interface can tell
    /// a word from the punctuation around it.
    pub fn practisable_characters(&self) -> (r: Vec<char>)
        ensures
            r@ == drawable_of(self.characters()),
    {
        let mut out: Vec<char> = Vec::new();
        let mut i: usize = 0;
        while i < self.chars.len()
            invariant
                i <= self.chars.len(),
                out@ == drawable_of(self.chars@.take(i as int)),
            decreases self.chars.len() - i,
        {
            assert(self.chars@.take(i + 1).drop_last() =~= self.chars@.take(i as int));
            if self.chars[i].has_medians {
                out.push(self.chars[i].ch);
            }
            i += 1;
        }
        assert(self.chars@.take(i as int) =~= self.chars@);
        out
    }

    /// Every character, in the order they are kept.
    pub fn chars(&self) -> (r: &[Character])
        ensures
            r@ == self.characters(),
    {
        self.chars.as_slice()
    }

    /// The characters the course teaches, most common first.
    pub fn ranked(&self) -> (r: Vec<&Character>)
        ensures
            r.len() == teachable_of(self.characters()).len(),
            forall|k: int| 0 <= k < r.len() ==> *(#[trigger] r@[k]) == teachable_of(self.characters())[k],
    {
        let mut out: Vec<&Character> = Vec::new();
        let mut i: usize = 0;
        while i < self.chars.len()
            invariant
                i <= self.chars.len(),
                out.len() == teachable_of(self.chars@.take(i as int)).len(),
                forall|k: int| 0 <= k < out.len() ==> *(#[trigger] out@[k]) == teachable_of(self.chars@.take(i as int))[k],
            decreases self.chars.len() - i,
        {
            assert(self.chars@.take(i + 1).drop_last() =~= self.chars@.take(i as int));
            if self.chars[i].is_teachable() {
                let ghost before = out@;
                out.push(&self.chars[i]);
                proof {
                    lemma_push(before, &self.chars@[i as int]);
                }
            }
            i += 1;
        }
        assert(self.chars@.take(i as int) =~= self.chars@);
        out
    }

    pub fn len(&self) -> (r: usize)
        ensures
            r == self.characters().len(),
    {
        self.chars.len()
    }

    pub fn is_empty(&self) -> (r: bool)
        ensures
            r == (self.characters().len() == 0),
    {
        self.chars.len() == 0
    }

    /// Every word, most useful first: by HSK level, then by frequency.
    pub fn words(&self) -> (r: &[Word])
        ensures
            r@ == self.word_list(),
    {
        self.words.as_slice()
    }

    pub fn word_count(&self) -> (r: usize)
        ensures
            r == self.word_list().len(),
    {
        self.words.len()
    }

    /// Exact dictionary lookup for a word, surrounding spaces ignored.
    pub fn word(&self, text: &str) -> (r: Option<&Word>)
        ensures
            match r {
                Some(w) => word_for(self.word_list(), trim(text@)) == Some(*w),
                None => word_for(self.word_list(), trim(text@)) is None,
            },
    {
        let t = trimmed(text);
        find_word(self.words.as_slice(), t.as_str())
    }

    /// How many words sit at each HSK level, lowest level first; levels with
    /// no words are left out.
    pub fn words_per_level(&self) -> (r: Vec<(u8, usize)>)
        ensures
            r@ == runs(levels_of(self.word_list())),
    {
        words_per_level(self.words.as_slice())
    }

    /// Every word containing a character, most useful first: the inverse
    /// index. A word is listed once for each time it holds the character.
    pub fn words_with(&self, ch: char) -> (r: Vec<&Word>)
        ensures
            r.len() == holding(self.word_list(), ch).len(),
            forall|k: int|
                0 <= k < r.len() ==> *(#[trigger] r@[k]) == self.word_list()[holding(self.word_list(), ch)[k]],
    {
        let ghost ws = self.words@;
        let mut out: Vec<&Word> = Vec::new();
        let mut i: usize = 0;
        while i < self.words.len()
            invariant
                i <= self.words.len(),
                ws == self.words@,
                out.len() == holding(ws.take(i as int), ch).len(),
                forall|k: int| 0 <= k < out.len() ==> *(#[trigger] out@[k]) == ws[holding(ws.take(i as int), ch)[k]],
            decreases self.words.len() - i,
        {
            let ghost h0 = holding(ws.take(i as int), ch);
            assert(ws.take(i + 1).drop_last() =~= ws.take(i as int));
            let text = chars_of(self.words[i].text.as_str());
            assert(text@.take(0) =~= Seq::<char>::empty());
            assert(out.len() == h0.len() + occurrences(text@.take(0), ch));
            let mut j: usize = 0;
            while j < text.len()
                invariant
                    i < self.words.len(),
                    ws == self.words@,
                    text@ == ws[i as int].text@,
                    j <= text.len(),
                    h0 == holding(ws.take(i as int), ch),
                    out.len() == h0.len() + occurrences(text@.take(j as int), ch),
                    forall|k: int| 0 <= k < h0.len() ==> *(#[trigger] out@[k]) == ws[h0[k]],
                    forall|k: int| h0.len() <= k < out.len() ==> *(#[trigger] out@[k]) == ws[i as int],
                decreases text.len() - j,
            {
                assert(text@.take(j + 1).drop_last() =~= text@.take(j as int));
                if text[j] == ch {
                    let ghost before = out@;
                    out.push(&self.words[i]);
                    proof {
                        lemma_push(before, &self.words@[i as int]);
                    }
                }
                j += 1;
            }
            proof {
                assert(text@.take(j as int) =~= text@);
                let h1 = holding(ws.take(i + 1), ch);
                assert(h1 =~= h0 + Seq::new(occurrences(ws[i as int].text@, ch), |k: int| i as int));
                assert forall|k: int| 0 <= k < out.len() implies *(#[trigger] out@[k]) == ws[h1[k]] by {
                    if k < h0.len() {
                        assert(h1[k] == h0[k]);
                    } else {
                        assert(h1[k] == i);
                    }
                }
            }
            i += 1;
        }
        assert(ws.take(i as int) =~= ws);
        out
    }

    /// Find words by character, reading or meaning, as [`search_words`] does
    /// over this dataset's words.
    pub fn search_words(&self, query: &str, level: Option<u8>, limit: usize) -> (r: Vec<&Word>)
        ensures
            ({
                let order = by_rank(word_ranks(self.word_list(), self.word_key_list(), query@, level), 6);
                &&& r.len() == if limit < order.len() {
                    limit as int
                } else {
                    order.len() as int
                }
                &&& forall|k: int|
                    0 <= k < r.len() ==> 0 <= order[k] < self.word_list().len() && *(#[trigger] r@[k])
                        == self.word_list()[order[k]]
            }),
    {
        proof {
            use_type_invariant(self);
        }
        let ws = self.words.as_slice();
        let ks = self.word_keys.as_slice();
        assert(ws@ == self.words@);
        assert(ks@ == self.word_keys@);
        let r = search_words(ws, ks, query, level, limit);
        let ghost order = by_rank(word_ranks(self.words@, self.word_keys@, query@, level), 6);
        assert(self.word_list() == self.words@);
        assert(self.word_key_list() == self.word_keys@);
        proof {
            crate::dataset::lemma_by_rank_bound(word_ranks(self.words@, self.word_keys@, query@, level), 6);
        }
        r
    }

    /// How many words a query matches, ignoring any limit.
    pub fn count_words(&self, query: &str, level: Option<u8>) -> (r: usize)
        ensures
            r == match_count(
                word_ranks(self.word_list(), self.word_key_list(), query@, level),
                self.word_list().len() as int,
            ),
    {
        proof {
            use_type_invariant(self);
        }
        count_words(self.words.as_slice(), self.word_keys.as_slice(), query, level)
    }

    /// Find characters by character, reading or meaning, as
    /// [`search_characters`] does over this dataset's characters.
    pub fn search_characters(&self, query: &str, level: Option<u8>, limit: usize) -> (r: Vec<&Character>)
        ensures
            ({
                let order = by_rank(character_ranks(self.character_key_list(), trim(query@), level), 7);
                &&& r.len() == if limit < order.len() {
                    limit as int
                } else {
                    order.len() as int
                }
                &&& forall|k: int|
                    0 <= k < r.len() ==> 0 <= order[k] < self.characters().len() && *(#[trigger] r@[k])
                        == self.characters()[order[k]]
            }),
    {
        proof {
            use_type_invariant(self);
        }
        let found = search_characters(self.character_keys.as_slice(), query, level, limit);
        let ghost order = by_rank(character_ranks(self.character_keys@, trim(query@), level), 7);
        proof {
            crate::dataset::lemma_by_rank_bound(character_ranks(self.character_keys@, trim(query@), level), 7);
        }
        let mut out: Vec<&Character> = Vec::new();
        let mut k: usize = 0;
        while k < found.len()
            invariant
                k <= found.len(),
                self.character_keys.len() == self.chars.len(),
                found.len() <= order.len(),
                forall|j: int| 0 <= j < found.len() ==> found@[j] == order[j],
                forall|j: int| 0 <= j < order.len() ==> 0 <= #[trigger] order[j] < self.chars.len(),
                out.len() == k,
                forall|j: int| 0 <= j < k ==> *(#[trigger] out@[j]) == self.chars@[order[j]],
            decreases found.len() - k,
        {
            assert(0 <= order[k as int] < self.chars.len());
            let ghost before = out@;
            out.push(&self.chars[found[k]]);
            proof {
                lemma_push(before, &self.chars@[found@[k as int] as int]);
            }
            k += 1;
        }
        out
    }

    /// How many characters a query matches, ignoring any limit.
    pub fn count_characters(&self, query: &str, level: Option<u8>) -> (r: usize)
        ensures
            r == match_count(
                character_ranks(self.character_key_list(), trim(query@), level),
                self.characters().len() as int,
            ),
    {
        proof {
            use_type_invariant(self);
        }
        count_characters(self.character_keys.as_slice(), query, level)
    }

    /// How many characters the course teaches at each HSK level, lowest level
    /// first; levels with none are left out. The characters are not kept level
    /// by level, so each level is counted over all of them.
    pub fn characters_per_level(&self) -> (r: Vec<(u8, usize)>)
        ensures
            r@ == level_counts(taught_levels(self.characters()), 256),
    {
        let ghost hs = taught_levels(self.chars@);
        let mut census: Vec<(u8, usize)> = Vec::new();
        let mut v: u16 = 1;
        while v < 256
            invariant
                1 <= v <= 256,
                hs == taught_levels(self.chars@),
                census@ == level_counts(hs, v as int),
            decreases 256 - v,
        {
            let mut count: usize = 0;
            let mut k: usize = 0;
            while k < self.chars.len()
                invariant
                    k <= self.chars.len(),
                    1 <= v < 256,
                    hs == taught_levels(self.chars@),
                    count == count_of(hs.take(k as int), v as int),
                decreases self.chars.len() - k,
            {
                proof {
                    assert(hs.take(k + 1).drop_last() =~= hs.take(k as int));
                    crate::prepare::lemma_count_of_bound(hs.take(k as int), v as int);
                }
                if self.chars[k].is_teachable() && self.chars[k].hsk as u16 == v {
                    count += 1;
                }
                k += 1;
            }
            proof {
                assert(hs.take(k as int) =~= hs);
            }
            if count > 0 {
                census.push((v as u8, count));
            }
            v += 1;
        }
        census
    }

    /// What the dataset can tell about a piece of study text, as
    /// [`lookup_text`] tells it from this dataset's characters and words.
    pub fn lookup_text(&self, text: &str) -> (r: TextLookup)
        ensures
            ({
                let t = trim(text@);
                let hints = r.characters@;
                &&& hints.len() == t.len()
                &&& forall|i: int| 0 <= i < t.len() ==> hint_from(#[trigger] hints[i], self.characters(), t[i])
                &&& r.complete == (t.len() > 0 && forall|i: int| 0 <= i < t.len() ==> (#[trigger] hints[i]).pinyin.len() > 0)
                &&& if t.len() == 1 {
                    &&& r.pinyin@ == if hints[0].pinyin.len() > 0 {
                        hints[0].pinyin@[0]@
                    } else {
                        Seq::<char>::empty()
                    }
                    &&& r.meaning@ == hints[0].meaning@
                } else {
                    match word_for(self.word_list(), t) {
                        Some(w) => r.pinyin@ == w.pinyin@ && r.meaning@ == w.meaning@,
                        None => r.pinyin@ == composed(hints) && r.meaning@.len() == 0,
                    }
                }
            }),
    {
        let ghost cs = self.chars@;
        let t = trimmed_chars(text);
        let mut known: Vec<CharacterHint> = Vec::new();
        let mut k: usize = 0;
        while k < t.len()
            invariant
                cs == self.chars@,
                cs == self.characters(),
                t@ == trim(text@),
                k <= t.len(),
                forall|c: char| #[trigger] agrees(known@, cs, c),
                forall|j: int| 0 <= j < k && last_at(cs, #[trigger] t@[j]) is Some ==> known_hint(known@, t@[j]) is Some,
            decreases t.len() - k,
        {
            let c = t[k];
            proof {
                lemma_last_at(cs, c);
            }
            match self.get(c) {
                Some(x) => {
                    let h = CharacterHint { ch: c, pinyin: copy_strings(&x.pinyin), meaning: x.definition.clone() };
                    let ghost before = known@;
                    known.push(h);
                    proof {
                        assert(hint_from(h, cs, c));
                        assert forall|d: char| #[trigger] agrees(known@, cs, d) by {
                            lemma_known_hint_push(before, h, d);
                            assert(agrees(before, cs, d));
                        }
                        assert forall|j: int| 0 <= j < k + 1 && last_at(cs, #[trigger] t@[j]) is Some implies known_hint(known@, t@[j]) is Some by {
                            lemma_known_hint_push(before, h, t@[j]);
                        }
                    }
                },
                None => {},
            }
            k += 1;
        }
        let words = self.words.as_slice();
        let r = lookup_text(text, known.as_slice(), words);
        proof {
            let tt = trim(text@);
            assert forall|i: int| 0 <= i < tt.len() implies hint_from(#[trigger] r.characters@[i], cs, tt[i]) by {
                assert(hint_is(r.characters@[i], known@, tt[i]));
                assert(agrees(known@, cs, tt[i]));
            }
            assert(self.word_list() == words@);
        }
        r
    }

    /// Sets of characters that differ only in tone, most useful first, as
    /// [`tone_sets`] finds them among the characters the course teaches.
    pub fn tone_sets(&self, limit: usize) -> (r: Vec<ToneSet>)
        ensures
            exists|rs: Seq<RankedCharacter>| #[trigger] ranked_from(rs, teachable_of(self.characters())) && sets_found(rs, r@, limit),
    {
        let mut ranked: Vec<RankedCharacter> = Vec::new();
        let mut i: usize = 0;
        while i < self.chars.len()
            invariant
                i <= self.chars.len(),
                ranked_from(ranked@, teachable_of(self.chars@.take(i as int))),
            decreases self.chars.len() - i,
        {
            assert(self.chars@.take(i + 1).drop_last() =~= self.chars@.take(i as int));
            let c = &self.chars[i];
            if c.is_teachable() {
                let rc = RankedCharacter { ch: c.ch, rank: c.rank, pinyin: copy_strings(&c.pinyin), definition: c.definition.clone() };
                let ghost before = ranked@;
                ranked.push(rc);
                proof {
                    lemma_push(before, rc);
                    let cs1 = teachable_of(self.chars@.take(i + 1));
                    assert forall|k: int| 0 <= k < ranked@.len() implies {
                        &&& (#[trigger] ranked@[k]).ch == cs1[k].ch
                        &&& ranked@[k].rank == cs1[k].rank
                        &&& views(ranked@[k].pinyin@) == views(cs1[k].pinyin@)
                        &&& ranked@[k].definition@ == cs1[k].definition@
                    } by {
                        if k < before.len() {
                            assert(ranked@[k] == before[k]);
                        }
                    }
                }
            }
            i += 1;
        }
        assert(self.chars@.take(i as int) =~= self.chars@);
        let r = tone_sets(ranked.as_slice(), limit);
        assert(sets_found(ranked@, r@, limit));
        assert(ranked_from(ranked@, teachable_of(self.characters())));
        r
    }
}


// ---------------------------------------------------------------------------
// What holds of every dataset
// ---------------------------------------------------------------------------

/// A dataset keeps each word once: no two of the words it keeps share a text.
pub proof fn law_a_dataset_keeps_each_word_once(ws: Seq<Word>, r: Seq<Word>)
    requires
        words_kept(ws, r),
        ws.len() <= usize::MAX,
    ensures
        forall|k: int, l: int| 0 <= k < l < r.len() ==> (#[trigger] r[k]).text@ != (#[trigger] r[l]).text@,
{
    lemma_word_order(ws);
    let wp = word_order_of(ws);
    assert forall|k: int, l: int| 0 <= k < l < r.len() implies (#[trigger] r[k]).text@ != (#[trigger] r[l]).text@ by {
        assert(word_before(r[k], r[l]));
        assert(kept_word(ws, r[k]) && kept_word(ws, r[l]));
        let i = choose|i: int| 0 <= i < ws.len() && kept(ws, i) && ws[i] == r[k];
        let j = choose|j: int| 0 <= j < ws.len() && kept(ws, j) && ws[j] == r[l];
        if r[k].text@ == r[l].text@ {
            if i != j {
                assert(wp(i, j) && wp(j, i));
                assert(wp(i, i));
            }
            lemma_text_before_irreflexive(r[k].text@);
        }
    }
}

/// A dataset keeps every character it was given, and only those, most common
/// first: none comes after a character that belongs after it.
pub proof fn law_characters_are_kept_in_frequency_order(cs: Seq<Character>, r: Seq<Character>)
    requires
        characters_sorted(cs, r),
        cs.len() <= usize::MAX,
    ensures
        r.len() == cs.len(),
        forall|k: int, l: int| 0 <= k < l < r.len() ==> !character_before(#[trigger] r[l], #[trigger] r[k]),
        forall|i: int| 0 <= i < cs.len() ==> r.contains(#[trigger] cs[i]),
        forall|k: int| 0 <= k < r.len() ==> cs.contains(#[trigger] r[k]),
{
    let p = choose|p: Seq<usize>| #[trigger] arranged(cs, p, r);
    let prec = character_order_of(cs);
    assert forall|k: int, l: int| 0 <= k < l < r.len() implies !character_before(#[trigger] r[l], #[trigger] r[k]) by {
        assert(prec(p[k] as int, p[l] as int));
        assert(r[k] == cs[p[k] as int] && r[l] == cs[p[l] as int]);
    }
    assert forall|i: int| 0 <= i < cs.len() implies r.contains(#[trigger] cs[i]) by {
        assert(p.contains(i as usize));
        let k = choose|k: int| 0 <= k < p.len() && p[k] == i as usize;
        assert(r[k] == cs[i]);
    }
    assert forall|k: int| 0 <= k < r.len() implies cs.contains(#[trigger] r[k]) by {
        assert(r[k] == cs[p[k] as int]);
    }
}

proof fn lemma_census_counts(keys: Seq<CharacterKey>, cs: Seq<Character>, l: u8, n: int)
    requires
        keys.len() == cs.len(),
        forall|i: int| 0 <= i < cs.len() ==> character_key_of(#[trigger] keys[i], cs[i]),
        1 <= l,
        0 <= n <= cs.len(),
    ensures
        match_count(character_ranks(keys, Seq::<char>::empty(), Some(l)), n) == count_of(
            taught_levels(cs).take(n),
            l as int,
        ),
    decreases n,
{
    if n > 0 {
        lemma_census_counts(keys, cs, l, n - 1);
        assert(taught_levels(cs).take(n).drop_last() =~= taught_levels(cs).take(n - 1));
        assert(character_key_of(keys[n - 1], cs[n - 1]));
    }
}

/// The census of a level agrees with a browse of that level: the count given
/// for each level is how many characters a search with no text and that
/// level's filter lists.
pub proof fn law_the_level_census_agrees_with_browsing(d: Dataset, l: u8)
    requires
        1 <= l,
        d.character_key_list().len() == d.characters().len(),
        forall|i: int|
            0 <= i < d.characters().len() ==> character_key_of(#[trigger] d.character_key_list()[i], d.characters()[i]),
    ensures
        match_count(
            character_ranks(d.character_key_list(), Seq::<char>::empty(), Some(l)),
            d.characters().len() as int,
        ) == count_of(taught_levels(d.characters()), l as int),
{
    lemma_census_counts(d.character_key_list(), d.characters(), l, d.characters().len() as int);
    assert(taught_levels(d.characters()).take(d.characters().len() as int) =~= taught_levels(d.characters()));
}

} // verus!
