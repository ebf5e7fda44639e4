//! Practice history: ratings, the review queue, and the course cursor.
//!
//! Grading is not part of this module: a rating is turned into a due date by the
//! scheduler, and nothing else. The schedule and the reader's place in the
//! course are kept apart, so that a corrupt schedule cannot lose where someone
//! was, and the other way round.

use vstd::prelude::*;

use crate::text::{
    append_str, debug_quote, debug_quoted, decimal, decimal_string, lemma_push, lemma_text_before_irreflexive,
    lemma_text_before_total, lemma_text_before_transitive, str_before, str_equal, text_before,
};
use crate::time::{iso_text, now_iso8601};

verus! {

/// Format version written into the documents. A document from the future is
/// refused rather than guessed at.
pub const FORMAT_VERSION: u32 = 1;

/// How many attempts are kept per character, and shown to the learner.
pub const MAX_HISTORY: usize = 20;

/// How soon a failed character comes back, in seconds: within the same sitting.
pub const AGAIN_SECONDS: i64 = 60;

/// Why a progress or cursor operation failed.
#[derive(Clone, Debug)]
pub enum ProgressError {
    /// The document could not be read or written.
    Io(String),
    /// The document is not valid JSON, or does not match the schema.
    Malformed(String),
    /// The document was written by a newer version of the app.
    UnsupportedVersion(u32),
    /// A timestamp was not the ISO-8601 UTC form this library writes.
    InvalidTimestamp(String),
}

impl ProgressError {
    /// The sentence that reports this error.
    pub open spec fn spec_message(&self) -> Seq<char> {
        match self {
            ProgressError::Io(why) => why@,
            ProgressError::Malformed(why) => "it is not valid JSON: "@ + why@,
            ProgressError::UnsupportedVersion(v) => "it was written by a newer version of the app (format "@
                + decimal(*v as nat) + ", this build understands "@ + decimal(
                FORMAT_VERSION as nat,
            ) + ")"@,
            ProgressError::InvalidTimestamp(at) => debug_quote(at@)
                + " is not an ISO-8601 UTC timestamp"@,
        }
    }

    /// The sentence that reports this error, as it is shown to the learner.
    pub fn message(&self) -> (r: String)
        ensures
            r@ == self.spec_message(),
    {
        match self {
            ProgressError::Io(why) => why.clone(),
            ProgressError::Malformed(why) => {
                let mut m = "it is not valid JSON: ".to_owned();
                append_str(&mut m, why.as_str());
                m
            },
            ProgressError::UnsupportedVersion(v) => {
                let mut m = "it was written by a newer version of the app (format ".to_owned();
                append_str(&mut m, decimal_string(*v as u64).as_str());
                append_str(&mut m, ", this build understands ");
                append_str(&mut m, decimal_string(FORMAT_VERSION as u64).as_str());
                append_str(&mut m, ")");
                m
            },
            ProgressError::InvalidTimestamp(at) => {
                let mut m = debug_quoted(at.as_str());
                append_str(&mut m, " is not an ISO-8601 UTC timestamp");
                m
            },
        }
    }
}

/// How well an attempt went, in the four grades a review button would offer.
#[derive(Clone, Copy, Debug, PartialEq, Eq, Structural)]
pub enum Rating {
    /// Not legible, or barely: show it again shortly.
    Again,
    /// Recognisable but shaky.
    Hard,
    /// Correct.
    Good,
    /// Correct without hesitation.
    Easy,
}

impl Rating {
    /// The SM-2 quality a rating stands for.
    pub open spec fn spec_quality(self) -> u8 {
        match self {
            Rating::Again => 1,
            Rating::Hard => 3,
            Rating::Good => 4,
            Rating::Easy => 5,
        }
    }

    /// The stored name of a rating.
    pub open spec fn spec_name(self) -> Seq<char> {
        match self {
            Rating::Again => "again"@,
            Rating::Hard => "hard"@,
            Rating::Good => "good"@,
            Rating::Easy => "easy"@,
        }
    }

    /// The SM-2 quality (0..=5) this rating stands for.
    pub fn quality(self) -> (r: u8)
        ensures
            r == self.spec_quality(),
    {
        match self {
            Rating::Again => 1,
            Rating::Hard => 3,
            Rating::Good => 4,
            Rating::Easy => 5,
        }
    }

    /// The stored name of this rating, the one the documents and the database
    /// hold.
    pub fn name(self) -> (r: &'static str)
        ensures
            r@ == self.spec_name(),
    {
        match self {
            Rating::Again => "again",
            Rating::Hard => "hard",
            Rating::Good => "good",
            Rating::Easy => "easy",
        }
    }

    /// The rating a stored name means, or `None` when it is not one this build
    /// knows.
    pub fn from_name(name: &str) -> (r: Option<Rating>)
        ensures
            match r {
                Some(rating) => rating.spec_name() == name@,
                None => forall|rating: Rating| rating.spec_name() != name@,
            },
    {
        if str_equal(name, "again") {
            Some(Rating::Again)
        } else if str_equal(name, "hard") {
            Some(Rating::Hard)
        } else if str_equal(name, "good") {
            Some(Rating::Good)
        } else if str_equal(name, "easy") {
            Some(Rating::Easy)
        } else {
            None
        }
    }
}

/// The stored names of the ratings are all different, so a rating read back by
/// its name is the rating that was written.
pub proof fn law_a_rating_is_found_again_by_its_name(a: Rating, b: Rating)
    ensures
        a.spec_name() == b.spec_name() ==> a == b,
{
    reveal_strlit("again");
    reveal_strlit("hard");
    reveal_strlit("good");
    reveal_strlit("easy");
    if a.spec_name() == b.spec_name() && a != b {
        assert(a.spec_name().len() != b.spec_name().len() || a.spec_name()[0] != b.spec_name()[0]);
    }
}

/// SM-2, the classic SuperMemo scheduling algorithm, in the shape a handwriting
/// score naturally takes.
#[derive(Clone, Copy, Debug)]
pub struct Sm2;

/// Where a due character should be practised from.
#[derive(Clone, Copy, Debug, PartialEq, Eq, Structural)]
pub enum ReviewSource {
    /// A character in the built-in course.
    Course,
    /// A character of an entry in the personal vocabulary list.
    Vocabulary,
}

/// One thing to review. For a vocabulary entry this describes the entry, not
/// just the character that came due: a word is practised whole.
#[derive(Clone, Debug)]
pub struct ReviewItem {
    /// The character whose card came due.
    pub ch: char,
    /// When it came due, ISO-8601 UTC. The queue is ordered by this.
    pub due: String,
    pub source: ReviewSource,
    /// The vocabulary entry, when the character belongs to one.
    pub entry_id: Option<u64>,
    /// The text to write: an entry's word, or the character itself.
    pub text: String,
}

/// The review queue, plus how much of it is not shown.
#[derive(Clone, Debug)]
pub struct ReviewView {
    pub items: Vec<ReviewItem>,
    /// How many items are due in total, before any limit was applied.
    pub due_count: usize,
    pub warning: Option<String>,
}


// ---------------------------------------------------------------------------
// The review queue
// ---------------------------------------------------------------------------

/// Whether `c` occurs in `s`.
pub open spec fn holds(s: Seq<char>, c: char) -> bool {
    exists|i: int| 0 <= i < s.len() && s[i] == c
}

/// The vocabulary entry a character belongs to: the lowest id among the
/// entries whose text holds it, so the choice is stable.
pub open spec fn entry_for(entries: Seq<(u64, Seq<char>)>, c: char) -> Option<u64>
    decreases entries.len(),
{
    if entries.len() == 0 {
        None
    } else {
        let rest = entry_for(entries.drop_last(), c);
        let e = entries.last();
        if holds(e.1, c) {
            match rest {
                Some(r) => Some(if r < e.0 {
                    r
                } else {
                    e.0
                }),
                None => Some(e.0),
            }
        } else {
            rest
        }
    }
}

/// The text of the first entry with the id `id`.
pub open spec fn entry_text(entries: Seq<(u64, Seq<char>)>, id: u64) -> Option<Seq<char>>
    decreases entries.len(),
{
    if entries.len() == 0 {
        None
    } else if entries[0].0 == id {
        Some(entries[0].1)
    } else {
        entry_text(entries.drop_first(), id)
    }
}

/// A review item as plain values: the character, its due time, where it is
/// practised from, the entry, and the text to write.
pub type ItemModel = (char, Seq<char>, ReviewSource, Option<u64>, Seq<char>);

/// The review queue for the first `n` due cards, in their order.
///
/// A character in a vocabulary entry is reported as that entry, once however
/// many of its characters are due; one in the course alone as itself; one in
/// neither is skipped, as there would be nothing to practise it from.
pub open spec fn queue(
    due: Seq<(char, Seq<char>)>,
    course: Seq<char>,
    entries: Seq<(u64, Seq<char>)>,
    n: int,
) -> Seq<ItemModel>
    decreases n,
{
    if n <= 0 {
        seq![]
    } else {
        let q = queue(due, course, entries, n - 1);
        let ch = due[n - 1].0;
        let at = due[n - 1].1;
        match entry_for(entries, ch) {
            Some(id) => if exists|k: int|
                0 <= k < n - 1 && entry_for(entries, #[trigger] due[k].0) == Some(id) {
                q
            } else {
                let text = match entry_text(entries, id) {
                    Some(t) => t,
                    None => seq![ch],
                };
                q.push((ch, at, ReviewSource::Vocabulary, Some(id), text))
            },
            None => if holds(course, ch) {
                q.push((ch, at, ReviewSource::Course, None, seq![ch]))
            } else {
                q
            },
        }
    }
}

/// Where a queue item came from: the due card `d`, practised from the entry
/// its character belongs to, or from the course when it belongs to none.
pub open spec fn came_from(
    course: Seq<char>,
    entries: Seq<(u64, Seq<char>)>,
    it: ItemModel,
    d: (char, Seq<char>),
) -> bool {
    &&& it.0 == d.0
    &&& it.1 == d.1
    &&& match it.2 {
        ReviewSource::Vocabulary => it.3 is Some && entry_for(entries, d.0) == it.3,
        ReviewSource::Course => it.3 is None && entry_for(entries, d.0) is None && holds(course, d.0),
    }
}

/// Whether the due card `d` is in the queue `q`, if it can be practised at
/// all: by its entry, or by itself as a course item.
pub open spec fn represented(
    course: Seq<char>,
    entries: Seq<(u64, Seq<char>)>,
    q: Seq<ItemModel>,
    d: (char, Seq<char>),
) -> bool {
    &&& entry_for(entries, d.0) is Some ==> exists|i: int|
        0 <= i < q.len() && (#[trigger] q[i]).3 == entry_for(entries, d.0)
    &&& entry_for(entries, d.0) is None && holds(course, d.0) ==> exists|i: int|
        0 <= i < q.len() && (#[trigger] q[i]).0 == d.0 && q[i].1 == d.1 && q[i].2
            == ReviewSource::Course
}

proof fn lemma_queue_items(
    due: Seq<(char, Seq<char>)>,
    course: Seq<char>,
    entries: Seq<(u64, Seq<char>)>,
    n: int,
)
    requires
        0 <= n <= due.len(),
    ensures
        queue(due, course, entries, n).len() <= n,
        forall|i: int|
            0 <= i < queue(due, course, entries, n).len() ==> exists|k: int|
                0 <= k < n && came_from(
                    course,
                    entries,
                    #[trigger] queue(due, course, entries, n)[i],
                    due[k],
                ),
    decreases n,
{
    if n > 0 {
        lemma_queue_items(due, course, entries, n - 1);
        let q = queue(due, course, entries, n - 1);
        let r = queue(due, course, entries, n);
        assert forall|i: int| 0 <= i < r.len() implies exists|k: int|
            0 <= k < n && came_from(course, entries, #[trigger] r[i], due[k]) by {
            if i < q.len() {
                assert(r[i] == q[i]);
                let k = choose|k: int| 0 <= k < n - 1 && came_from(course, entries, q[i], due[k]);
                assert(came_from(course, entries, r[i], due[k]));
            } else {
                assert(came_from(course, entries, r[i], due[n - 1]));
            }
        }
    }
}

proof fn lemma_queue_once(
    due: Seq<(char, Seq<char>)>,
    course: Seq<char>,
    entries: Seq<(u64, Seq<char>)>,
    n: int,
)
    requires
        0 <= n <= due.len(),
    ensures
        forall|i: int, j: int|
            0 <= i < j < queue(due, course, entries, n).len() && (#[trigger] queue(
                due,
                course,
                entries,
                n,
            )[i]).3 is Some ==> queue(due, course, entries, n)[i].3 != (#[trigger] queue(
                due,
                course,
                entries,
                n,
            )[j]).3,
    decreases n,
{
    if n > 0 {
        lemma_queue_once(due, course, entries, n - 1);
        lemma_queue_items(due, course, entries, n - 1);
        let q = queue(due, course, entries, n - 1);
        let r = queue(due, course, entries, n);
        assert forall|i: int, j: int|
            0 <= i < j < r.len() && (#[trigger] r[i]).3 is Some implies r[i].3 != (
            #[trigger] r[j]).3 by {
            assert(r[i] == q[i]);
            if j < q.len() {
                assert(r[j] == q[j]);
            } else {
                let k = choose|k: int| 0 <= k < n - 1 && came_from(course, entries, q[i], due[k]);
                if r[j].3 == r[i].3 {
                    assert(entry_for(entries, due[k].0) == q[i].3);
                    assert(entry_for(entries, due[n - 1].0) is Some);
                }
            }
        }
    }
}

proof fn lemma_queue_complete(
    due: Seq<(char, Seq<char>)>,
    course: Seq<char>,
    entries: Seq<(u64, Seq<char>)>,
    n: int,
)
    requires
        0 <= n <= due.len(),
    ensures
        forall|k: int|
            0 <= k < n ==> represented(course, entries, queue(due, course, entries, n), #[trigger] due[k]),
    decreases n,
{
    if n > 0 {
        lemma_queue_complete(due, course, entries, n - 1);
        let q = queue(due, course, entries, n - 1);
        let r = queue(due, course, entries, n);
        assert(r == q || exists|x: ItemModel| r == q.push(x));
        assert forall|k: int| 0 <= k < n implies represented(course, entries, r, #[trigger] due[k]) by {
            let d = due[k];
            if entry_for(entries, d.0) is Some {
                if k < n - 1 {
                    let i = choose|i: int| 0 <= i < q.len() && (#[trigger] q[i]).3 == entry_for(entries, d.0);
                    assert(r[i] == q[i]);
                } else if exists|k2: int|
                    0 <= k2 < n - 1 && entry_for(entries, #[trigger] due[k2].0) == entry_for(entries, d.0) {
                    let k2 = choose|k2: int|
                        0 <= k2 < n - 1 && entry_for(entries, #[trigger] due[k2].0) == entry_for(entries, d.0);
                    assert(represented(course, entries, q, due[k2]));
                    let i = choose|i: int|
                        0 <= i < q.len() && (#[trigger] q[i]).3 == entry_for(entries, due[k2].0);
                    assert(r[i] == q[i]);
                } else {
                    assert(r[q.len() as int].3 == entry_for(entries, d.0));
                }
            }
            if entry_for(entries, d.0) is None && holds(course, d.0) {
                if k < n - 1 {
                    let i = choose|i: int|
                        0 <= i < q.len() && (#[trigger] q[i]).0 == d.0 && q[i].1 == d.1 && q[i].2
                            == ReviewSource::Course;
                    assert(r[i] == q[i]);
                } else {
                    assert(r[q.len() as int].0 == d.0);
                }
            }
        }
    }
}

/// The entry a character is practised from is the one with the lowest id among
/// the entries whose text holds it, and there is one exactly when some entry
/// holds it.
pub proof fn law_a_character_goes_to_the_lowest_entry_holding_it(
    entries: Seq<(u64, Seq<char>)>,
    c: char,
)
    ensures
        entry_for(entries, c) is Some <==> exists|k: int|
            0 <= k < entries.len() && holds(#[trigger] entries[k].1, c),
        entry_for(entries, c) matches Some(id) ==> (exists|k: int|
            0 <= k < entries.len() && #[trigger] entries[k].0 == id && holds(entries[k].1, c))
            && forall|k: int|
            0 <= k < entries.len() && holds(#[trigger] entries[k].1, c) ==> id <= entries[k].0,
    decreases entries.len(),
{
    if entries.len() > 0 {
        let rest = entries.drop_last();
        law_a_character_goes_to_the_lowest_entry_holding_it(rest, c);
        let last = entries.len() - 1;
        assert forall|k: int| 0 <= k < rest.len() implies #[trigger] rest[k] == entries[k] by {}
        if exists|k: int| 0 <= k < entries.len() && holds(#[trigger] entries[k].1, c) {
            let k = choose|k: int| 0 <= k < entries.len() && holds(#[trigger] entries[k].1, c);
            if k < last {
                assert(holds(rest[k].1, c));
            }
        }
        if let Some(id) = entry_for(entries, c) {
            if let Some(r) = entry_for(rest, c) {
                let k = choose|k: int|
                    0 <= k < rest.len() && #[trigger] rest[k].0 == r && holds(rest[k].1, c);
                assert(entries[k] == rest[k]);
            }
            assert forall|k: int|
                0 <= k < entries.len() && holds(#[trigger] entries[k].1, c) implies id
                <= entries[k].0 by {
                if k < last {
                    assert(rest[k] == entries[k]);
                    assert(holds(rest[k].1, c));
                }
            }
        }
    }
}

/// The items of `q` stand for due cards among the first `n`, in the order
/// those cards came.
pub open spec fn in_due_order(
    course: Seq<char>,
    entries: Seq<(u64, Seq<char>)>,
    due: Seq<(char, Seq<char>)>,
    n: int,
    q: Seq<ItemModel>,
) -> bool {
    forall|i: int, j: int|
        #![trigger q[i], q[j]]
        0 <= i < j < q.len() ==> exists|ki: int, kj: int|
            0 <= ki < kj < n && came_from(course, entries, q[i], due[ki]) && came_from(
                course,
                entries,
                q[j],
                due[kj],
            )
}

/// Items come in the order of the due cards they stand for.
proof fn lemma_queue_order(
    due: Seq<(char, Seq<char>)>,
    course: Seq<char>,
    entries: Seq<(u64, Seq<char>)>,
    n: int,
)
    requires
        0 <= n <= due.len(),
    ensures
        in_due_order(course, entries, due, n, queue(due, course, entries, n)),
    decreases n,
{
    if n > 0 {
        lemma_queue_order(due, course, entries, n - 1);
        lemma_queue_items(due, course, entries, n - 1);
        let q = queue(due, course, entries, n - 1);
        let r = queue(due, course, entries, n);
        assert forall|i: int, j: int|
            #![trigger r[i], r[j]]
            0 <= i < j < r.len() implies exists|ki: int, kj: int|
            0 <= ki < kj < n && came_from(course, entries, r[i], due[ki]) && came_from(
                course,
                entries,
                r[j],
                due[kj],
            ) by {
            assert(r[i] == q[i]);
            if j < q.len() {
                assert(r[j] == q[j]);
                let (ki, kj) = choose|ki: int, kj: int|
                    0 <= ki < kj < n - 1 && came_from(course, entries, q[i], due[ki]) && came_from(
                        course,
                        entries,
                        q[j],
                        due[kj],
                    );
                assert(came_from(course, entries, r[i], due[ki]));
                assert(came_from(course, entries, r[j], due[kj]));
            } else {
                let ki = choose|ki: int| 0 <= ki < n - 1 && came_from(course, entries, q[i], due[ki]);
                assert(came_from(course, entries, r[i], due[ki]));
                assert(came_from(course, entries, r[j], due[n - 1]));
            }
        }
    }
}

/// The queue holds each vocabulary entry once, however many of its characters
/// are due; it has no more items than due cards, each of them a due card
/// practised from the entry its character belongs to, or from the course when
/// it belongs to none; it leaves out no due card that can be practised; and its
/// items come in the order of the cards they stand for.
pub proof fn law_the_queue_holds_each_entry_once(
    due: Seq<(char, Seq<char>)>,
    course: Seq<char>,
    entries: Seq<(u64, Seq<char>)>,
)
    ensures
        ({
            let q = queue(due, course, entries, due.len() as int);
            &&& q.len() <= due.len()
            &&& forall|i: int, j: int|
                0 <= i < j < q.len() && (#[trigger] q[i]).3 is Some ==> q[i].3 != (#[trigger] q[j]).3
            &&& forall|i: int|
                0 <= i < q.len() ==> exists|k: int|
                    0 <= k < due.len() && came_from(course, entries, #[trigger] q[i], due[k])
            &&& forall|k: int| 0 <= k < due.len() ==> represented(course, entries, q, #[trigger] due[k])
        }),
        in_due_order(course, entries, due, due.len() as int, queue(due, course, entries, due.len() as int)),
{
    lemma_queue_items(due, course, entries, due.len() as int);
    lemma_queue_once(due, course, entries, due.len() as int);
    lemma_queue_complete(due, course, entries, due.len() as int);
    lemma_queue_order(due, course, entries, due.len() as int);
}

/// The plain values of a review item.
pub open spec fn item_model(item: ReviewItem) -> ItemModel {
    (item.ch, item.due@, item.source, item.entry_id, item.text@)
}

/// The due cards as plain values.
pub open spec fn due_model(due: Seq<(char, String)>) -> Seq<(char, Seq<char>)> {
    due.map_values(|d: (char, String)| (d.0, d.1@))
}

/// The entries as plain values.
pub open spec fn entries_model(entries: Seq<(u64, String)>) -> Seq<(u64, Seq<char>)> {
    entries.map_values(|e: (u64, String)| (e.0, e.1@))
}

/// Whether the text `s` holds `c`.
fn text_holds(s: &str, c: char) -> (r: bool)
    ensures
        r == holds(s@, c),
{
    let v = crate::text::chars_of(s);
    let mut i: usize = 0;
    while i < v.len()
        invariant
            i <= v.len(),
            v@ == s@,
            forall|k: int| 0 <= k < i ==> v@[k] != c,
        decreases v.len() - i,
    {
        if v[i] == c {
            return true;
        }
        i += 1;
    }
    false
}

/// Whether `c` is in `set`.
fn contains_char(set: &[char], c: char) -> (r: bool)
    ensures
        r == holds(set@, c),
{
    let mut i: usize = 0;
    while i < set.len()
        invariant
            i <= set.len(),
            forall|k: int| 0 <= k < i ==> set@[k] != c,
        decreases set.len() - i,
    {
        if set[i] == c {
            return true;
        }
        i += 1;
    }
    false
}

/// The entry `c` belongs to, by [`entry_for`].
fn find_entry(entries: &[(u64, String)], c: char) -> (r: Option<u64>)
    ensures
        r == entry_for(entries_model(entries@), c),
{
    let ghost m = entries_model(entries@);
    let mut best: Option<u64> = None;
    let mut k: usize = 0;
    while k < entries.len()
        invariant
            k <= entries.len(),
            m == entries_model(entries@),
            best == entry_for(m.take(k as int), c),
        decreases entries.len() - k,
    {
        proof {
            assert(m.take(k + 1).drop_last() =~= m.take(k as int));
            assert(m.take(k + 1).last() == (entries@[k as int].0, entries@[k as int].1@));
        }
        if text_holds(entries[k].1.as_str(), c) {
            let id = entries[k].0;
            best = match best {
                Some(b) => Some(if b < id {
                    b
                } else {
                    id
                }),
                None => Some(id),
            };
        }
        k += 1;
    }
    assert(m.take(k as int) =~= m);
    best
}

/// The text of the first entry with the id `id`, by [`entry_text`].
fn find_entry_text(entries: &[(u64, String)], id: u64) -> (r: Option<String>)
    ensures
        match r {
            Some(t) => entry_text(entries_model(entries@), id) == Some(t@),
            None => entry_text(entries_model(entries@), id) is None,
        },
{
    let ghost m = entries_model(entries@);
    assert(m.skip(0) =~= m);
    let mut k: usize = 0;
    while k < entries.len()
        invariant
            k <= entries.len(),
            m == entries_model(entries@),
            entry_text(m, id) == entry_text(m.skip(k as int), id),
        decreases entries.len() - k,
    {
        proof {
            assert(m.skip(k as int).drop_first() =~= m.skip(k + 1));
        }
        if entries[k].0 == id {
            return Some(entries[k].1.clone());
        }
        k += 1;
    }
    None
}

/// Build the review queue from the cards due now, most overdue first.
///
/// `due` holds each due character with its due time, in the order they are to
/// be reviewed; `course` the characters of the built-in course; `entries` the
/// vocabulary entries by id and text. See [`queue`] for what comes back.
pub fn build_queue(due: &[(char, String)], course: &[char], entries: &[(u64, String)]) -> (r: Vec<
    ReviewItem,
>)
    ensures
        r@.map_values(|i: ReviewItem| item_model(i)) == queue(
            due_model(due@),
            course@,
            entries_model(entries@),
            due@.len() as int,
        ),
{
    let ghost dm = due_model(due@);
    let ghost em = entries_model(entries@);
    let mut items: Vec<ReviewItem> = Vec::new();
    let mut seen: Vec<u64> = Vec::new();
    let mut n: usize = 0;
    while n < due.len()
        invariant
            n <= due.len(),
            dm == due_model(due@),
            em == entries_model(entries@),
            items@.map_values(|i: ReviewItem| item_model(i)) == queue(dm, course@, em, n as int),
            forall|id: u64|
                seen@.contains(id) <==> exists|k: int|
                    0 <= k < n && entry_for(em, #[trigger] dm[k].0) == Some(id),
        decreases due.len() - n,
    {
        let ch = due[n].0;
        let ghost before = items@;
        proof {
            assert(dm[n as int] == (ch, due@[n as int].1@));
        }
        match find_entry(entries, ch) {
            Some(id) => {
                let ghost old_seen = seen@;
                let mut already = false;
                let mut s: usize = 0;
                while s < seen.len()
                    invariant
                        s <= seen.len(),
                        already == exists|t: int| 0 <= t < s && seen@[t] == id,
                    decreases seen.len() - s,
                {
                    if seen[s] == id {
                        already = true;
                    }
                    s += 1;
                }
                proof {
                    assert(already <==> seen@.contains(id));
                    assert(already <==> exists|k: int|
                        0 <= k < n && entry_for(em, #[trigger] dm[k].0) == Some(id));
                }
                if !already {
                    let text = match find_entry_text(entries, id) {
                        Some(t) => t,
                        None => {
                            let mut t = String::new();
                            crate::text::push_char(&mut t, ch);
                            assert(t@ =~= seq![ch]);
                            t
                        },
                    };
                    assert(text@ == match entry_text(em, id) {
                        Some(t) => t,
                        None => seq![ch],
                    });
                    let item = ReviewItem {
                        ch,
                        due: due[n].1.clone(),
                        source: ReviewSource::Vocabulary,
                        entry_id: Some(id),
                        text,
                    };
                    items.push(item);
                    proof {
                        crate::text::lemma_push(before, item);
                        assert(items@.map_values(|i: ReviewItem| item_model(i)) =~= before.map_values(
                            |i: ReviewItem| item_model(i),
                        ).push(item_model(item)));
                    }
                    seen.push(id);
                    proof {
                        crate::text::lemma_push(old_seen, id);
                    }
                } else {
                    proof {
                        let t = choose|t: int| 0 <= t < seen.len() && seen@[t] == id;
                        assert(seen@.contains(id));
                    }
                }
                proof {
                    assert forall|x: u64| seen@.contains(x) <==> (old_seen.contains(x) || x == id) by {
                        if seen@.contains(x) {
                            let i = choose|i: int| 0 <= i < seen@.len() && seen@[i] == x;
                            if i < old_seen.len() {
                                assert(old_seen[i] == x);
                            }
                        }
                        if old_seen.contains(x) {
                            let i = choose|i: int| 0 <= i < old_seen.len() && old_seen[i] == x;
                            assert(seen@[i] == x);
                        }
                        if x == id && !already {
                            assert(seen@[old_seen.len() as int] == id);
                        }
                    }
                    assert forall|x: u64|
                        seen@.contains(x) <==> exists|k: int|
                            0 <= k < n + 1 && entry_for(em, #[trigger] dm[k].0) == Some(x) by {
                        if exists|k: int| 0 <= k < n + 1 && entry_for(em, #[trigger] dm[k].0) == Some(x) {
                            let k = choose|k: int| 0 <= k < n + 1 && entry_for(em, #[trigger] dm[k].0) == Some(x);
                            if k < n {
                                assert(old_seen.contains(x));
                            }
                        }
                        if old_seen.contains(x) {
                            let k = choose|k: int| 0 <= k < n && entry_for(em, #[trigger] dm[k].0) == Some(x);
                            assert(0 <= k < n + 1);
                        }
                        if x == id {
                            assert(entry_for(em, dm[n as int].0) == Some(x));
                        }
                    }
                }
            },
            None => {
                if contains_char(course, ch) {
                    let mut t = String::new();
                    crate::text::push_char(&mut t, ch);
                    assert(t@ =~= seq![ch]);
                    let item = ReviewItem {
                        ch,
                        due: due[n].1.clone(),
                        source: ReviewSource::Course,
                        entry_id: None,
                        text: t,
                    };
                    items.push(item);
                    proof {
                        crate::text::lemma_push(before, item);
                        assert(items@.map_values(|i: ReviewItem| item_model(i)) =~= before.map_values(
                            |i: ReviewItem| item_model(i),
                        ).push(item_model(item)));
                    }
                }
            },
        }
        n += 1;
    }
    items
}


// ---------------------------------------------------------------------------
// The course cursor
// ---------------------------------------------------------------------------

/// The persisted cursor document. Every field but the version is optional on
/// disk, so a document from a newer build fails the version check rather than
/// the schema check.
#[derive(Clone, Debug)]
pub struct CursorDocument {
    pub version: u32,
    /// Position in the flattened course, as a count of characters.
    pub index: usize,
    /// When it was last moved, for a "continue where I left off" line.
    pub updated_at: Option<String>,
}

impl Default for CursorDocument {
    fn default() -> (r: CursorDocument)
        ensures
            r.version == FORMAT_VERSION,
            r.index == 0,
            r.updated_at is None,
    {
        CursorDocument { version: FORMAT_VERSION, index: 0, updated_at: None }
    }
}

/// Where the course cursor is kept: a file or a database implements this.
pub trait CursorSink {
    /// The document last handed to this sink with success, if any was.
    spec fn written(&self) -> Option<CursorDocument>;

    /// What the last save answered, if a save was made.
    spec fn outcome(&self) -> Option<Result<(), ProgressError>>;

    fn load(&self) -> Result<CursorDocument, ProgressError>;

    fn save(&mut self, document: &CursorDocument) -> (r: Result<(), ProgressError>)
        ensures
            r is Ok ==> final(self).written() == Some(*document),
            final(self).outcome() == Some(r),
    ;
}

/// Where the reader was, as the interface needs it.
#[derive(Clone, Debug)]
pub struct CursorView {
    /// Position in the flattened course.
    pub index: usize,
    pub updated_at: Option<String>,
    pub warning: Option<String>,
}

/// The course cursor: where the reader was last looking.
pub struct CursorStore {
    path: String,
    document: CursorDocument,
    /// Set when the cursor is kept by a sink.
    sink: Option<Box<dyn CursorSink>>,
}

fn copy_text(o: &Option<String>) -> (r: Option<String>)
    ensures
        r == *o,
{
    match o {
        Some(v) => Some(v.clone()),
        None => None,
    }
}

impl CursorStore {
    /// The cursor document as it stands.
    pub closed spec fn current(&self) -> CursorDocument {
        self.document
    }

    /// The file the cursor is kept in; empty when a sink of its own or nothing
    /// holds it.
    pub closed spec fn file(&self) -> Seq<char> {
        self.path@
    }

    /// Whether a sink keeps the cursor.
    pub closed spec fn kept(&self) -> bool {
        self.sink is Some
    }

    /// What the sink, if there is one, was last handed with success.
    pub closed spec fn sink_written(&self) -> Option<CursorDocument> {
        match self.sink {
            Some(sink) => sink.written(),
            None => None,
        }
    }

    /// What the sink, if there is one, answered to its last save.
    pub closed spec fn sink_outcome(&self) -> Option<Result<(), ProgressError>> {
        match self.sink {
            Some(sink) => sink.outcome(),
            None => None,
        }
    }

    /// Open the cursor kept in the file at `path`, which `file` writes.
    ///
    /// `found` is the document read from the file, `None` when there is none
    /// yet, which starts at the beginning. A document from a newer version is
    /// refused.
    pub fn open(path: String, found: Option<CursorDocument>, file: Box<dyn CursorSink>) -> (r:
        Result<Self, ProgressError>)
        ensures
            match found {
                None => r is Ok && r->Ok_0.current().index == 0 && r->Ok_0.current().updated_at is None
                    && r->Ok_0.current().version == FORMAT_VERSION,
                Some(d) => if d.version > FORMAT_VERSION {
                    r == Err::<Self, ProgressError>(ProgressError::UnsupportedVersion(d.version))
                } else {
                    r is Ok && r->Ok_0.current() == d
                },
            },
            r is Ok ==> r->Ok_0.file() == path@ && r->Ok_0.kept(),
    {
        let document = match found {
            None => CursorDocument::default(),
            Some(d) => {
                if d.version > FORMAT_VERSION {
                    return Err(ProgressError::UnsupportedVersion(d.version));
                }
                d
            },
        };
        Ok(CursorStore { path, document, sink: Some(file) })
    }

    /// Open a cursor kept by `sink`: whatever it loads, or its error.
    pub fn open_with(sink: Box<dyn CursorSink>) -> (r: Result<Self, ProgressError>)
        ensures
            r is Ok ==> r->Ok_0.file().len() == 0 && r->Ok_0.kept(),
    {
        let loaded = sink.load();
        Self::from_loaded(loaded, sink)
    }

    /// A cursor over `sink`, given what the sink loaded: the document it gave,
    /// or its error handed on unchanged.
    pub fn from_loaded(loaded: Result<CursorDocument, ProgressError>, sink: Box<dyn CursorSink>) -> (r:
        Result<Self, ProgressError>)
        ensures
            match loaded {
                Ok(d) => r is Ok && r->Ok_0.current() == d && r->Ok_0.file().len() == 0
                    && r->Ok_0.kept(),
                Err(e) => r is Err && r->Err_0 == e,
            },
    {
        match loaded {
            Ok(document) => Ok(CursorStore { path: String::new(), document, sink: Some(sink) }),
            Err(e) => Err(e),
        }
    }

    /// A cursor in memory, at the start, with nothing behind it.
    pub fn in_memory() -> (r: Self)
        ensures
            r.current().version == FORMAT_VERSION,
            r.current().index == 0,
            r.current().updated_at is None,
            r.file().len() == 0,
            !r.kept(),
    {
        CursorStore { path: String::new(), document: CursorDocument::default(), sink: None }
    }

    /// The file this cursor is kept in, or empty when a sink of its own or
    /// nothing holds it.
    pub fn path(&self) -> (r: &str)
        ensures
            r@ == self.file(),
    {
        self.path.as_str()
    }

    /// The whole cursor, as a sink sees it.
    pub fn document(&self) -> (r: &CursorDocument)
        ensures
            *r == self.current(),
    {
        &self.document
    }

    pub fn index(&self) -> (r: usize)
        ensures
            r == self.current().index,
    {
        self.document.index
    }

    /// When the cursor last moved, if it ever has.
    pub fn updated_at(&self) -> (r: Option<&str>)
        ensures
            match r {
                Some(t) => self.current().updated_at matches Some(u) && t@ == u@,
                None => self.current().updated_at is None,
            },
    {
        match &self.document.updated_at {
            Some(t) => Some(t.as_str()),
            None => None,
        }
    }

    /// Move the cursor, stamping the time it moved. Setting the same position
    /// does not count as a move, so merely looking at the course does not keep
    /// rewriting the file.
    pub fn set_index(&mut self, index: usize) -> (moved: bool)
        ensures
            moved == (old(self).current().index != index),
            final(self).current().index == index,
            final(self).current().version == old(self).current().version,
            moved ==> (final(self).current().updated_at matches Some(t) && exists|u: int|
                i64::MIN <= u <= i64::MAX && t@ == iso_text(u)),
            !moved ==> final(self).current() == old(self).current(),
            final(self).file() == old(self).file(),
            final(self).kept() == old(self).kept(),
    {
        if self.document.index == index {
            return false;
        }
        self.document.index = index;
        self.document.updated_at = Some(now_iso8601());
        true
    }

    /// The cursor as the interface sees it.
    pub fn view(&self) -> (r: CursorView)
        ensures
            r.index == self.current().index,
            r.updated_at == self.current().updated_at,
            r.warning is None,
    {
        CursorView {
            index: self.document.index,
            updated_at: copy_text(&self.document.updated_at),
            warning: None,
        }
    }

    /// Persist the cursor through its sink; a cursor with none has nowhere to
    /// write, and saves silently.
    pub fn save(&mut self) -> (r: Result<(), ProgressError>)
        ensures
            final(self).current() == old(self).current(),
            final(self).file() == old(self).file(),
            final(self).kept() == old(self).kept(),
            !old(self).kept() ==> r is Ok,
            old(self).kept() && r is Ok ==> final(self).sink_written() == Some(old(self).current()),
            old(self).kept() ==> final(self).sink_outcome() == Some(r),
    {
        match &mut self.sink {
            Some(sink) => sink.save(&self.document),
            None => Ok(()),
        }
    }
}


// ---------------------------------------------------------------------------
// What is due
// ---------------------------------------------------------------------------

/// A card is due once its due time is reached: the timestamps compare as text,
/// which is their order in time.
pub open spec fn due_by(due: Seq<char>, now: Seq<char>) -> bool {
    due == now || text_before(due, now)
}

/// True when a card due at `due` is due at `now`.
pub fn is_due(due: &str, now: &str) -> (r: bool)
    ensures
        r == due_by(due@, now@),
{
    str_equal(due, now) || str_before(due, now)
}

/// The newest `limit` entries of a history kept oldest first: the older ones
/// beyond the cap are dropped, so the history stays bounded while the totals
/// kept beside it go on counting.
pub fn latest<T>(history: Vec<T>, limit: usize) -> (r: Vec<T>)
    ensures
        r@ == if history.len() > limit {
            history@.skip(history.len() - limit)
        } else {
            history@
        },
{
    if history.len() > limit {
        let mut all = history;
        let excess = all.len() - limit;
        let newest = all.split_off(excess);
        assert(newest@ =~= history@.skip(history.len() - limit));
        newest
    } else {
        history
    }
}

/// Whether a schedule document of format `version` can be read: one written
/// by this version of the app or an older one can; a newer one is refused
/// rather than half-understood.
pub fn check_version(version: u32) -> (r: Result<(), ProgressError>)
    ensures
        version <= FORMAT_VERSION ==> r is Ok,
        version > FORMAT_VERSION ==> (r matches Err(ProgressError::UnsupportedVersion(v)) && v == version),
{
    if version > FORMAT_VERSION {
        Err(ProgressError::UnsupportedVersion(version))
    } else {
        Ok(())
    }
}

/// The order due cards are reviewed in: most overdue first, the character
/// breaking ties.
pub open spec fn due_before(a: (char, String), b: (char, String)) -> bool {
    text_before(a.1@, b.1@) || (a.1@ == b.1@ && a.0 < b.0)
}

/// The character a card is kept under: the first of its key.
pub open spec fn card_char(key: Seq<char>) -> Option<char> {
    if key.len() > 0 {
        Some(key[0])
    } else {
        None
    }
}

/// `item` is the character and due time of some card of `cards` due at `now`.
pub open spec fn from_due_card(item: (char, String), cards: Seq<(String, String)>, now: Seq<char>, n: int) -> bool {
    exists|i: int|
        0 <= i < n && card_char(cards[i].0@) == Some(item.0) && item.1 == cards[i].1 && due_by(cards[i].1@, now)
}

/// `x` is one of `s`.
pub open spec fn in_list(x: (char, String), s: Seq<(char, String)>) -> bool {
    exists|k: int| 0 <= k < s.len() && s[k] == x
}

proof fn lemma_due_order(a: (char, String), b: (char, String), c: (char, String))
    ensures
        !due_before(a, a),
        !(due_before(a, b) && due_before(b, a)),
        due_before(a, b) && due_before(b, c) ==> due_before(a, c),
        !due_before(a, b) && !due_before(b, a) ==> a.1@ == b.1@ && a.0 == b.0,
{
    lemma_text_before_irreflexive(a.1@);
    lemma_text_before_total(a.1@, b.1@);
    if text_before(a.1@, b.1@) && text_before(b.1@, c.1@) {
        lemma_text_before_transitive(a.1@, b.1@, c.1@);
    }
}

fn due_comes_before(a: &(char, String), b: &(char, String)) -> (r: bool)
    ensures
        r == due_before(*a, *b),
{
    str_before(a.1.as_str(), b.1.as_str()) || (str_equal(a.1.as_str(), b.1.as_str()) && a.0 < b.0)
}

/// The order cards are shown in, on the positions of `cards`: by due time,
/// then by character, and two cards alike in both by where they stand.
pub open spec fn card_precedes(cards: Seq<(char, String)>, i: int, j: int) -> bool {
    due_before(cards[i], cards[j]) || (!due_before(cards[j], cards[i]) && i < j)
}

/// [`card_precedes`] as a relation.
pub open spec fn card_order_of(cards: Seq<(char, String)>) -> spec_fn(int, int) -> bool {
    |i: int, j: int| card_precedes(cards, i, j)
}

/// The positions of `cards` in the order a view lists them: earliest due
/// first, the character breaking ties, and cards alike in both in the order
/// given. Every position comes once.
pub fn card_order(cards: &[(char, String)]) -> (r: Vec<usize>)
    ensures
        r.len() == cards.len(),
        crate::order::ascending(r@, card_order_of(cards@)),
        crate::order::below(r@, cards.len() as int),
        forall|x: usize| x < cards.len() ==> #[trigger] r@.contains(x),
{
    let ghost prec = card_order_of(cards@);
    let n = cards.len();
    proof {
        assert forall|i: int, j: int, k: int|
            0 <= i < n && 0 <= j < n && 0 <= k < n && #[trigger] prec(i, j) && #[trigger] prec(j, k)
                implies prec(i, k) by {
            lemma_due_order(cards@[i], cards@[j], cards@[k]);
            lemma_due_order(cards@[j], cards@[k], cards@[i]);
            lemma_due_order(cards@[k], cards@[i], cards@[j]);
            lemma_due_order(cards@[i], cards@[k], cards@[j]);
        }
        assert forall|i: int| 0 <= i < n implies !#[trigger] prec(i, i) by {
            lemma_due_order(cards@[i], cards@[i], cards@[i]);
        }
        assert forall|i: int, j: int| 0 <= i < n && 0 <= j < n && i != j implies #[trigger] prec(i, j)
            || prec(j, i) by {
            lemma_due_order(cards@[i], cards@[j], cards@[j]);
        }
    }
    let earlier = |i: usize, j: usize| -> (r: bool)
        requires
            i < cards.len(),
            j < cards.len(),
        ensures
            r == card_precedes(cards@, i as int, j as int),
        {
            due_comes_before(&cards[i], &cards[j]) || (!due_comes_before(&cards[j], &cards[i]) && i < j)
        };
    assert forall|i: usize, j: usize, r: bool|
        i < n && j < n && #[trigger] earlier.ensures((i, j), r) implies r == prec(i as int, j as int) by {}
    crate::order::sort_indices(n, &earlier, Ghost(prec))
}

/// Every card due at `now`, most overdue first.
///
/// `cards` holds each card's key and due time. A card whose key is empty is
/// skipped; the others are kept under the first character of their key. The
/// character breaks ties, so the order is total.
pub fn due_cards(cards: &[(String, String)], now: &str) -> (r: Vec<(char, String)>)
    ensures
        forall|j: int, k: int| 0 <= j < k < r.len() ==> !due_before(r@[k], r@[j]),
        forall|k: int| 0 <= k < r.len() ==> from_due_card(#[trigger] r@[k], cards@, now@, cards.len() as int),
        forall|i: int|
            0 <= i < cards.len() && card_char(#[trigger] cards@[i].0@) is Some && due_by(cards@[i].1@, now@) ==> in_list(
                (card_char(cards@[i].0@)->0, cards@[i].1),
                r@,
            ),
        r.len() <= cards.len(),
{
    let mut out: Vec<(char, String)> = Vec::new();
    let mut i: usize = 0;
    while i < cards.len()
        invariant
            i <= cards.len(),
            out.len() <= i,
            forall|j: int, k: int| 0 <= j < k < out.len() ==> !due_before(out@[k], out@[j]),
            forall|k: int| 0 <= k < out.len() ==> from_due_card(#[trigger] out@[k], cards@, now@, i as int),
            forall|x: int|
                0 <= x < i && card_char(#[trigger] cards@[x].0@) is Some && due_by(cards@[x].1@, now@) ==> in_list(
                    (card_char(cards@[x].0@)->0, cards@[x].1),
                    out@,
                ),
        decreases cards.len() - i,
    {
        let key = crate::text::chars_of(cards[i].0.as_str());
        if key.len() > 0 && is_due(cards[i].1.as_str(), now) {
            let item = (key[0], cards[i].1.clone());
            let mut p: usize = 0;
            while p < out.len() && !due_comes_before(&item, &out[p])
                invariant
                    p <= out.len(),
                    forall|q: int| 0 <= q < p ==> !due_before(item, out@[q]),
                decreases out.len() - p,
            {
                p += 1;
            }
            let ghost before = out@;
            out.insert(p, item);
            proof {
                assert(out@[p as int] == item);
                assert forall|j: int, k: int| 0 <= j < k < out.len() implies !due_before(out@[k], out@[j]) by {
                    if k < p {
                        assert(out@[j] == before[j] && out@[k] == before[k]);
                    } else if k == p {
                        assert(out@[j] == before[j]);
                        assert(!due_before(item, before[j]));
                    } else if j == p {
                        assert(out@[k] == before[k - 1]);
                        assert(due_before(item, before[p as int]));
                        lemma_due_order(item, before[p as int], before[k - 1]);
                        if k - 1 > p {
                            assert(!due_before(before[k - 1], before[p as int]));
                            lemma_due_order(before[k - 1], before[p as int], item);
                            lemma_due_order(before[p as int], before[k - 1], item);
                            if due_before(before[k - 1], item) {
                                lemma_due_order(before[p as int], before[k - 1], item);
                            }
                        }
                        lemma_due_order(before[k - 1], item, before[p as int]);
                    } else if j < p {
                        assert(out@[j] == before[j] && out@[k] == before[k - 1]);
                    } else {
                        assert(out@[j] == before[j - 1] && out@[k] == before[k - 1]);
                    }
                }
                assert forall|k: int| 0 <= k < out.len() implies from_due_card(#[trigger] out@[k], cards@, now@, i + 1) by {
                    if k == p {
                        assert(card_char(cards@[i as int].0@) == Some(out@[k].0));
                        assert(key@ == cards@[i as int].0@);
                    } else {
                        let kk = if k < p { k } else { k - 1 };
                        assert(out@[k] == before[kk]);
                        assert(from_due_card(before[kk], cards@, now@, i as int));
                    }
                }
                assert forall|x: int|
                    0 <= x < i + 1 && card_char(#[trigger] cards@[x].0@) is Some && due_by(cards@[x].1@, now@) implies in_list(
                        (card_char(cards@[x].0@)->0, cards@[x].1),
                        out@,
                    ) by {
                    if x < i {
                        let v = (card_char(cards@[x].0@)->0, cards@[x].1);
                        assert(in_list(v, before));
                        let k = choose|k: int| 0 <= k < before.len() && before[k] == v;
                        if k < p {
                            assert(out@[k] == before[k]);
                        } else {
                            assert(out@[k + 1] == before[k]);
                        }
                    } else {
                        assert(out@[p as int] == item);
                    }
                }
            }
        } else {
            proof {
                assert forall|k: int| 0 <= k < out.len() implies from_due_card(#[trigger] out@[k], cards@, now@, i + 1) by {
                    assert(from_due_card(out@[k], cards@, now@, i as int));
                }
                assert forall|x: int|
                    0 <= x < i + 1 && card_char(#[trigger] cards@[x].0@) is Some && due_by(cards@[x].1@, now@) implies in_list(
                        (card_char(cards@[x].0@)->0, cards@[x].1),
                        out@,
                    ) by {
                    if x == i {
                        assert(key@ == cards@[i as int].0@);
                    }
                }
            }
        }
        i += 1;
    }
    proof {
        assert forall|k: int| 0 <= k < out.len() implies from_due_card(#[trigger] out@[k], cards@, now@, cards.len() as int) by {
            assert(from_due_card(out@[k], cards@, now@, i as int));
        }
    }
    out
}

} // verus!
