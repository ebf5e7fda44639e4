//! Turning the frequency-ranked character list into a sequence of lessons.

use vstd::prelude::*;

use crate::lexicon::{teachable_of, Character, Dataset};
use crate::text::{append_str, decimal, decimal_string};

verus! {

/// How many characters a lesson holds by default.
pub const DEFAULT_LESSON_SIZE: usize = 10;

/// A group of characters studied together.
#[derive(Clone, Debug)]
pub struct Lesson {
    /// Zero-based position in the course.
    pub index: usize,
    /// Human-readable name, e.g. `"Characters 1–10"`.
    pub title: String,
    /// The characters to study, in teaching order.
    pub characters: Vec<char>,
    /// Lowest frequency rank in the lesson.
    pub first_rank: u32,
    /// Highest frequency rank in the lesson.
    pub last_rank: u32,
}

/// The title of a lesson whose ranks run from `first` to `last`.
pub open spec fn lesson_title(first: u32, last: u32) -> Seq<char> {
    if first == last {
        "Character "@ + decimal(first as nat)
    } else {
        "Characters "@ + decimal(first as nat) + "\u{2013}"@ + decimal(last as nat)
    }
}

/// How many lessons of `size` the `n` ranked characters make: the last one
/// holds what is left.
pub open spec fn lesson_count(n: int, size: int) -> int {
    if n <= 0 {
        0
    } else {
        (n + size - 1) / size
    }
}

/// The lesson size used: at least one.
pub open spec fn used_size(lesson_size: usize) -> int {
    if lesson_size == 0 {
        1
    } else {
        lesson_size as int
    }
}

/// Lesson `i` holds the ranked characters from `i * size` up to the next
/// lesson's start or the end.
pub open spec fn lesson_is(l: Lesson, ranked: Seq<(char, u32)>, size: int, i: int) -> bool {
    let start = i * size;
    let end = if start + size < ranked.len() {
        start + size
    } else {
        ranked.len() as int
    };
    &&& l.index == i
    &&& l.characters@ == ranked.subrange(start, end).map_values(|p: (char, u32)| p.0)
    &&& l.first_rank == ranked[start].1
    &&& l.last_rank == ranked[end - 1].1
    &&& l.title@ == lesson_title(l.first_rank, l.last_rank)
}

fn title_of(first: u32, last: u32) -> (r: String)
    ensures
        r@ == lesson_title(first, last),
{
    if first == last {
        let mut t = "Character ".to_owned();
        append_str(&mut t, decimal_string(first as u64).as_str());
        t
    } else {
        let mut t = "Characters ".to_owned();
        append_str(&mut t, decimal_string(first as u64).as_str());
        append_str(&mut t, "\u{2013}");
        append_str(&mut t, decimal_string(last as u64).as_str());
        t
    }
}

/// Split the frequency-ranked characters into consecutive lessons.
///
/// `ranked` holds the characters that have both a frequency rank and stroke
/// geometry, in teaching order, each with its rank. A size of `0` is taken as
/// `1`.
pub fn lessons_from(ranked: &[(char, u32)], lesson_size: usize) -> (r: Vec<Lesson>)
    ensures
        r.len() == lesson_count(ranked.len() as int, used_size(lesson_size)),
        forall|i: int|
            0 <= i < r.len() ==> lesson_is(#[trigger] r[i], ranked@, used_size(lesson_size), i),
{
    let size: usize = if lesson_size == 0 {
        1
    } else {
        lesson_size
    };
    let mut lessons: Vec<Lesson> = Vec::new();
    let mut start: usize = 0;
    let mut index: usize = 0;
    while start < ranked.len()
        invariant
            size == used_size(lesson_size),
            size >= 1,
            index == lessons.len(),
            start <= ranked.len(),
            start == if index * size < ranked.len() {
                index * size
            } else {
                ranked.len() as int
            },
            index == 0 || (index - 1) * size < ranked.len(),
            forall|i: int| 0 <= i < index ==> lesson_is(#[trigger] lessons@[i], ranked@, size as int, i),
        decreases ranked.len() - start,
    {
        proof {
            assert(index * size == start);
            assert(index <= index * size) by (nonlinear_arith)
                requires
                    size >= 1,
            ;
        }
        let end: usize = if size < ranked.len() - start {
            start + size
        } else {
            ranked.len()
        };
        let mut characters: Vec<char> = Vec::new();
        let mut k: usize = start;
        while k < end
            invariant
                start <= k <= end <= ranked.len(),
                characters@ == ranked@.subrange(start as int, k as int).map_values(
                    |p: (char, u32)| p.0,
                ),
            decreases end - k,
        {
            characters.push(ranked[k].0);
            assert(characters@ =~= ranked@.subrange(start as int, k + 1).map_values(
                |p: (char, u32)| p.0,
            ));
            k += 1;
        }
        let first_rank = ranked[start].1;
        let last_rank = ranked[end - 1].1;
        let lesson = Lesson {
            index,
            title: title_of(first_rank, last_rank),
            characters,
            first_rank,
            last_rank,
        };
        let ghost before = lessons@;
        lessons.push(lesson);
        proof {
            crate::text::lemma_push(before, lesson);
            assert(lesson_is(lesson, ranked@, size as int, index as int));
            assert((index + 1) * size == index * size + size) by (nonlinear_arith);
        }
        start = end;
        index += 1;
    }
    proof {
        let n = ranked.len() as int;
        let s = size as int;
        let i = index as int;
        assert(i * s >= n);
        if n > 0 {
            assert(i > 0);
            assert((i - 1) * s < n);
            assert(lesson_count(n, s) == i) by (nonlinear_arith)
                requires
                    n > 0,
                    s >= 1,
                    i * s >= n,
                    (i - 1) * s < n,
                    lesson_count(n, s) == (n + s - 1) / s,
            ;
        } else {
            assert(i == 0) by (nonlinear_arith)
                requires
                    i == 0 || (i - 1) * s < n,
                    n == 0,
                    s >= 1,
                    i >= 0,
            ;
        }
    }
    lessons
}

/// The lesson at `index`, or `None` when there is none.
pub fn lesson_from(ranked: &[(char, u32)], lesson_size: usize, index: usize) -> (r: Option<Lesson>)
    ensures
        match r {
            Some(l) => index < lesson_count(ranked.len() as int, used_size(lesson_size))
                && lesson_is(l, ranked@, used_size(lesson_size), index as int),
            None => index >= lesson_count(ranked.len() as int, used_size(lesson_size)),
        },
{
    let mut lessons = lessons_from(ranked, lesson_size);
    if index < lessons.len() {
        Some(lessons.swap_remove(index))
    } else {
        None
    }
}


/// The characters the course teaches in `cs`, each with its rank, in order.
pub open spec fn ranked_pairs(cs: Seq<Character>) -> Seq<(char, u32)> {
    teachable_of(cs).map_values(|c: Character| (c.ch, c.rank))
}

fn course_of(dataset: &Dataset) -> (r: Vec<(char, u32)>)
    ensures
        r@ == ranked_pairs(dataset.characters()),
{
    let taught = dataset.ranked();
    let ghost t = teachable_of(dataset.characters());
    let mut out: Vec<(char, u32)> = Vec::new();
    let mut k: usize = 0;
    while k < taught.len()
        invariant
            k <= taught.len(),
            taught.len() == t.len(),
            forall|j: int| 0 <= j < taught.len() ==> *(#[trigger] taught@[j]) == t[j],
            out@ == t.take(k as int).map_values(|c: Character| (c.ch, c.rank)),
        decreases taught.len() - k,
    {
        let c = taught[k];
        out.push((c.ch, c.rank));
        assert(out@ =~= t.take(k + 1).map_values(|c: Character| (c.ch, c.rank)));
        k += 1;
    }
    assert(t.take(k as int) =~= t);
    out
}

/// Split the dataset's frequency-ranked characters, those the course teaches,
/// into consecutive lessons of `lesson_size` (a size of `0` is taken as `1`).
pub fn build_lessons(dataset: &Dataset, lesson_size: usize) -> (r: Vec<Lesson>)
    ensures
        r.len() == lesson_count(ranked_pairs(dataset.characters()).len() as int, used_size(lesson_size)),
        forall|i: int|
            0 <= i < r.len() ==> lesson_is(#[trigger] r[i], ranked_pairs(dataset.characters()), used_size(lesson_size), i),
{
    let course = course_of(dataset);
    lessons_from(course.as_slice(), lesson_size)
}

/// The dataset's lesson at `index`, or `None` past the end.
pub fn lesson_at(dataset: &Dataset, lesson_size: usize, index: usize) -> (r: Option<Lesson>)
    ensures
        match r {
            Some(l) => index < lesson_count(ranked_pairs(dataset.characters()).len() as int, used_size(lesson_size))
                && lesson_is(l, ranked_pairs(dataset.characters()), used_size(lesson_size), index as int),
            None => index >= lesson_count(ranked_pairs(dataset.characters()).len() as int, used_size(lesson_size)),
        },
{
    let course = course_of(dataset);
    lesson_from(course.as_slice(), lesson_size, index)
}

/// Character `k` of the ranked list is where the lessons say: in lesson
/// `k / size`, at place `k % size`.
pub open spec fn placed(lessons: Seq<Lesson>, ranked: Seq<(char, u32)>, size: int, k: int) -> bool {
    &&& 0 <= k / size < lessons.len()
    &&& k % size < lessons[k / size].characters.len()
    &&& lessons[k / size].characters@[k % size] == ranked[k].0
}

/// The lessons, read one after another, are the ranked characters: every
/// character is in exactly one lesson, in teaching order, and no lesson is
/// empty or larger than the size asked for.
pub proof fn law_the_lessons_partition_the_course(lessons: Seq<Lesson>, ranked: Seq<(char, u32)>, lesson_size: usize)
    requires
        lessons.len() == lesson_count(ranked.len() as int, used_size(lesson_size)),
        forall|i: int| 0 <= i < lessons.len() ==> lesson_is(#[trigger] lessons[i], ranked, used_size(lesson_size), i),
    ensures
        forall|i: int| 0 <= i < lessons.len() ==> 1 <= (#[trigger] lessons[i]).characters.len() <= used_size(lesson_size),
        forall|k: int| 0 <= k < ranked.len() ==> #[trigger] placed(lessons, ranked, used_size(lesson_size), k),
{
    let s = used_size(lesson_size);
    let n = ranked.len() as int;
    assert forall|i: int| 0 <= i < lessons.len() implies 1 <= (#[trigger] lessons[i]).characters.len() <= s by {
        assert(lesson_is(lessons[i], ranked, s, i));
        assert(i < (n + s - 1) / s);
        assert(i * s < n) by (nonlinear_arith)
            requires
                0 <= i,
                i < (n + s - 1) / s,
                s >= 1,
                n > 0,
        ;
    }
    assert forall|k: int| 0 <= k < ranked.len() implies #[trigger] placed(lessons, ranked, s, k) by {
        let i = k / s;
        assert(0 <= i);
        assert(i * s <= k < i * s + s && k % s == k - i * s) by (nonlinear_arith)
            requires
                i == k / s,
                s >= 1,
                k >= 0,
        ;
        assert(i < (n + s - 1) / s) by (nonlinear_arith)
            requires
                i * s <= k,
                k < n,
                s >= 1,
                i >= 0,
        ;
        assert(lesson_is(lessons[i], ranked, s, i));
        let start = i * s;
        let end = if start + s < n { start + s } else { n };
        assert(start <= k < end);
        let sub = ranked.subrange(start, end);
        assert(sub[k - start] == ranked[k]);
        assert(lessons[i].characters@ == sub.map_values(|p: (char, u32)| p.0));
        assert(lessons[i].characters@[k - start] == sub[k - start].0);
    }
}

} // verus!
