//! Stroke-order analysis of a graded attempt.
//!
//! Which strokes were drawn out of order is a question about a permutation: the
//! sequence holds, for each stroke in the order it was drawn, the index of the
//! reference stroke it was matched to. A pair drawn the wrong way round is an
//! inversion, and a stroke is out of order exactly when it is half of one.

use vstd::prelude::*;

verus! {

/// What went wrong with one reference stroke.
#[derive(Clone, Copy, Debug, PartialEq, Eq, Structural)]
pub enum Verdict {
    /// Written correctly, in the right order.
    Correct,
    /// Right stroke in roughly the right place, but the shape is wrong.
    ShapeOff,
    /// Recognisable stroke, but in the wrong place or the wrong size.
    PositionOff,
    /// Drawn back to front.
    WrongDirection,
    /// Correct stroke, written at the wrong point in the sequence.
    OutOfOrder,
    /// The right stroke in the right place, but not enough ink.
    Faint,
    /// Never written.
    Missing,
}

impl Verdict {
    /// Anything but a correct stroke.
    pub fn is_error(self) -> (r: bool)
        ensures
            r == (self != Verdict::Correct),
    {
        self != Verdict::Correct
    }
}

/// Overall quality band for an attempt.
#[derive(Clone, Copy, Debug, PartialEq, Eq, Structural)]
pub enum Grade {
    Excellent,
    Good,
    Fair,
    Poor,
}

/// How many strokes after `i`, before `j`, belong before stroke `i`.
pub open spec fn inverted_after(s: Seq<usize>, i: int, j: int) -> nat
    decreases j - i,
{
    if j <= i + 1 {
        0
    } else {
        inverted_after(s, i, j - 1) + if s[i] > s[j - 1] {
            1nat
        } else {
            0nat
        }
    }
}

/// How many pairs `i < j`, with `i` among the first `n` strokes, are drawn the
/// wrong way round.
pub open spec fn inversions(s: Seq<usize>, n: int) -> nat
    decreases n,
{
    if n <= 0 {
        0
    } else {
        inversions(s, n - 1) + inverted_after(s, n - 1, s.len() as int)
    }
}

/// Stroke `i` is half of a pair drawn the wrong way round.
pub open spec fn inverted(s: Seq<usize>, i: int) -> bool {
    exists|j: int| 0 <= j < s.len() && ((j < i && s[j] > s[i]) || (i < j && s[i] > s[j]))
}

proof fn lemma_inverted_after_bound(s: Seq<usize>, i: int, j: int)
    ensures
        inverted_after(s, i, j) <= if j > i {
            j - i
        } else {
            0
        },
    decreases j - i,
{
    if j > i + 1 {
        lemma_inverted_after_bound(s, i, j - 1);
    }
}

proof fn lemma_inverted_after_zero(s: Seq<usize>, i: int, j: int)
    requires
        0 <= i,
        j <= s.len(),
    ensures
        inverted_after(s, i, j) == 0 <==> forall|k: int| i < k < j ==> s[i] <= s[k],
    decreases j - i,
{
    if j > i + 1 {
        lemma_inverted_after_zero(s, i, j - 1);
    }
}

proof fn lemma_inversions_zero(s: Seq<usize>, n: int)
    requires
        0 <= n <= s.len(),
    ensures
        inversions(s, n) == 0 <==> forall|i: int, k: int| 0 <= i < n && i < k < s.len() ==> s[i]
            <= s[k],
    decreases n,
{
    if n > 0 {
        lemma_inversions_zero(s, n - 1);
        lemma_inverted_after_zero(s, n - 1, s.len() as int);
        if inversions(s, n) == 0 {
            assert forall|i: int, k: int| 0 <= i < n && i < k < s.len() implies s[i] <= s[k] by {
                if i < n - 1 {
                } else {
                    assert(i == n - 1);
                }
            }
        }
    }
}

/// Number of pairs `i < j` with `sequence[i] > sequence[j]`.
pub fn inversion_count(sequence: &[usize]) -> (r: usize)
    requires
        sequence.len() * sequence.len() <= usize::MAX,
    ensures
        r == inversions(sequence@, sequence.len() as int),
{
    let n = sequence.len();
    let mut count: usize = 0;
    let mut i: usize = 0;
    while i < n
        invariant
            n == sequence.len(),
            n * n <= usize::MAX,
            i <= n,
            count == inversions(sequence@, i as int),
            count <= i * n,
        decreases n - i,
    {
        let mut j: usize = i + 1;
        let ghost base = count;
        while j < n
            invariant
                n == sequence.len(),
                n * n <= usize::MAX,
                i < n,
                i + 1 <= j <= n,
                base <= i * n,
                count == base + inverted_after(sequence@, i as int, j as int),
                count <= base + (j - i - 1),
            decreases n - j,
        {
            if sequence[i] > sequence[j] {
                assert(count + 1 <= usize::MAX) by (nonlinear_arith)
                    requires
                        count <= base + (j - i - 1),
                        base <= i * n,
                        i < n,
                        j < n,
                        n * n <= usize::MAX,
                ;
                count += 1;
            }
            j += 1;
        }
        proof {
            assert(count <= i * n + n) by (nonlinear_arith)
                requires
                    count <= base + (n - i - 1),
                    base <= i * n,
                    i < n,
            ;
            assert(i * n + n == (i + 1) * n) by (nonlinear_arith);
        }
        i += 1;
    }
    count
}

/// Which strokes in a draw-order sequence are out of order.
///
/// A stroke is flagged exactly when it is half of an inversion: some stroke
/// drawn before it belongs after it, or some stroke drawn after it belongs
/// before it. Both halves of a swap are flagged.
pub fn out_of_order_flags(sequence: &[usize]) -> (flags: Vec<bool>)
    ensures
        flags.len() == sequence.len(),
        forall|i: int| 0 <= i < sequence.len() ==> flags[i] == inverted(sequence@, i),
{
    let n = sequence.len();
    let mut flags: Vec<bool> = Vec::new();
    let mut k: usize = 0;
    while k < n
        invariant
            k <= n,
            flags.len() == k,
            forall|m: int| 0 <= m < k ==> !flags[m],
        decreases n - k,
    {
        flags.push(false);
        k += 1;
    }
    let mut i: usize = 0;
    while i < n
        invariant
            n == sequence.len(),
            i <= n,
            flags.len() == n,
            forall|m: int|
                0 <= m < n ==> flags[m] == exists|a: int, b: int|
                    0 <= a < i && a < b < n && sequence@[a] > sequence@[b] && (m == a || m == b),
        decreases n - i,
    {
        let mut j: usize = i + 1;
        while j < n
            invariant
                n == sequence.len(),
                i < n,
                i + 1 <= j <= n,
                flags.len() == n,
                forall|m: int|
                    0 <= m < n ==> flags[m] == exists|a: int, b: int|
                        0 <= a && a < b < n && sequence@[a] > sequence@[b] && (m == a || m == b)
                            && (a < i || (a == i && b < j)),
            decreases n - j,
        {
            if sequence[i] > sequence[j] {
                flags.set(i, true);
                flags.set(j, true);
            }
            j += 1;
        }
        i += 1;
    }
    proof {
        assert forall|m: int| 0 <= m < n implies flags[m] == inverted(sequence@, m) by {
            if flags[m] {
                let (a, b) = choose|a: int, b: int|
                    0 <= a < n && a < b < n && sequence@[a] > sequence@[b] && (m == a || m == b);
                if m == a {
                    assert(m < b && sequence@[m] > sequence@[b]);
                } else {
                    assert(a < m && sequence@[a] > sequence@[m]);
                }
            }
            if inverted(sequence@, m) {
                let j = choose|j: int|
                    0 <= j < sequence.len() && ((j < m && sequence@[j] > sequence@[m]) || (m < j
                        && sequence@[m] > sequence@[j]));
                if j < m {
                    assert(0 <= j < n && j < m < n && sequence@[j] > sequence@[m] && (m == j
                        || m == m));
                } else {
                    assert(0 <= m < n && m < j < n && sequence@[m] > sequence@[j] && (m == m
                        || m == j));
                }
            }
        }
    }
    flags
}

/// A sequence has no inversions exactly when no stroke in it is flagged out of
/// order: the flags and the count describe the same pairs.
pub proof fn law_no_inversions_exactly_when_nothing_is_flagged(s: Seq<usize>)
    ensures
        inversions(s, s.len() as int) == 0 <==> forall|i: int| 0 <= i < s.len() ==> !inverted(s, i),
{
    lemma_inversions_zero(s, s.len() as int);
    if inversions(s, s.len() as int) != 0 {
        let (i, k) = choose|i: int, k: int| 0 <= i < s.len() && i < k < s.len() && s[i] > s[k];
        assert(inverted(s, i));
    }
}

// ---------------------------------------------------------------------------
// Verdicts
// ---------------------------------------------------------------------------

/// The verdict on a matched stroke, from what was judged of it: the worst
/// fault wins, the wrong shape before the wrong place, before the wrong
/// direction, before the wrong turn in the order, before too little ink.
pub open spec fn verdict_for(
    shape_ok: bool,
    position_ok: bool,
    reversed: bool,
    out_of_order: bool,
    enough_ink: bool,
) -> Verdict {
    if !shape_ok {
        Verdict::ShapeOff
    } else if !position_ok {
        Verdict::PositionOff
    } else if reversed {
        Verdict::WrongDirection
    } else if out_of_order {
        Verdict::OutOfOrder
    } else if !enough_ink {
        Verdict::Faint
    } else {
        Verdict::Correct
    }
}

/// Faults rank: a stroke of the wrong shape is judged for its shape alone;
/// one of the right shape in the wrong place, for its place; one of the right
/// shape and place that runs back to front is judged for its direction,
/// however its order and ink stand; then comes the order, then the ink. A
/// stroke is correct exactly when it has none of these faults, and a stroke
/// that was matched is never missing.
pub proof fn law_the_worst_fault_decides_the_verdict(
    shape_ok: bool,
    position_ok: bool,
    reversed: bool,
    out_of_order: bool,
    enough_ink: bool,
)
    ensures
        ({
            let v = verdict_for(shape_ok, position_ok, reversed, out_of_order, enough_ink);
            &&& (v == Verdict::ShapeOff) == !shape_ok
            &&& (v == Verdict::PositionOff) == (shape_ok && !position_ok)
            &&& (v == Verdict::WrongDirection) == (shape_ok && position_ok && reversed)
            &&& (v == Verdict::OutOfOrder) == (shape_ok && position_ok && !reversed && out_of_order)
            &&& (v == Verdict::Faint) == (shape_ok && position_ok && !reversed && !out_of_order
                && !enough_ink)
            &&& (v == Verdict::Correct) == (shape_ok && position_ok && !reversed && !out_of_order
                && enough_ink)
            &&& v != Verdict::Missing
        }),
{
}

/// The verdict on a matched stroke, the worst fault first.
pub fn stroke_verdict(
    shape_ok: bool,
    position_ok: bool,
    reversed: bool,
    out_of_order: bool,
    enough_ink: bool,
) -> (r: Verdict)
    ensures
        r == verdict_for(shape_ok, position_ok, reversed, out_of_order, enough_ink),
        (r == Verdict::ShapeOff) == !shape_ok,
        (r == Verdict::PositionOff) == (shape_ok && !position_ok),
        (r == Verdict::WrongDirection) == (shape_ok && position_ok && reversed),
        (r == Verdict::OutOfOrder) == (shape_ok && position_ok && !reversed && out_of_order),
        (r == Verdict::Faint) == (shape_ok && position_ok && !reversed && !out_of_order
            && !enough_ink),
        (r == Verdict::Correct) == (shape_ok && position_ok && !reversed && !out_of_order
            && enough_ink),
        r != Verdict::Missing,
{
    proof {
        law_the_worst_fault_decides_the_verdict(shape_ok, position_ok, reversed, out_of_order, enough_ink);
    }
    if !shape_ok {
        Verdict::ShapeOff
    } else if !position_ok {
        Verdict::PositionOff
    } else if reversed {
        Verdict::WrongDirection
    } else if out_of_order {
        Verdict::OutOfOrder
    } else if !enough_ink {
        Verdict::Faint
    } else {
        Verdict::Correct
    }
}

/// The first stroke, in the reference's order, whose verdict is a fault:
/// where the feedback starts.
pub fn first_error(verdicts: &[Verdict]) -> (r: Option<usize>)
    ensures
        match r {
            Some(i) => i < verdicts.len() && verdicts@[i as int] != Verdict::Correct && forall|j: int|
                0 <= j < i ==> verdicts@[j] == Verdict::Correct,
            None => forall|j: int| 0 <= j < verdicts.len() ==> verdicts@[j] == Verdict::Correct,
        },
{
    let mut i: usize = 0;
    while i < verdicts.len()
        invariant
            i <= verdicts.len(),
            forall|j: int| 0 <= j < i ==> verdicts@[j] == Verdict::Correct,
        decreases verdicts.len() - i,
    {
        if verdicts[i].is_error() {
            return Some(i);
        }
        i += 1;
    }
    None
}

/// An attempt is perfect when it has the right number of strokes, in the
/// right order, and every stroke is correct.
pub fn is_perfect(count_ok: bool, order_correct: bool, verdicts: &[Verdict]) -> (r: bool)
    ensures
        r == (count_ok && order_correct && forall|j: int| 0 <= j < verdicts.len() ==> verdicts@[j] == Verdict::Correct),
{
    count_ok && order_correct && first_error(verdicts).is_none()
}

} // verus!
