//! The tones, by name, and which of them a spoken syllable can be judged on.
//!
//! The pitch analysis itself measures in floating point and is not part of this
//! library; what it reports is worded with the names and the verdicts here.

use vstd::prelude::*;

use crate::text::{append_str, decimal, decimal_string};

verus! {

/// What a neutral-tone judgement can and cannot see, said to the learner every
/// time one is scored.
pub const NEUTRAL_LIMIT: &'static str =
    "A neutral tone is short and takes its pitch from the syllable before it, so this judges that it was level — not how high or how long it was.";

/// The name of a tone in a sentence.
pub open spec fn tone_words(tone: u8) -> Seq<char> {
    if tone == 1 {
        "high level"@
    } else if tone == 2 {
        "rising"@
    } else if tone == 3 {
        "dipping"@
    } else if tone == 4 {
        "falling"@
    } else if tone == 5 {
        "neutral"@
    } else {
        "unknown"@
    }
}

/// Name of a tone, for the interface to use in a sentence.
pub fn tone_name(tone: u8) -> (r: &'static str)
    ensures
        r@ == tone_words(tone),
{
    match tone {
        1 => "high level",
        2 => "rising",
        3 => "dipping",
        4 => "falling",
        5 => "neutral",
        _ => "unknown",
    }
}

/// Whether a tone can be judged at all: the four full tones, and neutral.
pub fn is_scorable(tone: u8) -> (r: bool)
    ensures
        r == (1 <= tone <= 5),
{
    1 <= tone && tone <= 5
}

/// What the attempt is judged to be.
#[derive(Clone, Copy, Debug, PartialEq, Eq, Structural)]
pub enum ToneVerdict {
    /// The expected tone is the one the contour looks most like.
    Match,
    /// Another tone's shape is clearly closer than the expected one.
    OffTarget,
    /// Not enough evidence to say, and it says so rather than guessing.
    Uncertain,
}

/// How one syllable of a word was judged: its place in the word, counting
/// from 1, the tone asked for, and the verdict on it.
#[derive(Clone, Copy, Debug, PartialEq, Eq, Structural)]
pub struct SyllableOutcome {
    pub position: usize,
    pub expected_tone: u8,
    pub verdict: ToneVerdict,
}

/// The syllable's tone is one of the four that are scored.
pub open spec fn scored(o: SyllableOutcome) -> bool {
    1 <= o.expected_tone <= 4
}

/// How many of the syllables are scored.
pub open spec fn scored_count(os: Seq<SyllableOutcome>) -> nat
    decreases os.len(),
{
    if os.len() == 0 {
        0
    } else {
        scored_count(os.drop_last()) + if scored(os.last()) {
            1nat
        } else {
            0nat
        }
    }
}

/// How many of the scored syllables have the verdict `v`.
pub open spec fn verdict_count(os: Seq<SyllableOutcome>, v: ToneVerdict) -> nat
    decreases os.len(),
{
    if os.len() == 0 {
        0
    } else {
        verdict_count(os.drop_last(), v) + if scored(os.last()) && os.last().verdict == v {
            1nat
        } else {
            0nat
        }
    }
}

/// The first scored syllable with the verdict `v`.
pub open spec fn first_with(os: Seq<SyllableOutcome>, v: ToneVerdict) -> Option<SyllableOutcome>
    decreases os.len(),
{
    if os.len() == 0 {
        None
    } else if first_with(os.drop_last(), v) is Some {
        first_with(os.drop_last(), v)
    } else if scored(os.last()) && os.last().verdict == v {
        Some(os.last())
    } else {
        None
    }
}

/// The verdict on a whole word: off target when any scored syllable is, else
/// uncertain when any is, else a match; uncertain when nothing is scored.
pub open spec fn verdict_of(os: Seq<SyllableOutcome>) -> ToneVerdict {
    if scored_count(os) == 0 {
        ToneVerdict::Uncertain
    } else if verdict_count(os, ToneVerdict::OffTarget) > 0 {
        ToneVerdict::OffTarget
    } else if verdict_count(os, ToneVerdict::Uncertain) > 0 {
        ToneVerdict::Uncertain
    } else {
        ToneVerdict::Match
    }
}

/// The sentence that reports a word: for a single syllable, what was said of
/// that syllable (`single`); otherwise how many tones were right and, when
/// not all, the first that was wrong, or else the first that was unclear.
pub open spec fn summary_of(os: Seq<SyllableOutcome>, single: Seq<char>) -> Seq<char> {
    let total = scored_count(os);
    let off = verdict_count(os, ToneVerdict::OffTarget);
    let unsure = verdict_count(os, ToneVerdict::Uncertain);
    if total == 0 {
        "Nothing in this could be scored."@
    } else if os.len() == 1 {
        single
    } else if off == 0 && unsure == 0 {
        "All "@ + decimal(total) + " tones are right."@
    } else {
        let worst = if off > 0 {
            first_with(os, ToneVerdict::OffTarget)->0
        } else {
            first_with(os, ToneVerdict::Uncertain)->0
        };
        let label = if off == 0 {
            "unclear"@
        } else {
            "wrong"@
        };
        decimal((total - off - unsure) as nat) + " of "@ + decimal(total) + " tones are right; syllable "@
            + decimal(worst.position as nat) + " (tone "@ + decimal(worst.expected_tone as nat) + ") was "@
            + label + "."@
    }
}

proof fn lemma_counts(os: Seq<SyllableOutcome>)
    ensures
        verdict_count(os, ToneVerdict::OffTarget) + verdict_count(os, ToneVerdict::Uncertain) <= scored_count(os),
        scored_count(os) <= os.len(),
        verdict_count(os, ToneVerdict::OffTarget) > 0 <==> first_with(os, ToneVerdict::OffTarget) is Some,
        verdict_count(os, ToneVerdict::Uncertain) > 0 <==> first_with(os, ToneVerdict::Uncertain) is Some,
    decreases os.len(),
{
    if os.len() > 0 {
        lemma_counts(os.drop_last());
    }
}

/// Whether a syllable of this tone counts towards a word's score: the four
/// full tones do; a neutral one is reported but not scored.
pub fn is_scored(tone: u8) -> (r: bool)
    ensures
        r == (1 <= tone <= 4),
{
    1 <= tone && tone <= 4
}

/// What was counted over the syllables.
struct Tally {
    total: u64,
    off: u64,
    unsure: u64,
    first_off: Option<SyllableOutcome>,
    first_unsure: Option<SyllableOutcome>,
}

fn tally(outcomes: &[SyllableOutcome]) -> (t: Tally)
    ensures
        t.total == scored_count(outcomes@),
        t.off == verdict_count(outcomes@, ToneVerdict::OffTarget),
        t.unsure == verdict_count(outcomes@, ToneVerdict::Uncertain),
        t.first_off == first_with(outcomes@, ToneVerdict::OffTarget),
        t.first_unsure == first_with(outcomes@, ToneVerdict::Uncertain),
{
    let mut t = Tally { total: 0, off: 0, unsure: 0, first_off: None, first_unsure: None };
    let mut i: usize = 0;
    while i < outcomes.len()
        invariant
            i <= outcomes.len(),
            t.total == scored_count(outcomes@.take(i as int)),
            t.off == verdict_count(outcomes@.take(i as int), ToneVerdict::OffTarget),
            t.unsure == verdict_count(outcomes@.take(i as int), ToneVerdict::Uncertain),
            t.first_off == first_with(outcomes@.take(i as int), ToneVerdict::OffTarget),
            t.first_unsure == first_with(outcomes@.take(i as int), ToneVerdict::Uncertain),
        decreases outcomes.len() - i,
    {
        proof {
            assert(outcomes@.take(i + 1).drop_last() =~= outcomes@.take(i as int));
            lemma_counts(outcomes@.take(i as int));
        }
        let o = outcomes[i];
        if 1 <= o.expected_tone && o.expected_tone <= 4 {
            t.total = t.total + 1;
            match o.verdict {
                ToneVerdict::OffTarget => {
                    t.off = t.off + 1;
                    if t.first_off.is_none() {
                        t.first_off = Some(o);
                    }
                },
                ToneVerdict::Uncertain => {
                    t.unsure = t.unsure + 1;
                    if t.first_unsure.is_none() {
                        t.first_unsure = Some(o);
                    }
                },
                ToneVerdict::Match => {},
            }
        }
        i += 1;
    }
    assert(outcomes@.take(i as int) =~= outcomes@);
    t
}

/// The verdict on a whole word, from the verdicts on its syllables.
pub fn word_verdict(outcomes: &[SyllableOutcome]) -> (r: ToneVerdict)
    ensures
        r == verdict_of(outcomes@),
{
    let t = tally(outcomes);
    if t.total == 0 {
        ToneVerdict::Uncertain
    } else if t.off > 0 {
        ToneVerdict::OffTarget
    } else if t.unsure > 0 {
        ToneVerdict::Uncertain
    } else {
        ToneVerdict::Match
    }
}

/// The sentence that reports a word, `single` being what was said of its only
/// syllable when it has one.
pub fn word_summary(outcomes: &[SyllableOutcome], single: &str) -> (r: String)
    ensures
        r@ == summary_of(outcomes@, single@),
{
    let t = tally(outcomes);
    proof {
        lemma_counts(outcomes@);
        reveal_strlit("Nothing in this could be scored.");
    }
    if t.total == 0 {
        return "Nothing in this could be scored.".to_owned();
    }
    if outcomes.len() == 1 {
        return single.to_owned();
    }
    if t.off == 0 && t.unsure == 0 {
        let mut m = "All ".to_owned();
        append_str(&mut m, decimal_string(t.total).as_str());
        append_str(&mut m, " tones are right.");
        return m;
    }
    let worst = if t.off > 0 {
        t.first_off.unwrap()
    } else {
        t.first_unsure.unwrap()
    };
    let mut m = decimal_string(t.total - t.off - t.unsure);
    append_str(&mut m, " of ");
    append_str(&mut m, decimal_string(t.total).as_str());
    append_str(&mut m, " tones are right; syllable ");
    append_str(&mut m, decimal_string(worst.position as u64).as_str());
    append_str(&mut m, " (tone ");
    append_str(&mut m, decimal_string(worst.expected_tone as u64).as_str());
    append_str(&mut m, ") was ");
    append_str(&mut m, if t.off == 0 { "unclear" } else { "wrong" });
    append_str(&mut m, ".");
    m
}

// ---------------------------------------------------------------------------
// Judging one contour
// ---------------------------------------------------------------------------

/// Where a judgement's score comes from: the fixed score of a level contour
/// taken as right or as wrong, or the one measured from how far the contour
/// is from the shape of the tone asked for.
#[derive(Clone, Copy, Debug, PartialEq, Eq, Structural)]
pub enum ScoreSource {
    FlatMatch,
    FlatOffTarget,
    Measured,
}

/// What is said of one syllable's pitch, and how it is judged.
#[derive(Clone, Debug)]
pub struct ContourJudgement {
    pub verdict: ToneVerdict,
    /// The tone the contour sounded like.
    pub heard_tone: Option<u8>,
    pub score: ScoreSource,
    /// The sentence that explains the verdict.
    pub detail: String,
}

/// A tone's name and number, as `tone 2 (rising)` words them.
pub open spec fn named(t: u8) -> Seq<char> {
    "tone "@ + decimal(t as nat) + " ("@ + tone_words(t) + ")"@
}

/// What is added to a right answer whose pitch barely moved.
pub open spec fn shallow_note() -> Seq<char> {
    " The movement was shallow — let the pitch travel further next time for a clearer tone."@
}

/// The judgement before any note on a shallow movement: the verdict, the tone
/// heard, where the score comes from, and the explanation.
pub open spec fn judged(expected: u8, flat: bool, heard: u8, close: bool) -> (ToneVerdict, Option<u8>, ScoreSource, Seq<char>) {
    if flat {
        if expected == 1 || expected == 3 {
            (
                ToneVerdict::Match,
                Some(1u8),
                ScoreSource::FlatMatch,
                "A level tone — right for "@ + tone_words(expected)
                    + ". Tone 3 is often flat like this in speech, so this counts whether you were aiming for 1 or 3."@,
            )
        } else if expected == 5 {
            (
                ToneVerdict::Match,
                Some(5u8),
                ScoreSource::FlatMatch,
                "A level tone, which is what a neutral tone is. "@ + NEUTRAL_LIMIT@,
            )
        } else {
            (
                ToneVerdict::OffTarget,
                Some(1u8),
                ScoreSource::FlatOffTarget,
                "That was level, and the character asks for "@ + named(expected) + "."@,
            )
        }
    } else if expected == 5 {
        (
            ToneVerdict::OffTarget,
            Some(heard),
            ScoreSource::FlatOffTarget,
            "Heard "@ + tone_words(heard) + ", but this asks for a neutral tone. "@ + NEUTRAL_LIMIT@,
        )
    } else if heard == expected {
        (
            ToneVerdict::Match,
            Some(heard),
            ScoreSource::Measured,
            "That is "@ + tone_words(expected) + " (tone "@ + decimal(expected as nat)
                + "), which is what the character asks for."@,
        )
    } else if close {
        (
            ToneVerdict::Uncertain,
            Some(heard),
            ScoreSource::Measured,
            "Between "@ + named(expected) + " and "@ + named(heard) + ". Say it again, a little longer."@,
        )
    } else {
        (
            ToneVerdict::OffTarget,
            Some(heard),
            ScoreSource::Measured,
            "Heard "@ + tone_words(heard) + ", but the character asks for "@ + named(expected) + "."@,
        )
    }
}

/// The whole judgement: a right answer whose pitch barely moved is told to
/// let it travel further.
pub open spec fn judgement_is(j: ContourJudgement, expected: u8, flat: bool, heard: u8, close: bool, shallow: bool) -> bool {
    let (v, h, sc, d) = judged(expected, flat, heard, close);
    &&& j.verdict == v
    &&& j.heard_tone == h
    &&& j.score == sc
    &&& j.detail@ == if v == ToneVerdict::Match && !flat && shallow {
        d + shallow_note()
    } else {
        d
    }
}

fn append_named(m: &mut String, t: u8)
    ensures
        final(m)@ == old(m)@ + named(t),
{
    append_str(m, "tone ");
    append_str(m, decimal_string(t as u64).as_str());
    append_str(m, " (");
    append_str(m, tone_name(t));
    append_str(m, ")");
}

/// How a contour is judged: a level contour is a match for tone 1, for tone 3
/// (often level in speech) and for a neutral tone, heard as tone 1 for the
/// first two and as neutral for the last, and off target for tones 2 and 4;
/// a moving contour is heard as the tone it is nearest, and is a match when
/// that is the tone asked for, uncertain when the tone asked for is nearly as
/// near, and off target otherwise, and always off target for a neutral tone.
pub proof fn law_a_level_contour_is_right_for_tones_one_three_and_neutral(
    expected: u8,
    flat: bool,
    heard: u8,
    close: bool,
)
    ensures
        ({
            let (v, h, sc, d) = judged(expected, flat, heard, close);
            &&& flat && (expected == 1 || expected == 3) ==> v == ToneVerdict::Match && h == Some(1u8)
                && sc == ScoreSource::FlatMatch
            &&& flat && expected == 5 ==> v == ToneVerdict::Match && h == Some(5u8) && sc
                == ScoreSource::FlatMatch
            &&& flat && !(expected == 1 || expected == 3 || expected == 5) ==> v
                == ToneVerdict::OffTarget && h == Some(1u8) && sc == ScoreSource::FlatOffTarget
            &&& !flat ==> h == Some(heard)
            &&& !flat && expected == 5 ==> v == ToneVerdict::OffTarget
            &&& !flat && expected != 5 ==> sc == ScoreSource::Measured && v == if heard
                == expected {
                ToneVerdict::Match
            } else if close {
                ToneVerdict::Uncertain
            } else {
                ToneVerdict::OffTarget
            }
        }),
{
}

/// Judge one syllable's pitch contour against the tone asked for; a moving
/// contour can only be judged against one of the five tones.
///
/// `flat` is whether the contour is level. Otherwise `heard` is the full tone
/// whose shape it is nearest, `close` whether the shape of the tone asked for
/// is within the deciding margin of that, and `shallow` whether the pitch
/// moved less than it should for a clear tone. A level contour is right for
/// tone 1, for tone 3 (often level in speech) and for a neutral tone; a
/// moving one is right when it is nearest the tone asked for, unclear when
/// the tone asked for is nearly as near, and wrong otherwise, and always
/// wrong for a neutral tone.
pub fn judge_contour(expected: u8, flat: bool, heard: u8, close: bool, shallow: bool) -> (r: ContourJudgement)
    requires
        flat || 1 <= expected <= 5,
    ensures
        judgement_is(r, expected, flat, heard, close, shallow),
        flat && (expected == 1 || expected == 3) ==> r.verdict == ToneVerdict::Match
            && r.heard_tone == Some(1u8) && r.score == ScoreSource::FlatMatch,
        flat && expected == 5 ==> r.verdict == ToneVerdict::Match && r.heard_tone == Some(5u8)
            && r.score == ScoreSource::FlatMatch,
        flat && !(expected == 1 || expected == 3 || expected == 5) ==> r.verdict
            == ToneVerdict::OffTarget && r.heard_tone == Some(1u8) && r.score
            == ScoreSource::FlatOffTarget,
        !flat ==> r.heard_tone == Some(heard),
        !flat && expected == 5 ==> r.verdict == ToneVerdict::OffTarget,
        !flat && expected != 5 ==> r.score == ScoreSource::Measured && r.verdict == if heard
            == expected {
            ToneVerdict::Match
        } else if close {
            ToneVerdict::Uncertain
        } else {
            ToneVerdict::OffTarget
        },
{
    proof {
        law_a_level_contour_is_right_for_tones_one_three_and_neutral(expected, flat, heard, close);
    }
    let (verdict, heard_tone, score, mut detail) = if flat {
        if expected == 1 || expected == 3 {
            let mut m = "A level tone — right for ".to_owned();
            append_str(&mut m, tone_name(expected));
            append_str(&mut m, ". Tone 3 is often flat like this in speech, so this counts whether you were aiming for 1 or 3.");
            (ToneVerdict::Match, Some(1u8), ScoreSource::FlatMatch, m)
        } else if expected == 5 {
            let mut m = "A level tone, which is what a neutral tone is. ".to_owned();
            append_str(&mut m, NEUTRAL_LIMIT);
            (ToneVerdict::Match, Some(5u8), ScoreSource::FlatMatch, m)
        } else {
            let mut m = "That was level, and the character asks for ".to_owned();
            append_named(&mut m, expected);
            append_str(&mut m, ".");
            (ToneVerdict::OffTarget, Some(1u8), ScoreSource::FlatOffTarget, m)
        }
    } else if expected == 5 {
        let mut m = "Heard ".to_owned();
        append_str(&mut m, tone_name(heard));
        append_str(&mut m, ", but this asks for a neutral tone. ");
        append_str(&mut m, NEUTRAL_LIMIT);
        (ToneVerdict::OffTarget, Some(heard), ScoreSource::FlatOffTarget, m)
    } else if heard == expected {
        let mut m = "That is ".to_owned();
        append_str(&mut m, tone_name(expected));
        append_str(&mut m, " (tone ");
        append_str(&mut m, decimal_string(expected as u64).as_str());
        append_str(&mut m, "), which is what the character asks for.");
        (ToneVerdict::Match, Some(heard), ScoreSource::Measured, m)
    } else if close {
        let mut m = "Between ".to_owned();
        append_named(&mut m, expected);
        append_str(&mut m, " and ");
        append_named(&mut m, heard);
        append_str(&mut m, ". Say it again, a little longer.");
        (ToneVerdict::Uncertain, Some(heard), ScoreSource::Measured, m)
    } else {
        let mut m = "Heard ".to_owned();
        append_str(&mut m, tone_name(heard));
        append_str(&mut m, ", but the character asks for ");
        append_named(&mut m, expected);
        append_str(&mut m, ".");
        (ToneVerdict::OffTarget, Some(heard), ScoreSource::Measured, m)
    };
    if verdict == ToneVerdict::Match && !flat && shallow {
        append_str(&mut detail, " The movement was shallow — let the pitch travel further next time for a clearer tone.");
    }
    ContourJudgement { verdict, heard_tone, score, detail }
}

proof fn lemma_no_faults(os: Seq<SyllableOutcome>)
    ensures
        (verdict_count(os, ToneVerdict::OffTarget) == 0 && verdict_count(os, ToneVerdict::Uncertain) == 0)
            <==> forall|k: int| 0 <= k < os.len() && scored(#[trigger] os[k]) ==> os[k].verdict == ToneVerdict::Match,
    decreases os.len(),
{
    if os.len() > 0 {
        lemma_no_faults(os.drop_last());
        let rest = os.drop_last();
        assert forall|k: int| 0 <= k < rest.len() implies rest[k] == os[k] by {}
        if verdict_count(os, ToneVerdict::OffTarget) == 0 && verdict_count(os, ToneVerdict::Uncertain) == 0 {
            assert forall|k: int| 0 <= k < os.len() && scored(#[trigger] os[k]) implies os[k].verdict == ToneVerdict::Match by {
                if k < rest.len() {
                    assert(rest[k] == os[k]);
                }
            }
        }
        if forall|k: int| 0 <= k < os.len() && scored(#[trigger] os[k]) ==> os[k].verdict == ToneVerdict::Match {
            assert forall|k: int| 0 <= k < rest.len() && scored(#[trigger] rest[k]) implies rest[k].verdict == ToneVerdict::Match by {
                assert(rest[k] == os[k]);
            }
            assert(scored(os.last()) ==> os[os.len() - 1].verdict == ToneVerdict::Match);
        }
    }
}

/// A word is a match exactly when something in it is scored and every
/// scored syllable is a match; a neutral syllable neither makes nor spoils it.
pub proof fn law_a_word_matches_only_when_every_scored_syllable_does(os: Seq<SyllableOutcome>)
    ensures
        verdict_of(os) == ToneVerdict::Match <==> (scored_count(os) > 0 && forall|k: int|
            0 <= k < os.len() && scored(#[trigger] os[k]) ==> os[k].verdict == ToneVerdict::Match),
{
    lemma_no_faults(os);
}

} // verus!
