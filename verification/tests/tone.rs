use hanzi_core::tone::{is_scorable, tone_name, NEUTRAL_LIMIT};

#[test]
fn every_tone_has_a_name() {
    assert_eq!(tone_name(1), "high level");
    assert_eq!(tone_name(2), "rising");
    assert_eq!(tone_name(3), "dipping");
    assert_eq!(tone_name(4), "falling");
    assert_eq!(tone_name(5), "neutral");
    assert_eq!(tone_name(0), "unknown");
    assert_eq!(tone_name(6), "unknown");
}

#[test]
fn the_four_tones_and_neutral_can_be_judged() {
    assert!(!is_scorable(0));
    for tone in 1..=5u8 {
        assert!(is_scorable(tone));
    }
    assert!(!is_scorable(6));
    assert!(NEUTRAL_LIMIT.contains("not how high or how long"));
}

use hanzi_core::tone::{is_scored, word_summary, word_verdict, SyllableOutcome, ToneVerdict};

fn outcome(position: usize, expected_tone: u8, verdict: ToneVerdict) -> SyllableOutcome {
    SyllableOutcome { position, expected_tone, verdict }
}

#[test]
fn a_word_is_off_target_when_any_scored_syllable_is() {
    let word = [
        outcome(1, 3, ToneVerdict::Match),
        outcome(2, 2, ToneVerdict::Uncertain),
        outcome(3, 4, ToneVerdict::OffTarget),
    ];
    assert_eq!(word_verdict(&word), ToneVerdict::OffTarget);
    assert_eq!(word_summary(&word, ""), "1 of 3 tones are right; syllable 3 (tone 4) was wrong.");
}

#[test]
fn an_unclear_syllable_makes_the_word_uncertain() {
    let word = [outcome(1, 3, ToneVerdict::Match), outcome(2, 1, ToneVerdict::Uncertain)];
    assert_eq!(word_verdict(&word), ToneVerdict::Uncertain);
    assert_eq!(word_summary(&word, ""), "1 of 2 tones are right; syllable 2 (tone 1) was unclear.");
}

#[test]
fn a_neutral_syllable_is_reported_but_not_counted() {
    let word = [outcome(1, 4, ToneVerdict::Match), outcome(2, 5, ToneVerdict::OffTarget)];
    assert_eq!(word_verdict(&word), ToneVerdict::Match);
    assert_eq!(word_summary(&word, ""), "All 1 tones are right.");
    let nothing = [outcome(1, 5, ToneVerdict::Match)];
    assert_eq!(word_verdict(&nothing), ToneVerdict::Uncertain);
    assert_eq!(word_summary(&nothing, "said"), "Nothing in this could be scored.");
    assert_eq!(word_verdict(&[]), ToneVerdict::Uncertain);
    assert!(is_scored(4) && !is_scored(5) && !is_scored(0));
}

#[test]
fn a_single_syllable_is_reported_in_its_own_words() {
    let one = [outcome(1, 2, ToneVerdict::OffTarget)];
    assert_eq!(word_summary(&one, "That fell; tone 2 rises."), "That fell; tone 2 rises.");
}

use hanzi_core::tone::{judge_contour, ScoreSource};

#[test]
fn a_level_contour_is_right_for_tones_one_three_and_neutral() {
    let one = judge_contour(1, true, 0, false, false);
    assert_eq!(one.verdict, ToneVerdict::Match);
    assert_eq!(one.heard_tone, Some(1));
    assert_eq!(one.score, ScoreSource::FlatMatch);
    assert_eq!(
        one.detail,
        "A level tone — right for high level. Tone 3 is often flat like this in speech, so this counts whether you were aiming for 1 or 3."
    );
    let neutral = judge_contour(5, true, 0, false, true);
    assert_eq!(neutral.heard_tone, Some(5));
    assert_eq!(neutral.detail, format!("A level tone, which is what a neutral tone is. {NEUTRAL_LIMIT}"));
    let four = judge_contour(4, true, 0, false, false);
    assert_eq!(four.verdict, ToneVerdict::OffTarget);
    assert_eq!(four.score, ScoreSource::FlatOffTarget);
    assert_eq!(four.detail, "That was level, and the character asks for tone 4 (falling).");
}

#[test]
fn a_moving_contour_is_judged_by_the_nearest_shape() {
    let right = judge_contour(2, false, 2, false, false);
    assert_eq!(right.verdict, ToneVerdict::Match);
    assert_eq!(right.score, ScoreSource::Measured);
    assert_eq!(right.detail, "That is rising (tone 2), which is what the character asks for.");
    let shallow = judge_contour(2, false, 2, false, true);
    assert_eq!(
        shallow.detail,
        "That is rising (tone 2), which is what the character asks for. The movement was shallow — let the pitch travel further next time for a clearer tone."
    );
    let unclear = judge_contour(2, false, 3, true, true);
    assert_eq!(unclear.verdict, ToneVerdict::Uncertain);
    assert_eq!(
        unclear.detail,
        "Between tone 2 (rising) and tone 3 (dipping). Say it again, a little longer."
    );
    let wrong = judge_contour(2, false, 4, false, false);
    assert_eq!(wrong.verdict, ToneVerdict::OffTarget);
    assert_eq!(wrong.heard_tone, Some(4));
    assert_eq!(wrong.detail, "Heard falling, but the character asks for tone 2 (rising).");
    let neutral = judge_contour(5, false, 4, false, false);
    assert_eq!(neutral.verdict, ToneVerdict::OffTarget);
    assert_eq!(neutral.score, ScoreSource::FlatOffTarget);
    assert_eq!(neutral.detail, format!("Heard falling, but this asks for a neutral tone. {NEUTRAL_LIMIT}"));
}
