use hanzi_core::pinyin::{
    aligned_reading, base, heard_against, heard_against_readings, mark_syllable, mark_tone_at,
    spoken_tones, syllables, syllables_with_spans, tone_from_pinyin, tone_target,
};


fn split(reading: &str) -> Vec<String> {
    syllables(reading)
        .unwrap_or_else(|| panic!("{reading} should split"))
        .into_iter()
        .map(|s| s.text)
        .collect()
}

fn tones(reading: &str) -> Vec<u8> {
    syllables(reading)
        .unwrap_or_else(|| panic!("{reading} should split"))
        .into_iter()
        .map(|s| s.tone)
        .collect()
}

#[test]
fn a_single_syllable_is_left_whole() {
    assert_eq!(split("hǎo"), ["hǎo"]);
    assert_eq!(split("yī"), ["yī"]);
    assert_eq!(split("ér"), ["ér"]);
    assert_eq!(split("de"), ["de"]);
    assert_eq!(split("xian"), ["xian"], "xian is one syllable");
    assert_eq!(split("zhuāng"), ["zhuāng"]);
    assert_eq!(split("xióng"), ["xióng"]);
}

#[test]
fn syllables_are_split_at_the_vowel_runs() {
    assert_eq!(split("xuéxí"), ["xué", "xí"]);
    assert_eq!(split("zháojí"), ["zháo", "jí"]);
    assert_eq!(split("nǐhǎo"), ["nǐ", "hǎo"]);
    assert_eq!(split("bùcuò"), ["bù", "cuò"]);
    assert_eq!(split("shénme"), ["shén", "me"]);
    assert_eq!(split("péngyou"), ["péng", "you"]);
    assert_eq!(split("yīdiǎn"), ["yī", "diǎn"]);
    assert_eq!(split("wǒmen"), ["wǒ", "men"]);
}

#[test]
fn a_leading_consonant_of_the_next_syllable_is_not_a_coda() {
    // The `n` in `nián` is an initial, not the coda of `qù`.
    assert_eq!(split("qùnián"), ["qù", "nián"]);
    assert_eq!(split("kànkan"), ["kàn", "kan"]);
    // `r` likewise: a coda in `ér`, an initial in `rén`.
    assert_eq!(split("érzi"), ["ér", "zi"]);
    assert_eq!(split("nǚrén"), ["nǚ", "rén"]);
    assert_eq!(tones("nǚrén"), [3, 2]);
}

#[test]
fn an_apostrophe_is_a_hard_boundary() {
    assert_eq!(split("xi'an"), ["xi", "an"]);
    assert_eq!(split("xī'ān"), ["xī", "ān"]);
    assert_eq!(split("píng'ān"), ["píng", "ān"]);
    // And the same letters without it are one syllable.
    assert_eq!(split("xiān"), ["xiān"]);
    assert_eq!(split("nǐ hǎo"), ["nǐ", "hǎo"]);
}

#[test]
fn tones_are_read_from_the_marks() {
    assert_eq!(tones("hǎo"), [3]);
    assert_eq!(tones("shì"), [4]);
    assert_eq!(tones("xuéxí"), [2, 2]);
    assert_eq!(tones("lǜ"), [4]);
    assert_eq!(tones("nǐhǎo"), [3, 3]);
    assert_eq!(tones("māma"), [1, 5], "no mark on the second is neutral");
    assert_eq!(tones("péngyou"), [2, 5]);
}

#[test]
fn an_unreadable_reading_is_refused() {
    assert!(syllables("").is_none());
    assert!(syllables("   ").is_none());
    // No vowel at all: a consonant run, not a syllable.
    assert!(syllables("xyz").is_none());
    // Two marks in one run is two syllables run together, which is not one.
    assert!(syllables("hǎohǎo").is_none() || split("hǎohǎo").len() == 2);
}

#[test]
fn tone_from_pinyin_reads_one_syllable_and_refuses_more() {
    assert_eq!(tone_from_pinyin("hǎo"), Some(3));
    assert_eq!(tone_from_pinyin("shì"), Some(4));
    assert_eq!(tone_from_pinyin("lǜ"), Some(4));
    assert_eq!(tone_from_pinyin("de"), Some(5));
    // Several syllables: a different question, refused rather than halved.
    assert_eq!(tone_from_pinyin("nǐhǎo"), None);
    assert_eq!(tone_from_pinyin("xuexi"), None);
    assert_eq!(tone_from_pinyin("nǐ hǎo"), None);
    assert_eq!(tone_from_pinyin(""), None);
}

#[test]
fn a_reading_aligns_one_syllable_per_character() {
    // The pairing a tone colour reads: one syllable per character, in order.
    let aligned = aligned_reading("学习", "xuéxí").expect("two and two");
    let readings: Vec<&str> = aligned.iter().map(|s| s.text.as_str()).collect();
    assert_eq!(readings, ["xué", "xí"]);
    let tones: Vec<u8> = aligned.iter().map(|s| s.tone).collect();
    assert_eq!(tones, [2, 2]);

    // Neutral syllables are carried, not dropped: 的 is `de`, and 的话 is
    // `dehuà` — the case a split driven by tone marks alone gets wrong.
    let aligned = aligned_reading("的话", "dehuà").expect("two and two");
    assert_eq!(aligned.iter().map(|s| s.tone).collect::<Vec<_>>(), [5, 4]);

    // Apostrophes are boundaries, so a caller composing readings still aligns.
    let aligned = aligned_reading("一天", "yī'tiān").expect("two and two");
    assert_eq!(aligned.iter().map(|s| s.tone).collect::<Vec<_>>(), [1, 1]);
}

#[test]
fn a_reading_that_does_not_divide_one_per_character_is_refused() {
    // The refusal that makes colouring safe: a misaligned reading is not
    // paired up anyway, because that would put a tone on the wrong glyph.
    assert!(aligned_reading("学习", "xué").is_none(), "one syllable, two characters");
    assert!(aligned_reading("学习", "xuéxíxí").is_none(), "three for two");
    assert!(aligned_reading("学习", "").is_none());
    assert!(aligned_reading("", "xué").is_none());
    // A character the reading cannot account for — punctuation, or a glyph
    // with no reading — leaves the two out of step, and that is refused too.
    assert!(aligned_reading("你好吗", "nǐhǎo").is_none());
    // A run that is not a syllable at all is refused by `syllables`, not here.
    assert!(aligned_reading("xy", "xyz").is_none());
}

#[test]
fn third_tone_before_third_tone_becomes_second() {
    let chars: Vec<char> = "你好".chars().collect();
    assert_eq!(spoken_tones(&chars, &[3, 3]), [2, 3]);

    // A run shortens all but its last.
    let chars: Vec<char> = "我很好".chars().collect();
    assert_eq!(spoken_tones(&chars, &[3, 3, 3]), [2, 2, 3]);

    // A single third tone, and a pair broken by another tone, are untouched.
    let chars: Vec<char> = "好".chars().collect();
    assert_eq!(spoken_tones(&chars, &[3]), [3]);
    let chars: Vec<char> = "很高".chars().collect();
    assert_eq!(spoken_tones(&chars, &[3, 1]), [3, 1]);
}

#[test]
fn bu_becomes_second_before_a_fourth_tone_only() {
    let chars: Vec<char> = "不是".chars().collect();
    assert_eq!(spoken_tones(&chars, &[4, 4]), [2, 4]);

    // Before anything else it stays fourth.
    let chars: Vec<char> = "不好".chars().collect();
    assert_eq!(spoken_tones(&chars, &[4, 3]), [4, 3]);

    // And a 不 that is not tone 4 in the dictionary is left alone.
    let chars: Vec<char> = "不".chars().collect();
    assert_eq!(spoken_tones(&chars, &[4]), [4]);
}

#[test]
fn yi_changes_with_what_follows_it() {
    // Before a fourth tone it is second.
    let chars: Vec<char> = "一个".chars().collect();
    assert_eq!(spoken_tones(&chars, &[1, 4]), [2, 4]);
    // Before anything else it is fourth.
    let chars: Vec<char> = "一天".chars().collect();
    assert_eq!(spoken_tones(&chars, &[1, 1]), [4, 1]);
    let chars: Vec<char> = "一起".chars().collect();
    assert_eq!(spoken_tones(&chars, &[1, 3]), [4, 3]);
    // Alone or final, it stays first.
    let chars: Vec<char> = "一".chars().collect();
    assert_eq!(spoken_tones(&chars, &[1]), [1]);
    let chars: Vec<char> = "第一".chars().collect();
    assert_eq!(spoken_tones(&chars, &[4, 1]), [4, 1], "final 一 is untouched");
}

#[test]
fn a_target_carries_both_readings_and_the_sandhi_sentence() {
    let target = tone_target("你好", "nǐhǎo").expect("你好 reads as two syllables");
    assert_eq!(target.spoken(), [2, 3]);
    assert!(target.sandhi_applied);
    assert_eq!(target.syllables[0].citation, 3);
    assert_eq!(target.syllables[0].spoken, 2);
    assert_eq!(target.syllables[0].reading, "nǐ");
    assert_eq!(target.syllables[0].ch, '你');
    assert!(
        target.detail.contains("2 + 3") && target.detail.contains("3 + 3"),
        "the sentence must give both readings: {}",
        target.detail
    );

    // A word with no sandhi says so quietly.
    let plain = tone_target("学习", "xuéxí").expect("学习 reads as two syllables");
    assert_eq!(plain.spoken(), [2, 2]);
    assert!(!plain.sandhi_applied);
    assert!(plain.detail.contains("2 + 2"), "{}", plain.detail);
}

#[test]
fn a_target_refuses_a_mismatch_between_syllables_and_characters() {
    // Two characters, one syllable: the reading cannot be aligned, so it is
    // refused rather than scored against the wrong character.
    assert!(tone_target("学习", "xué").is_none());
    assert!(tone_target("学习", "").is_none());
    assert!(tone_target("", "xué").is_none());
    // Three syllables for two characters, likewise.
    assert!(tone_target("学习", "xuéxíxí").is_none());
}

#[test]
fn a_reading_of_particles_is_still_a_target() {
    // 的 is the neutral tone. It used to be refused here — "real, and not
    // something to score" — which left the most common character in the
    // language as the one the tone panel would not look at. Neutral tones
    // are scored now, on being level.
    let target = tone_target("的", "de").expect("a neutral reading is a target");
    assert_eq!(target.spoken(), vec![5]);
    assert_eq!(target.scorable(), 1);
    assert!(!target.sandhi_applied);
    assert!(target.detail.contains("neutral"), "{}", target.detail);

    // A word that mixes them keeps both, and both count.
    assert_eq!(tone_target("妈妈", "māma").map(|t| t.spoken()), Some(vec![1, 5]));
    assert_eq!(tone_target("妈妈", "māma").map(|t| t.scorable()), Some(2));
}

#[test]
fn sandhi_does_not_apply_across_an_apostrophe_free_join() {
    // 一 + 天 as composed readings, joined with an apostrophe by the caller,
    // still splits and still takes sandhi.
    let target = tone_target("一天", "yī'tiān").expect("joined readings still split");
    assert_eq!(target.spoken(), [4, 1]);
    assert_eq!(target.syllables.len(), 2);
}

#[test]
fn a_base_reading_drops_the_tone_but_not_the_umlaut() {
    assert_eq!(base("nǐ"), "ni");
    assert_eq!(base("hǎo"), "hao");
    assert_eq!(base("shì"), "shi");
    assert_eq!(base("de"), "de");
    // 嗯 is `ń`: a syllable with no vowel letter at all.
    assert_eq!(base("ń"), "n");
    // The reason `ü` is not folded into `u`: 女 nǚ and 努 nǔ are different
    // syllables, and calling them the same sound would call a wrong syllable
    // right.
    assert_eq!(base("nǚ"), "nv");
    assert_eq!(base("nǔ"), "nu");
    assert_ne!(base("nǚ"), base("nǔ"));
}

#[test]
fn hearing_what_was_asked_for_says_so() {
    let target = tone_target("你好", "nǐhǎo").expect("你好 is a target");
    let heard = heard_against("你好", "nǐhǎo", &target);
    assert!(heard.all_matched());
    assert_eq!(heard.matched, 2);
    assert_eq!(heard.base, "ni hao");
    assert_eq!(heard.text, "你好");
    assert!(heard.same_count);
    // The wording has to keep the transcription and the tone apart: the
    // recogniser did not judge the tone and must not be presented as if it
    // had.
    assert!(heard.detail.contains("ni hao"), "{}", heard.detail);
    assert!(heard.detail.contains("not a judgement of the tone"), "{}", heard.detail);
}

#[test]
fn a_homophone_is_the_same_syllable_and_a_different_one_is_not() {
    // 是 and 事 are both `shì`. A recogniser picking the other character has
    // still heard the right syllable, which is why the comparison is by
    // reading and not by character — this is the whole reason `heard_against`
    // exists.
    let target = tone_target("是", "shì").expect("是 is a target");
    let homophone = heard_against("事", "shì", &target);
    assert!(homophone.all_matched(), "{}", homophone.detail);
    assert_ne!(homophone.text, "是");

    // sì and shì are different syllables, and that is what a learner needs
    // to be told.
    let target = tone_target("四", "sì").expect("四 is a target");
    let wrong = heard_against("是", "shì", &target);
    assert!(!wrong.all_matched());
    assert_eq!(wrong.matched, 0);
    assert_eq!(wrong.syllables[0].base, "shi");
    assert_eq!(wrong.syllables[0].wanted, "si");
    // The reading keeps its tone mark so the character is identifiable; the
    // *comparison* is still on `base`, which has none.
    assert_eq!(wrong.syllables[0].reading, "shì");
    assert_eq!(wrong.syllables[0].wanted_reading, "sì");
    assert!(wrong.detail.contains("shì where si was asked for"), "{}", wrong.detail);
}

#[test]
fn a_syllable_can_match_the_sound_at_a_different_tone() {
    // `mǎ` asked for, `mā` heard: `matches` is true because the sound is the
    // same, and both readings keep their marks so the interface can show which
    // one the model actually produced — the difference the sound comparison
    // deliberately cannot see.
    let target = tone_target("马", "mǎ").expect("马 is a target");
    let heard = heard_against("妈", "mā", &target);
    assert!(heard.syllables[0].matches, "ma and ma are the same sound");
    assert_eq!(heard.syllables[0].base, "ma");
    assert_eq!(heard.syllables[0].wanted, "ma");
    assert_eq!(heard.syllables[0].reading, "mā");
    assert_eq!(heard.syllables[0].wanted_reading, "mǎ");
}

#[test]
fn a_syllable_heard_differently_keeps_its_dictionary_tone_mark() {
    // `cong` alone is ambiguous between 从, 葱 and 匆. The tone mark is what
    // identifies the character the model wrote, which is the one thing a
    // learner needs in order to act on "it heard a different syllable".
    let target = tone_target("中", "zhōng").expect("中 is a target");
    let heard = heard_against("从", "cóng", &target);
    assert_eq!(heard.matched, 0);
    assert_eq!(heard.syllables[0].base, "cong");
    assert_eq!(heard.syllables[0].reading, "cóng");
    assert!(
        heard.detail.contains("cóng where zhong was asked for"),
        "{}",
        heard.detail
    );
}

#[test]
fn a_syllable_that_matched_is_not_given_a_tone_mark() {
    // 妈 `mā` where 马 `mǎ` was asked for: the sound `ma` matched, so nothing
    // is claimed about the tone of the learner's voice. The model's own
    // reading still carries its tone, and that is exactly what the sentence
    // must not print on a match.
    let target = tone_target("马", "mǎ").expect("马 is a target");
    let heard = heard_against("妈", "mā", &target);
    assert!(heard.all_matched());
    assert_eq!(heard.syllables[0].reading, "mā");
    assert!(
        heard.detail.contains("Heard ma:"),
        "the matched syllable is not tone-marked: {}",
        heard.detail
    );
}

#[test]
fn the_wrong_number_of_syllables_is_reported_rather_than_aligned() {
    let target = tone_target("你好", "nǐhǎo").expect("你好 is a target");
    let heard = heard_against("你", "nǐ", &target);
    assert!(!heard.same_count);
    assert!(!heard.all_matched());
    assert!(heard.detail.contains("2 syllables"), "{}", heard.detail);
    assert!(heard.detail.contains("ni"), "{}", heard.detail);
}

#[test]
fn a_transcription_that_cannot_be_split_is_refused() {
    // Two characters, one syllable: comparing them in order would report a
    // syllable the learner never said. The same refusal `tone_target` makes.
    let target = tone_target("你好", "nǐhǎo").expect("你好 is a target");
    let heard = heard_against("你好", "nǐ", &target);
    assert!(!heard.same_count);
    assert!(heard.syllables.is_empty());
    assert!(heard.detail.contains("could not be divided"), "{}", heard.detail);
}

#[test]
fn hearing_nothing_is_said_plainly_and_leaves_the_tone_alone() {
    let target = tone_target("是", "shì").expect("是 is a target");
    let heard = heard_against("", "", &target);
    assert!(!heard.all_matched());
    assert!(heard.text.is_empty());
    assert!(heard.detail.contains("Nothing was recognised"), "{}", heard.detail);
    assert!(heard.detail.contains("tone"), "{}", heard.detail);
}

#[test]
fn a_transcription_is_read_against_readings_with_no_tone_target() {
    // Six characters, so no target exists — but the readings wanted are
    // still known, which is the whole point of the general form.
    let wanted: Vec<String> = ["xiè", "xie", "nǐ", "de", "bāng", "zhù"]
        .iter()
        .map(|s| s.to_string())
        .collect();
    let heard = heard_against_readings("谢谢你的帮助", "xièxienǐdebāngzhù", &wanted, false);
    assert_eq!(heard.syllables.len(), 6);
    assert!(heard.same_count);
    assert!(heard.all_matched(), "{}", heard.detail);
    assert!(
        !heard.detail.contains("tone below"),
        "with no tone panel under it the sentence must not point at one: {}",
        heard.detail
    );
}

#[test]
fn a_transcription_with_nothing_to_read_against_is_still_reported() {
    // The dataset could not read one of the characters, so there is no
    // wanted reading to compare with. The transcription is still the answer.
    let heard = heard_against_readings("你好", "nǐhǎo", &[], false);
    assert_eq!(heard.text, "你好");
    assert_eq!(heard.base, "ni hao");
    assert!(heard.syllables.is_empty());
    assert!(!heard.same_count);
    assert!(!heard.detail.contains("tone below"), "{}", heard.detail);
    assert!(heard.detail.contains("not compared"), "{}", heard.detail);
}

#[test]
fn heard_against_and_the_reading_form_agree() {
    // The tone path is the reading path with the target's own readings, so
    // the two must not be able to drift apart.
    let target = tone_target("四", "sì").expect("四 is a target");
    let wanted: Vec<String> = target.syllables.iter().map(|s| s.reading.clone()).collect();
    assert_eq!(
        heard_against("是", "shì", &target),
        heard_against_readings("是", "shì", &wanted, true)
    );
}

#[test]
fn splitting_keeps_each_syllables_place_in_the_reading() {
    let spans = syllables_with_spans("xuéxí").expect("xuéxí splits");
    assert_eq!(
        spans
            .iter()
            .map(|(syllable, span)| (syllable.text.as_str(), span.clone()))
            .collect::<Vec<_>>(),
        vec![("xué", 0..3), ("xí", 3..5)]
    );
    // The same syllable twice is the case searching for its text gets wrong.
    let spans = syllables_with_spans("xuexue").expect("xuexue splits");
    assert_eq!(spans[0].1, 0..3);
    assert_eq!(spans[1].1, 3..6);
    // Separators are not part of any syllable, and the offsets are counted
    // through them.
    let spans = syllables_with_spans("xī'ān").expect("xī'ān splits");
    assert_eq!(spans[0].1, 0..2);
    assert_eq!(spans[1].1, 3..5);
    assert!(syllables_with_spans("  ").is_none());
}

#[test]
fn a_tone_mark_lands_where_pinyin_puts_it() {
    assert_eq!(mark_syllable("xue", 2).as_deref(), Some("xué"));
    assert_eq!(mark_syllable("hao", 3).as_deref(), Some("hǎo"));
    // No `a`, `o` or `e`, so the last vowel takes it: `iu` marks the `u` and
    // `ui` marks the `i`, which is the pair a learner gets wrong by hand.
    assert_eq!(mark_syllable("liu", 4).as_deref(), Some("liù"));
    assert_eq!(mark_syllable("dui", 4).as_deref(), Some("duì"));
    // `o` beats `e` when there is no `a`.
    assert_eq!(mark_syllable("xiong", 2).as_deref(), Some("xióng"));
    // `v` is the way a plain keyboard writes `ü`.
    assert_eq!(mark_syllable("nv", 3).as_deref(), Some("nǚ"));
    assert_eq!(mark_syllable("nü", 3).as_deref(), Some("nǚ"));
    // Tapping a second tone changes the mark rather than stacking one.
    assert_eq!(mark_syllable("xué", 4).as_deref(), Some("xuè"));
    // A neutral tone is the syllable with no mark at all.
    assert_eq!(mark_syllable("xué", 5).as_deref(), Some("xue"));
    // 嗯, whose syllable has no vowel letter in it.
    assert_eq!(mark_syllable("n", 3).as_deref(), Some("ň"));
    assert_eq!(mark_syllable("n", 2), None, "there is no tone-2 nasal");
    // Nothing a mark can sit on, and a tone that is not a tone.
    assert_eq!(mark_syllable("", 1), None);
    assert_eq!(mark_syllable("x", 1), None);
    assert_eq!(mark_syllable("xue", 0), None);
    assert_eq!(mark_syllable("xue", 6), None);
}

#[test]
fn a_tone_key_marks_the_syllable_the_cursor_is_in() {
    // Typing a syllable and tapping a tone marks what was just typed.
    assert_eq!(
        mark_tone_at("xuexi", 5, 2),
        Some(("xuexí".to_string(), 5))
    );
    // A cursor placed inside an earlier syllable marks that one.
    assert_eq!(
        mark_tone_at("xuexí", 2, 2),
        Some(("xuéxí".to_string(), 2))
    );
    // At a boundary the caret belongs to the syllable it ends, which is what
    // makes marking left to right work.
    assert_eq!(
        mark_tone_at("xuexi", 3, 1),
        Some(("xuēxi".to_string(), 3))
    );
    // Neutral takes a mark off again.
    assert_eq!(
        mark_tone_at("xuéxí", 5, 5),
        Some(("xuéxi".to_string(), 5))
    );
    // A cursor in no syllable at all, and text with no syllable in it.
    assert_eq!(mark_tone_at(" xue", 0, 2), None);
    assert_eq!(mark_tone_at("", 0, 2), None);
    // The mark is written and read back as the same tone, which is the whole
    // reason both halves live in this module.
    for tone in 1..=4u8 {
        let marked = mark_tone_at("ma", 2, tone).expect("ma can take a tone");
        assert_eq!(tone_from_pinyin(&marked.0), Some(tone), "{}", marked.0);
    }
}


#[test]
fn sandhi_keeps_the_last_tone_and_leaves_no_two_thirds_together() {
    assert_eq!(spoken_tones(&['很', '好'], &[3, 3]), vec![2, 3]);
    assert_eq!(spoken_tones(&['我', '很', '好'], &[3, 3, 3]), vec![2, 2, 3]);
    assert_eq!(spoken_tones(&['不', '是'], &[4, 4]), vec![2, 4]);
    assert_eq!(spoken_tones(&['一', '个'], &[1, 4]), vec![2, 4]);
    assert_eq!(spoken_tones(&['一', '天'], &[1, 1]), vec![4, 1]);
    assert_eq!(spoken_tones(&['十', '一'], &[2, 1]), vec![2, 1], "a final 一 is left alone");
}

#[test]
fn a_base_is_small_letters_and_its_own_base() {
    let once = base("Nǚ'ér");
    assert_eq!(once, "nver");
    assert_eq!(base(&once), once);
    assert_eq!(base("lǘ"), base("lv"));
}

#[test]
fn a_second_tone_replaces_the_first() {
    let marked = mark_syllable("hao", 3).unwrap();
    assert_eq!(marked, "hǎo");
    assert_eq!(mark_syllable(&marked, 4).unwrap(), "hào");
    assert_eq!(mark_syllable(&marked, 3).unwrap(), marked);
    assert_eq!(base(&marked), base("hao"));
    assert_eq!(marked.chars().count(), 3);
}

#[test]
fn the_spans_cover_every_letter_in_order() {
    let spans = syllables_with_spans("ni'hao").unwrap();
    let ranges: Vec<(usize, usize)> = spans.iter().map(|(_, r)| (r.start, r.end)).collect();
    assert_eq!(ranges, vec![(0, 2), (3, 6)]);
    let texts: Vec<String> = spans.into_iter().map(|(s, _)| s.text).collect();
    assert_eq!(texts, split("ni'hao"));
}

#[test]
fn marking_at_the_caret_keeps_the_rest_of_the_reading() {
    assert_eq!(mark_tone_at("nihao", 2, 3), Some(("nǐhao".to_string(), 2)));
    assert_eq!(mark_tone_at("nǐhǎo", 4, 4), Some(("nǐhào".to_string(), 4)));
}

#[test]
fn the_match_count_is_the_rows_that_match() {
    let wanted = vec!["nǐ".to_string(), "hǎo".to_string()];
    let heard = heard_against_readings("你号", "nǐhào", &wanted, false);
    assert_eq!(heard.syllables.len(), 2);
    let rows = heard.syllables.iter().filter(|s| s.matches).count();
    assert_eq!(heard.matched, rows);
    assert_eq!(heard.matched, 2, "the tone is set aside");
    let heard = heard_against_readings("你们", "nǐmen", &wanted, false);
    assert_eq!(heard.matched, 1);
    assert!(!heard.syllables[1].matches);
}

#[test]
fn the_syllables_spell_the_reading_without_its_separators() {
    assert_eq!(split("xī'ān").concat(), "xīān");
    assert_eq!(split("Běijīng · dàxué").concat(), "Běijīngdàxué");
    let marks: Vec<u8> = syllables("nǐ hao").unwrap().into_iter().map(|s| s.tone).collect();
    assert_eq!(marks, vec![3, 5]);
}

#[test]
fn a_tone_written_on_capitals_and_nasals_reads_back_while_it_stays_one_syllable() {
    let marked = mark_syllable("Ma", 2).unwrap();
    assert_eq!(marked, "Má");
    assert_eq!(tone_from_pinyin(&marked), Some(2));
    let marked = mark_syllable("hAo", 2).unwrap();
    assert_eq!(marked, "háo");
    assert_eq!(tone_from_pinyin(&marked), Some(2));
    let marked = mark_syllable("ń", 3).unwrap();
    assert_eq!(marked, "ň");
    assert_eq!(tone_from_pinyin(&marked), Some(3));
    // The mark turns the capital into a vowel ahead of its consonant, and the
    // text splits in two.
    let marked = mark_syllable("Ana", 1).unwrap();
    assert_eq!(marked, "āna");
    assert_eq!(tone_from_pinyin(&marked), None);
}

#[test]
fn a_reading_without_a_vowel_is_not_read() {
    assert!(syllables("").is_none());
    assert!(syllables("  \t").is_none());
    assert!(syllables("zh'-").is_none());
}

#[test]
fn a_tone_that_follows_only_adds_to_the_sentence() {
    let wanted = vec!["nǐ".to_string(), "hǎo".to_string()];
    for heard in ["你好", "你们", "", "你好吗"] {
        let reading = match heard {
            "你好" => "nǐhǎo",
            "你们" => "nǐmen",
            "你好吗" => "nǐhǎoma",
            _ => "",
        };
        let plain = heard_against_readings(heard, reading, &wanted, false).detail;
        let toned = heard_against_readings(heard, reading, &wanted, true).detail;
        assert!(toned.starts_with(&plain), "{plain:?} should begin {toned:?}");
        assert!(!plain.contains("tone below"));
    }
}
