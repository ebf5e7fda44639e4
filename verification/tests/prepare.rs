use hanzi_core::dataset::Word;
use hanzi_core::prepare::{
    build_words, choose_form, hsk3_level, is_proper_noun, level_census, parse_leading_u8,
    single_char, split_readings, RawTranscriptions, RawWord, RawWordForm,
};

#[test]
fn parses_leading_numbers() {
    assert_eq!(parse_leading_u8("8"), 8);
    assert_eq!(parse_leading_u8(""), 0);
    assert_eq!(parse_leading_u8("7-9"), 7);
    assert_eq!(parse_leading_u8("  12  "), 12);
    assert_eq!(parse_leading_u8("n/a"), 0);
}

#[test]
fn splits_compact_readings() {
    assert_eq!(split_readings("hǎo"), vec!["hǎo"]);
    assert_eq!(split_readings("hǎo, hào"), vec!["hǎo", "hào"]);
    assert_eq!(split_readings(" de ; dí "), vec!["de", "dí"]);
    assert!(split_readings("").is_empty());
}

#[test]
fn single_char_ignores_trailing_text() {
    assert_eq!(single_char("好"), Some('好'));
    assert_eq!(single_char(" 一 "), Some('一'));
    assert_eq!(single_char(""), None);
}

fn form(pinyin: &str, meanings: &[&str]) -> RawWordForm {
    RawWordForm {
        transcriptions: RawTranscriptions {
            pinyin: pinyin.to_string(),
        },
        meanings: meanings.iter().map(|m| m.to_string()).collect(),
    }
}

fn levels(names: &[&str]) -> Vec<String> {
    names.iter().map(|n| n.to_string()).collect()
}

#[test]
fn only_the_current_hsk_levels_count() {
    assert_eq!(hsk3_level(&levels(&["n2"])), Some(2));
    // An entry in several lists takes the lowest current level.
    assert_eq!(hsk3_level(&levels(&["n4", "n2", "o3"])), Some(2));
    // The older 2.0 lists and the mixed codes are not the course.
    assert_eq!(hsk3_level(&levels(&["o1", "t3"])), None);
    assert_eq!(hsk3_level(&[]), None);
    // A level outside 1..=7 is ignored rather than trusted.
    assert_eq!(hsk3_level(&levels(&["n9"])), None);
}

#[test]
fn a_proper_noun_reading_is_passed_over_for_the_ordinary_word() {
    // 安 as the dictionary lists it: the surname first.
    let forms = vec![
        form("Ān", &["surname An"]),
        form("ān", &["calm; peaceful", "safe"]),
    ];
    let chosen = choose_form(&forms).unwrap();
    assert_eq!(chosen.transcriptions.pinyin, "ān");
    assert!(is_proper_noun("Ān"));
    assert!(!is_proper_noun("ān"));
}

#[test]
fn a_word_with_no_ordinary_reading_keeps_the_dictionary_order() {
    let forms = vec![form("Běi jīng", &["Beijing"])];
    assert_eq!(
        choose_form(&forms).unwrap().transcriptions.pinyin,
        "Běi jīng"
    );
}

#[test]
fn an_ordinary_first_reading_is_left_alone() {
    let forms = vec![
        form("hǎo", &["good"]),
        form("hào", &["to be fond of"]),
    ];
    assert_eq!(choose_form(&forms).unwrap().transcriptions.pinyin, "hǎo");
}

#[test]
fn an_empty_form_list_is_not_a_word() {
    assert!(choose_form(&[]).is_none());
}

fn word(hsk: u8) -> Word {
    Word {
        text: "x".into(),
        pinyin: "x".into(),
        meaning: String::new(),
        hsk,
        rank: 1,
    }
}

#[test]
fn the_level_census_counts_every_level_once() {
    let words = vec![word(1), word(3), word(1), word(3), word(3)];
    assert_eq!(level_census(&words), vec![(1, 2), (3, 3)]);
    assert!(level_census(&[]).is_empty());
}

#[test]
fn level_codes_are_read_as_a_number_would_be() {
    // `+3` and `03` are how `str::parse` reads three; a sign on its own is not.
    assert_eq!(hsk3_level(&levels(&["n+3"])), Some(3));
    assert_eq!(hsk3_level(&levels(&["n03"])), Some(3));
    assert_eq!(hsk3_level(&levels(&["n+", "n", "n-1", "n256"])), None);
    assert_eq!(parse_leading_u8("300"), 0, "too large for a byte");
    assert_eq!(parse_leading_u8("007"), 7);
}

#[test]
fn a_proper_noun_after_blanks_is_still_one() {
    assert!(is_proper_noun("  Ān"));
    assert!(!is_proper_noun("   "));
    assert!(!is_proper_noun(""));
    // A capitalised form with no meaning is not offered in place of the first.
    let forms = vec![form("Ān", &["surname An"]), form("ān", &[])];
    assert_eq!(choose_form(&forms).unwrap().transcriptions.pinyin, "Ān");
}

fn raw(s: &str, levels_of: &[&str], forms: Vec<RawWordForm>) -> RawWord {
    RawWord { s: s.to_string(), levels: levels(levels_of), forms }
}

#[test]
fn only_teachable_current_words_are_kept_once() {
    let ranks = vec![('学', 40), ('习', 300), ('你', 10), ('好', 20), ('龘', 0)];
    let drawable: Vec<char> = "学习你好龘".chars().collect();
    let list = build_words(
        &[
            raw(" 学习 ", &["n1"], vec![form("xué xí", &[" to study ", " ", "learn"])]),
            raw("好", &["n1"], vec![form("hǎo", &["good"])]),
            raw("你好", &["o1"], vec![form("nǐ hǎo", &["hello"])]),
            raw("龘龘", &["n2"], vec![form("dá dá", &["dragons"])]),
            raw("学习", &["n2"], vec![form("xuéxí", &["again"])]),
            raw("好你", &["n3"], vec![form("  ", &["no reading"])]),
        ],
        &ranks,
        &drawable,
    );
    assert_eq!(list.words.len(), 1);
    let kept = &list.words[0];
    assert_eq!(kept.text, "学习");
    assert_eq!(kept.pinyin, "xuéxí");
    assert_eq!(kept.meaning, "to study; learn");
    assert_eq!(kept.hsk, 1);
    assert_eq!(kept.rank, 300, "the rarest character's rank");
    assert_eq!(list.single_character, 1);
    assert_eq!(list.not_hsk3, 1);
    assert_eq!(list.unteachable, 1);
}

use hanzi_core::prepare::{merge_dictionary_row, merge_frequency_row, DictionaryRow, FrequencyRow, Lexical};

#[test]
fn the_frequency_list_wins_over_the_dictionary_where_it_speaks() {
    let mut lex = Lexical::default();
    merge_dictionary_row(
        &mut lex,
        &DictionaryRow {
            definition: "good".into(),
            pinyin: vec!["hǎo".into(), "hào".into()],
            radical: " 女 ".into(),
            decomposition: " ⿰女子 ".into(),
            etymology: Some("  a woman and a child  ".into()),
        },
    );
    assert_eq!(lex.radical, '女');
    assert_eq!(lex.decomposition, "⿰女子");
    assert_eq!(lex.etymology, "a woman and a child");

    merge_frequency_row(
        &mut lex,
        &FrequencyRow {
            frequency_rank: 82,
            pinyin: "hǎo, hào".into(),
            definition: "  good, well ".into(),
            radical: "".into(),
            stroke_count: "6".into(),
            hsk_level: "1".into(),
        },
    );
    assert_eq!(lex.rank, 82);
    assert_eq!(lex.hsk, 1);
    assert_eq!(lex.stroke_count, 6);
    assert_eq!(lex.radical, '女', "an empty radical does not overwrite");
    assert_eq!(lex.definition, "good, well");
    assert_eq!(lex.pinyin, vec!["hǎo", "hào"], "the dictionary's readings stay");

    let mut bare = Lexical::default();
    merge_dictionary_row(
        &mut bare,
        &DictionaryRow {
            definition: String::new(),
            pinyin: vec![],
            radical: String::new(),
            decomposition: "？".into(),
            etymology: None,
        },
    );
    assert_eq!(bare.decomposition, "", "the source's cannot-say is no decomposition");
    assert_eq!(bare.radical, '\0');
    merge_frequency_row(
        &mut bare,
        &FrequencyRow {
            frequency_rank: 3,
            pinyin: " de ; dí ".into(),
            definition: "   ".into(),
            radical: "白".into(),
            stroke_count: "".into(),
            hsk_level: "n/a".into(),
        },
    );
    assert_eq!(bare.pinyin, vec!["de", "dí"]);
    assert_eq!(bare.definition, "");
    assert_eq!(bare.hsk, 0);
    assert_eq!(bare.radical, '白');
}
