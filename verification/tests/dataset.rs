use hanzi_core::artifact::{pack_artifact, payload_of, unpack_artifact, ArtifactError};
use hanzi_core::dataset::{
    character_key, count_characters, count_words, fold_pinyin, lookup_text, rank_key, rarest,
    search_characters, search_words, tone_sets, word_key, words_per_level, Character,
    CharacterHint, CharacterQuery, Dataset, RankedCharacter, ToneSet, ToneSetMember, Word,
};
use hanzi_core::lexicon::character_order;

fn character(ch: char, rank: u32, strokes: usize) -> Character {
    Character {
        ch,
        rank,
        hsk: 1,
        stroke_count: strokes as u8,
        radical: '一',
        pinyin: vec!["yī".into()],
        definition: "test".into(),
        etymology: String::new(),
        has_medians: strokes > 0,
    }
}

#[test]
fn lookup_and_ranking() {
    let dataset = Dataset::from_chars(vec![
        character('一', 2, 1),
        character('的', 1, 8),
        character('⺀', 0, 2), // unranked, traditional-only radical
    ]);
    assert_eq!(dataset.len(), 3);
    assert_eq!(dataset.get('的').map(|c| c.rank), Some(1));

    let ranked: Vec<char> = dataset.ranked().iter().map(|c| c.ch).collect();
    assert_eq!(ranked, vec!['的', '一'], "unranked characters are skipped");
}

fn gzip_fast(raw: &[u8]) -> Vec<u8> {
    let mut encoder = flate2::write::GzEncoder::new(Vec::new(), flate2::Compression::fast());
    std::io::Write::write_all(&mut encoder, raw).unwrap();
    encoder.finish().unwrap()
}

#[test]
fn artifact_rejects_bad_magic() {
    let bytes = gzip_fast(b"NOTHANZI............");
    let err = unpack_artifact(&bytes).err().unwrap();
    assert!(matches!(err, ArtifactError::BadMagic));
    assert!(err.message().contains("re-run"));
}

#[test]
fn an_older_format_magic_is_refused() {
    let mut raw = b"HANZID01".to_vec();
    raw.extend_from_slice(&[1, 2, 3, 4]);
    let err = unpack_artifact(&gzip_fast(&raw)).err().unwrap();
    assert!(matches!(err, ArtifactError::BadMagic));
}

#[test]
fn bytes_that_are_not_gzip_are_unreadable() {
    let err = unpack_artifact(b"HANZID02 but not compressed").err().unwrap();
    assert!(matches!(err, ArtifactError::Unreadable(_)));
    if let ArtifactError::Unreadable(e) = &err {
        assert_eq!(err.message(), e.to_string(), "the decoder's own words are handed on");
    }
    assert!(unpack_artifact(&[]).is_err());
}

#[test]
fn an_artifact_opens_to_the_payload_it_was_packed_from() {
    let payload: Vec<u8> = (0..=255u8).chain(0..=255u8).collect();
    let packed = pack_artifact(&payload).unwrap();
    assert_ne!(&packed[..], &payload[..], "it is compressed, not copied");
    assert_eq!(unpack_artifact(&packed).ok().unwrap(), payload);
    assert_eq!(unpack_artifact(&pack_artifact(&[]).unwrap()).ok().unwrap(), Vec::<u8>::new());

    let mut raw = b"HANZID02".to_vec();
    raw.extend_from_slice(b"xyz");
    assert_eq!(unpack_artifact(&gzip_fast(&raw)).ok().unwrap(), b"xyz".to_vec());
    assert_eq!(payload_of(&raw), Some(b"xyz".to_vec()));
    assert_eq!(payload_of(b"HANZID0"), None);
}

// ---- looking up study text ------------------------------------------------

/// A character with a chosen reading and meaning.
fn speaker(ch: char, pinyin: &[&str], definition: &str) -> Character {
    Character {
        pinyin: pinyin.iter().map(|s| s.to_string()).collect(),
        definition: definition.to_string(),
        ..character(ch, 1, 1)
    }
}

#[test]
fn a_single_character_lookup_fills_reading_and_meaning() {
    let dataset = Dataset::from_chars(vec![speaker('好', &["hǎo", "hào"], "good, well")]);
    let lookup = dataset.lookup_text("好");

    assert_eq!(lookup.pinyin, "hǎo", "the most common reading wins");
    assert_eq!(lookup.meaning, "good, well");
    assert!(lookup.complete);
    assert_eq!(lookup.characters.len(), 1);
    // Every reading is still reported, so the learner can pick another.
    assert_eq!(lookup.characters[0].pinyin, vec!["hǎo", "hào"]);
}

#[test]
fn a_word_lookup_composes_the_reading_but_not_the_meaning() {
    let dataset = Dataset::from_chars(vec![
        speaker('学', &["xué"], "learning, knowledge; to study"),
        speaker('习', &["xí"], "to practise; habit"),
    ]);
    let lookup = dataset.lookup_text("学习");

    assert_eq!(lookup.pinyin, "xuéxí");
    assert_eq!(lookup.meaning, "");
    assert!(lookup.complete);
    assert_eq!(lookup.characters.len(), 2);
    assert_eq!(lookup.characters[0].ch, '学');
    assert_eq!(lookup.characters[1].meaning, "to practise; habit");
}

#[test]
fn a_word_with_an_unknown_character_is_incomplete() {
    let dataset = Dataset::from_chars(vec![speaker('学', &["xué"], "to study")]);
    let lookup = dataset.lookup_text("学X");

    assert!(!lookup.complete, "X is not in the dataset");
    assert_eq!(lookup.pinyin, "xué", "the known part still contributes");
    assert_eq!(lookup.characters.len(), 2);
    assert!(lookup.characters[1].pinyin.is_empty());
    assert!(lookup.characters[1].meaning.is_empty());
}

#[test]
fn an_empty_lookup_is_empty_rather_than_falsely_incomplete() {
    let dataset = Dataset::from_chars(vec![speaker('好', &["hǎo"], "good")]);
    for text in ["", "   "] {
        let lookup = dataset.lookup_text(text);
        assert_eq!(lookup.pinyin, "");
        assert_eq!(lookup.meaning, "");
        assert!(lookup.characters.is_empty());
        assert!(!lookup.complete);
    }
}

#[test]
fn a_longer_word_composes_every_character() {
    let dataset = Dataset::from_chars(vec![
        speaker('中', &["zhōng"], "middle"),
        speaker('国', &["guó"], "country"),
        speaker('人', &["rén"], "person"),
    ]);
    let lookup = dataset.lookup_text("中国人");
    assert_eq!(lookup.pinyin, "zhōngguórén");
    assert_eq!(lookup.meaning, "");
    assert_eq!(lookup.characters.len(), 3);
}

#[test]
fn lookup_ignores_surrounding_whitespace() {
    let dataset = Dataset::from_chars(vec![speaker('好', &["hǎo"], "good")]);
    let lookup = dataset.lookup_text("  好  ");
    assert_eq!(lookup.pinyin, "hǎo");
    assert_eq!(lookup.characters.len(), 1);
}

#[test]
fn a_repeated_character_is_found_each_time_and_the_last_entry_answers() {
    let dataset = Dataset::from_chars(vec![
        speaker('好', &["hǎo"], "first entry"),
        speaker('好', &["hào"], "second entry"),
    ]);
    assert_eq!(dataset.get('好').unwrap().definition, "second entry");
    let lookup = dataset.lookup_text("好好");
    assert_eq!(lookup.pinyin, "hàohào");
    assert_eq!(lookup.characters[0].meaning, "second entry");
    assert!(dataset.get('坏').is_none());
    assert!(dataset.is_practisable('好'));
    assert!(!dataset.is_practisable('坏'));
}

// ---- the word dictionary --------------------------------------------------

/// A word, for tests that do not care how it was prepared.
fn word(text: &str, pinyin: &str, meaning: &str, hsk: u8, rank: u32) -> Word {
    Word {
        text: text.to_string(),
        pinyin: pinyin.to_string(),
        meaning: meaning.to_string(),
        hsk,
        rank,
    }
}

/// The words of 学 and 习, plus a vocabulary of characters to spell them.
fn word_dataset() -> Dataset {
    Dataset::from_parts(
        "学习生老老师汉语句子".chars().map(|ch| speaker(ch, &["x"], "x")).collect(),
        vec![
            word("学习", "xuéxí", "to study; to learn", 1, 30),
            word("学生", "xuéshēng", "student; pupil", 1, 40),
            word("老师", "lǎoshī", "teacher", 2, 60),
            word("汉语", "Hànyǔ", "Chinese language", 3, 80),
            word("句子", "jùzi", "sentence", 4, 900),
        ],
    )
}

#[test]
fn a_word_lookup_prefers_the_dictionary_over_a_composed_reading() {
    let dataset = word_dataset();
    let lookup = dataset.lookup_text("学习");

    assert_eq!(lookup.pinyin, "xuéxí");
    assert_eq!(lookup.meaning, "to study; to learn");
    assert!(lookup.complete);
    assert_eq!(lookup.characters.len(), 2);
}

#[test]
fn an_unknown_word_still_composes_and_invents_no_meaning() {
    let dataset = word_dataset();
    let lookup = dataset.lookup_text("学老");
    assert_eq!(lookup.pinyin, "xx", "readings run together");
    assert_eq!(lookup.meaning, "", "no meaning is invented");
}

#[test]
fn a_single_character_is_not_served_from_the_word_dictionary() {
    let base = word_dataset();
    let dataset = Dataset::from_parts(
        base.chars().to_vec(),
        vec![word("学", "xué", "to study", 1, 30)],
    );
    assert!(dataset.word("学").is_some(), "the dictionary does hold it");
    let lookup = dataset.lookup_text("学");
    assert_eq!(lookup.pinyin, "x", "but the character's own reading wins");
    assert_eq!(lookup.meaning, "x");
}

#[test]
fn a_word_supplied_twice_is_kept_once_at_its_most_useful_level() {
    let dataset = Dataset::from_parts(
        "学习".chars().map(|ch| speaker(ch, &["x"], "x")).collect(),
        vec![
            word("学习", "xuéxí", "to study", 4, 900),
            word("学习", "xuéxí", "to study", 1, 30),
        ],
    );
    assert_eq!(dataset.word_count(), 1);
    assert_eq!(dataset.word("学习").unwrap().hsk, 1, "the lower level wins");
    assert_eq!(dataset.words_with('学').len(), 1);
}

#[test]
fn words_are_ordered_by_level_then_frequency() {
    let dataset = word_dataset();
    let order: Vec<&str> = dataset.words().iter().map(|w| w.text.as_str()).collect();
    assert_eq!(order, vec!["学习", "学生", "老师", "汉语", "句子"]);
}

#[test]
fn words_of_one_level_and_rank_are_ordered_by_text_and_unknown_ranks_last() {
    let dataset = Dataset::from_parts(
        Vec::new(),
        vec![
            word("乙乙", "", "", 1, 0),
            word("丙丙", "", "", 1, 5),
            word("甲甲", "", "", 1, 5),
            word("丁丁", "", "", 1, 5),
            word("丁丁", "", "later entry", 1, 5),
        ],
    );
    let order: Vec<&str> = dataset.words().iter().map(|w| w.text.as_str()).collect();
    assert_eq!(order, vec!["丁丁", "丙丙", "甲甲", "乙乙"]);
    assert_eq!(dataset.word(" 丁丁 ").unwrap().meaning, "", "the first of equals is kept");
}

#[test]
fn every_word_containing_a_character_is_found_most_useful_first() {
    let dataset = word_dataset();
    let found: Vec<&str> = dataset.words_with('学').iter().map(|w| w.text.as_str()).collect();
    assert_eq!(found, vec!["学习", "学生"]);
    assert!(dataset.words_with('龙').is_empty());
}

#[test]
fn words_can_be_searched_by_character_reading_or_meaning() {
    let dataset = word_dataset();

    // By character: 学 lists every word using it.
    let by_char: Vec<&str> = dataset
        .search_words("学", None, 10)
        .iter()
        .map(|w| w.text.as_str())
        .collect();
    assert_eq!(by_char, vec!["学习", "学生"]);

    // By reading, with and without tone marks, and with `v` for `ü`.
    for query in ["xuexi", "xuéxí", "xu"] {
        let hits = dataset.search_words(query, None, 10);
        assert!(
            hits.iter().any(|w| w.text == "学习"),
            "{query} should find 学习, got {:?}",
            hits.iter().map(|w| &w.text).collect::<Vec<_>>()
        );
    }
    assert!(dataset.search_words("nv", None, 10).is_empty(), "no ü words here");
    assert_eq!(fold_pinyin("nǚ'ér"), "nuer", "tones, ü and punctuation fold away");
    assert_eq!(fold_pinyin("Lǜsè"), "luse");

    // By meaning.
    let by_meaning = dataset.search_words("teacher", None, 10);
    assert_eq!(by_meaning.len(), 1);
    assert_eq!(by_meaning[0].text, "老师");
}

#[test]
fn an_exact_word_comes_before_a_word_merely_containing_it() {
    let dataset = word_dataset();
    let hits = dataset.search_words("学生", None, 10);
    assert_eq!(hits[0].text, "学生");
}

#[test]
fn an_empty_query_browses_and_a_level_filter_narrows() {
    let dataset = word_dataset();
    let all = dataset.search_words("", None, 100);
    assert_eq!(all.len(), 5);
    assert_eq!(all[0].text, "学习", "most useful first");

    let hsk1 = dataset.search_words("", Some(1), 100);
    assert_eq!(hsk1.len(), 2);
    assert!(hsk1.iter().all(|w| w.hsk == 1));
    assert_eq!(dataset.count_words("", Some(1)), 2);
}

#[test]
fn a_search_is_capped_but_the_total_is_counted_honestly() {
    let dataset = word_dataset();
    assert_eq!(dataset.search_words("", None, 2).len(), 2);
    assert_eq!(dataset.count_words("", None), 5);
    assert_eq!(dataset.count_words("xue", None), 2);
    assert_eq!(dataset.count_words("nothing matches this", None), 0);
}

#[test]
fn levels_with_no_words_are_omitted_from_the_census() {
    let dataset = word_dataset();
    assert_eq!(dataset.words_per_level(), vec![(1, 2), (2, 1), (3, 1), (4, 1)]);
}

#[test]
fn a_word_knows_its_own_characters() {
    let dataset = word_dataset();
    let word = dataset.word("汉语").unwrap();
    assert_eq!(word.characters(), vec!['汉', '语']);
}

// ---- the character dictionary ---------------------------------------------

/// A character with a chosen reading, meaning, level and rank.
fn lexeme(ch: char, pinyin: &[&str], definition: &str, hsk: u8, rank: u32) -> Character {
    Character {
        rank,
        hsk,
        ..speaker(ch, pinyin, definition)
    }
}

/// Four characters spanning a reading, a meaning and two HSK levels, stored
/// deliberately out of level order — by rank, as the real artifact is.
fn character_dataset() -> Dataset {
    Dataset::from_chars(vec![
        lexeme('学', &["xué"], "to study", 1, 10),
        lexeme('雪', &["xuě"], "snow", 2, 20),
        lexeme('血', &["xuè", "xiě"], "blood", 3, 30),
        lexeme('习', &["xí"], "to practise; habit", 1, 40),
    ])
}

#[test]
fn characters_can_be_searched_by_character_reading_or_meaning() {
    let dataset = character_dataset();

    let exact = dataset.search_characters("雪", None, 10);
    assert_eq!(exact.len(), 1);
    assert_eq!(exact[0].ch, '雪');

    for query in ["xue", "xué", "XUE"] {
        let hits = dataset.search_characters(query, None, 10);
        assert!(
            hits.iter().any(|c| c.ch == '学'),
            "{query} should find 学, got {:?}",
            hits.iter().map(|c| c.ch).collect::<Vec<_>>()
        );
    }

    let by_meaning = dataset.search_characters("snow", None, 10);
    assert_eq!(by_meaning.len(), 1);
    assert_eq!(by_meaning[0].ch, '雪');

    for reading in ["xue", "xie"] {
        assert!(
            dataset
                .search_characters(reading, None, 10)
                .iter()
                .any(|c| c.ch == '血'),
            "{reading} should find 血"
        );
    }
    assert_eq!(fold_pinyin("nǚ"), "nu", "ü folds like v");
}

#[test]
fn an_exact_reading_comes_before_a_longer_one_containing_it() {
    let dataset = character_dataset();
    let exact: Vec<char> = dataset
        .search_characters("xue", None, 10)
        .iter()
        .map(|c| c.ch)
        .collect();
    assert_eq!(exact, vec!['学', '雪', '血'], "exact readings, by frequency");

    let mixed: Vec<char> = dataset
        .search_characters("xi", None, 10)
        .iter()
        .map(|c| c.ch)
        .collect();
    assert_eq!(mixed, vec!['习', '血']);
}

#[test]
fn several_characters_typed_at_once_find_each_of_them() {
    let dataset = Dataset::from_parts(
        vec![
            lexeme('医', &["yī"], "doctor", 1, 5),
            lexeme('院', &["yuàn"], "courtyard; school", 1, 8),
            lexeme('雪', &["xuě"], "snow", 2, 20),
        ],
        Vec::new(),
    );
    let hits: Vec<char> = dataset
        .search_characters("医院", None, 10)
        .iter()
        .map(|c| c.ch)
        .collect();
    assert_eq!(hits, vec!['医', '院'], "in frequency order");
}

#[test]
fn several_syllables_typed_at_once_find_each_of_them() {
    let dataset = Dataset::from_chars(vec![
        lexeme('医', &["yī"], "doctor", 1, 5),
        lexeme('生', &["shēng"], "life; to be born", 1, 6),
        lexeme('学', &["xué"], "to study", 1, 10),
        lexeme('血', &["xuè", "xiě"], "blood", 3, 30),
        lexeme('习', &["xí"], "to practise; habit", 1, 40),
    ]);

    let word: Vec<char> = dataset
        .search_characters("yisheng", None, 10)
        .iter()
        .map(|c| c.ch)
        .collect();
    assert_eq!(word, vec!['医', '生'], "in frequency order");

    let xuexi: Vec<char> = dataset
        .search_characters("xuexi", None, 10)
        .iter()
        .map(|c| c.ch)
        .collect();
    assert_eq!(xuexi, vec!['学', '血', '习']);

    let single = dataset.search_characters("xi", None, 10);
    assert_eq!(single[0].ch, '习', "exact reading first");
    assert_eq!(single[1].ch, '血', "then the prefix");
}

#[test]
fn an_english_word_that_segments_into_pinyin_still_finds_its_meaning_first() {
    let dataset = Dataset::from_chars(vec![
        lexeme('吧', &["ba"], "modal particle", 1, 20),
        lexeme('那', &["nà"], "that; those", 1, 30),
        lexeme('蕉', &["jiāo"], "banana", 2, 900),
    ]);
    let hits = dataset.search_characters("banana", None, 10);
    assert_eq!(hits[0].ch, '蕉', "the meaning wins");
    assert!(
        hits.iter().any(|c| c.ch == '吧'),
        "and the reading hits are still there, below it"
    );
}

#[test]
fn an_unranked_character_is_found_by_text_but_not_by_browsing() {
    let dataset = Dataset::from_chars(vec![
        lexeme('学', &["xué"], "to study", 1, 10),
        lexeme('龘', &["dá"], "dragons flying", 0, 0),
    ]);
    let browsed: Vec<char> = dataset
        .search_characters("", None, 100)
        .iter()
        .map(|c| c.ch)
        .collect();
    assert_eq!(browsed, vec!['学'], "the unranked one is not in the course");

    let found = dataset.search_characters("龘", None, 10);
    assert_eq!(found.len(), 1);
    assert!(!found[0].is_teachable(), "found, but not drillable in course");

    assert_eq!(dataset.search_characters("da", None, 10)[0].ch, '龘');
}

#[test]
fn a_character_browse_is_most_common_first_and_a_level_filter_narrows() {
    let dataset = character_dataset();
    let all: Vec<char> = dataset
        .search_characters("", None, 100)
        .iter()
        .map(|c| c.ch)
        .collect();
    assert_eq!(all, vec!['学', '雪', '血', '习'], "rank order");

    let hsk1 = dataset.search_characters("", Some(1), 100);
    assert_eq!(hsk1.len(), 2);
    assert!(hsk1.iter().all(|c| c.hsk == 1));
    assert_eq!(dataset.count_characters("", Some(1)), 2);
    assert_eq!(dataset.count_characters("snow", Some(2)), 1);
    assert_eq!(dataset.count_characters("snow", Some(1)), 0);
}

#[test]
fn the_level_census_counts_characters_that_are_not_stored_level_by_level() {
    let dataset = character_dataset();
    assert_eq!(dataset.characters_per_level(), vec![(1, 2), (2, 1), (3, 1)]);

    for (level, count) in dataset.characters_per_level() {
        assert_eq!(dataset.count_characters("", Some(level)), count);
    }
}

#[test]
fn a_character_search_is_capped_but_the_total_is_counted_honestly() {
    let dataset = character_dataset();
    assert_eq!(dataset.search_characters("", None, 2).len(), 2);
    assert_eq!(dataset.count_characters("", None), 4);
    assert_eq!(dataset.count_characters("xue", None), 3, "学, 雪 and 血");
    assert_eq!(dataset.count_characters("nothing matches this", None), 0);
    assert!(
        dataset.search_characters("blood", None, 10).len() == 1,
        "a definition still matches"
    );
}

#[test]
fn characters_are_kept_most_common_first_then_by_codepoint() {
    let chars = vec![
        character('乙', 0, 1),
        character('丙', 3, 1),
        character('甲', 0, 1),
        character('丁', 3, 1),
        character('戊', 1, 0),
    ];
    assert_eq!(character_order(&chars), vec![4, 3, 1, 0, 2]);
    let dataset = Dataset::from_chars(chars);
    let kept: Vec<char> = dataset.chars().iter().map(|c| c.ch).collect();
    assert_eq!(kept, vec!['戊', '丁', '丙', '乙', '甲']);
    assert_eq!(dataset.practisable_characters(), vec!['丁', '丙', '乙', '甲']);
    assert!(!dataset.is_empty());
    assert!(Dataset::from_chars(Vec::new()).is_empty());
}

// ---- tone pairs -------------------------------------------------------------

/// The syllable a set is built on, and its tones in order.
fn shape(set: &ToneSet) -> (String, Vec<(char, u8)>) {
    (
        set.base.clone(),
        set.members.iter().map(|m| (m.ch, m.tone)).collect(),
    )
}

#[test]
fn a_syllable_read_at_several_tones_becomes_one_set_in_tone_order() {
    let dataset = Dataset::from_chars(vec![
        lexeme('妈', &["mā"], "mother", 1, 100),
        lexeme('麻', &["má"], "hemp", 3, 300),
        lexeme('马', &["mǎ"], "horse", 1, 200),
        lexeme('骂', &["mà"], "to scold", 4, 800),
    ]);
    let sets = dataset.tone_sets(10);
    assert_eq!(sets.len(), 1);
    assert_eq!(sets[0].base, "ma");
    assert_eq!(
        shape(&sets[0]).1,
        vec![('妈', 1), ('麻', 2), ('马', 3), ('骂', 4)],
        "members come out in tone order, with the reading that placed them"
    );
    assert_eq!(sets[0].members[1].reading, "má");
    assert_eq!(sets[0].members[0].definition, "mother");
}

#[test]
fn a_tone_set_uses_only_the_reading_the_voice_would_say() {
    let dataset = Dataset::from_chars(vec![
        lexeme('行', &["xíng", "háng"], "to walk; a row", 1, 30),
        lexeme('航', &["háng"], "to sail", 3, 700),
        lexeme('星', &["xīng"], "star", 1, 500),
    ]);
    let sets = dataset.tone_sets(10);
    let bases: Vec<&str> = sets.iter().map(|set| set.base.as_str()).collect();
    assert_eq!(bases, vec!["xing"], "hang has only one usable character");
    assert_eq!(shape(&sets[0]).1, vec![('星', 1), ('行', 2)]);
}

#[test]
fn a_polyphonic_character_fills_only_one_tone_of_its_syllable() {
    let dataset = Dataset::from_chars(vec![
        lexeme('好', &["hǎo", "hào"], "good; to like", 1, 50),
        lexeme('号', &["hào"], "number", 1, 400),
    ]);
    let sets = dataset.tone_sets(10);
    assert_eq!(sets.len(), 1);
    assert_eq!(
        shape(&sets[0]).1,
        vec![('好', 3), ('号', 4)],
        "好 takes the reading it is listed with first; tone 4 needs another"
    );

    let alone = Dataset::from_chars(vec![lexeme('好', &["hǎo", "hào"], "good", 1, 50)]);
    assert!(alone.tone_sets(10).is_empty());
}

#[test]
fn a_character_in_no_lesson_is_not_in_a_tone_set() {
    let dataset = Dataset::from_chars(vec![
        lexeme('妈', &["mā"], "mother", 1, 100),
        lexeme('麻', &["má"], "hemp", 0, 0),
        lexeme('马', &["mǎ"], "horse", 1, 0),
    ]);
    assert!(
        dataset.tone_sets(10).is_empty(),
        "an unranked or unlistable character is not a member"
    );
}

#[test]
fn the_neutral_tone_is_not_a_member() {
    let dataset = Dataset::from_chars(vec![
        lexeme('得', &["dé"], "to obtain", 1, 100),
        lexeme('的', &["de"], "possessive", 1, 1),
    ]);
    assert!(
        dataset.tone_sets(10).is_empty(),
        "a toneless reading must not be given a tone"
    );
}

#[test]
fn two_syllables_that_differ_in_a_vowel_are_not_a_tone_set() {
    let dataset = Dataset::from_chars(vec![
        lexeme('奴', &["nú"], "slave", 3, 500),
        lexeme('女', &["nǚ"], "woman", 1, 300),
    ]);
    assert!(dataset.tone_sets(10).is_empty());

    let dataset = Dataset::from_chars(vec![
        lexeme('女', &["nǚ"], "woman", 1, 300),
        lexeme('衄', &["nǜ"], "nosebleed", 0, 900),
    ]);
    let sets = dataset.tone_sets(10);
    assert_eq!(sets.len(), 1);
    assert_eq!(sets[0].base, "nv");
}

#[test]
fn tone_sets_are_ranked_by_their_rarest_member() {
    let dataset = Dataset::from_chars(vec![
        lexeme('是', &["shì"], "to be", 1, 5),
        lexeme('十', &["shí"], "ten", 1, 12),
        lexeme('猫', &["māo"], "cat", 1, 900),
        lexeme('毛', &["máo"], "hair", 1, 1_100),
    ]);
    let bases: Vec<String> = dataset.tone_sets(10).into_iter().map(|s| s.base).collect();
    assert_eq!(bases, vec!["shi", "mao"]);
}

#[test]
fn a_tone_set_is_capped_but_derived_from_every_character() {
    let dataset = Dataset::from_chars(vec![
        lexeme('妈', &["mā"], "mother", 1, 100),
        lexeme('麻', &["má"], "hemp", 3, 300),
        lexeme('猫', &["māo"], "cat", 1, 900),
        lexeme('毛', &["máo"], "hair", 1, 1_100),
    ]);
    assert_eq!(dataset.tone_sets(1).len(), 1);
    assert_eq!(
        dataset.tone_sets(1)[0].base,
        "ma",
        "the cap takes the best sets, not the first ones found"
    );
    assert_eq!(dataset.tone_sets(10).len(), 2);
}

// ---- the record-level functions the dataset is built on ---------------------

#[test]
fn folding_drops_tones_spacing_and_case() {
    assert_eq!(fold_pinyin("nǚ'ér"), "nuer", "tones, ü and punctuation fold away");
    assert_eq!(fold_pinyin("Nǐ Hǎo"), "nihao");
    assert_eq!(fold_pinyin("nv"), fold_pinyin("nǚ"));
    assert_eq!(fold_pinyin("ma1"), "ma1");
    assert_eq!(fold_pinyin(""), "");
    assert_eq!(fold_pinyin(&fold_pinyin("Lǜ Shī")), fold_pinyin("Lǜ Shī"));
}

#[test]
fn a_word_lists_its_characters() {
    let w = word("学习", "xuéxí", "to study", 1, 300);
    assert_eq!(w.characters(), vec!['学', '习']);
}

fn hint(ch: char, pinyin: &[&str], meaning: &str) -> CharacterHint {
    CharacterHint {
        ch,
        pinyin: pinyin.iter().map(|p| p.to_string()).collect(),
        meaning: meaning.into(),
    }
}

#[test]
fn a_lookup_over_plain_hints_reads_the_first_hint_for_each_character() {
    let known = vec![hint('好', &["hǎo", "hào"], "good, well"), hint('好', &["x"], "shadowed")];
    let lookup = lookup_text("好", &known, &[]);
    assert_eq!(lookup.pinyin, "hǎo");
    assert_eq!(lookup.meaning, "good, well");

    let known = vec![hint('学', &["xué"], "to study"), hint('习', &["xí"], "to practise; habit")];
    let words = vec![word("学习", "xuéxí", "to study; to learn", 1, 300)];
    let lookup = lookup_text(" 学习 ", &known, &words);
    assert_eq!(lookup.meaning, "to study; to learn");
    let lookup = lookup_text("学X", &known, &[]);
    assert!(!lookup.complete);
    assert_eq!(lookup.pinyin, "xué");
    let empty = lookup_text("   ", &known, &words);
    assert!(empty.characters.is_empty() && !empty.complete && empty.pinyin.is_empty());
}

fn word_list() -> Vec<Word> {
    vec![
        word("学习", "xuéxí", "to study; to learn", 1, 300),
        word("学生", "xuésheng", "student", 1, 200),
        word("老师", "lǎoshī", "teacher", 1, 250),
        word("汉语", "Hànyǔ", "Chinese language", 2, 900),
    ]
}

#[test]
fn words_are_searched_over_their_keys_in_the_order_given() {
    let words = word_list();
    let keys: Vec<_> = words.iter().map(word_key).collect();
    let by_char: Vec<&str> = search_words(&words, &keys, "学", None, 10)
        .iter()
        .map(|w| w.text.as_str())
        .collect();
    assert_eq!(by_char, vec!["学习", "学生"]);
    let by_reading = search_words(&words, &keys, "xue xi", None, 10);
    assert_eq!(by_reading[0].text, "学习");
    let by_meaning = search_words(&words, &keys, "TEACHER", None, 10);
    assert_eq!(by_meaning.len(), 1);
    assert_eq!(by_meaning[0].text, "老师");
    assert_eq!(search_words(&words, &keys, "", Some(2), 10).len(), 1);
    assert_eq!(search_words(&words, &keys, "", None, 2).len(), 2);
    assert_eq!(count_words(&words, &keys, "", None), 4);
    assert_eq!(count_words(&words, &keys, "学", None), 2);
    let exact = search_words(&words, &keys, "学生", None, 10);
    assert_eq!(exact[0].text, "学生");
}

#[test]
fn characters_are_searched_by_reading_then_meaning_then_syllable() {
    let keys = vec![
        character_key('学', 1, true, &["xué".to_string()], "to study"),
        character_key('雪', 1, true, &["xuě".to_string()], "snow"),
        character_key('习', 1, true, &["xí".to_string()], "to practise"),
        character_key('龘', 0, false, &["dá".to_string()], "dragons flying"),
    ];
    assert_eq!(search_characters(&keys, "", None, 10), vec![0, 1, 2], "browsing lists the teachable");
    assert_eq!(search_characters(&keys, "xue", None, 10), vec![0, 1]);
    assert_eq!(search_characters(&keys, "xuexi", None, 10), vec![0, 1, 2]);
    assert_eq!(search_characters(&keys, "SNOW", None, 10), vec![1]);
    assert_eq!(search_characters(&keys, "学习", None, 10), vec![0, 2]);
    assert_eq!(search_characters(&keys, "龘", None, 10), vec![3], "found by text though unteachable");
    assert_eq!(count_characters(&keys, "xue", None), 2);
    assert_eq!(count_characters(&keys, "", Some(0)), 0);
    let query = CharacterQuery::new(" xuéxí ");
    assert_eq!(query.text, "xuéxí");
    assert_eq!(query.folded, "xuexi");
    assert_eq!(query.syllables, vec!["xue", "xi"]);
}

fn ranked(ch: char, rank: u32, pinyin: &str) -> RankedCharacter {
    RankedCharacter {
        ch,
        rank,
        pinyin: vec![pinyin.to_string()],
        definition: format!("{ch}"),
    }
}

#[test]
fn tone_sets_group_by_syllable_and_rank_by_the_rarest_member() {
    let chars = vec![
        ranked('妈', 10, "mā"),
        ranked('吗', 20, "ma"),
        ranked('马', 30, "mǎ"),
        ranked('骂', 40, "mà"),
        ranked('麻', 50, "má"),
        ranked('码', 60, "mǎ"),
        ranked('女', 5, "nǚ"),
        ranked('奴', 7, "nú"),
        ranked('努', 8, "nǔ"),
        ranked('是', 1, "shì"),
    ];
    let sets = tone_sets(&chars, 10);
    assert_eq!(sets.len(), 2, "{sets:?}");
    assert_eq!(sets[0].base, "nu");
    assert_eq!(sets[0].members.iter().map(|m| m.ch).collect::<Vec<_>>(), ['奴', '努']);
    assert_eq!(sets[1].base, "ma");
    assert_eq!(
        sets[1].members.iter().map(|m| (m.ch, m.tone)).collect::<Vec<_>>(),
        [('妈', 1), ('麻', 2), ('马', 3), ('骂', 4)],
        "the most common character holds each tone, and neutral is no member"
    );
    assert_eq!(rarest(&sets[1]), 50);
    assert_eq!(tone_sets(&chars, 1).len(), 1);
    assert_eq!(rank_key(0), u32::MAX);
    assert_eq!(rank_key(3), 3);
    let empty = ToneSet { base: "x".into(), members: Vec::<ToneSetMember>::new() };
    assert_eq!(rarest(&empty), u32::MAX);
}

#[test]
fn words_per_level_counts_each_run() {
    let words = word_list();
    assert_eq!(words_per_level(&words), vec![(1, 3), (2, 1)]);
    assert!(words_per_level(&[]).is_empty());
}

#[test]
fn a_word_holding_a_character_twice_is_listed_for_each() {
    let dataset = Dataset::from_parts(Vec::new(), vec![word("妈妈", "māma", "mum", 1, 10)]);
    assert_eq!(dataset.words_with('妈').len(), 2);
}

#[test]
fn folding_ignores_marks_case_and_spacing_wherever_they_stand() {
    let folded = fold_pinyin("Nǚ-ér 2");
    assert_eq!(folded, "nuer2");
    assert_eq!(fold_pinyin(&folded), folded);
    assert_eq!(fold_pinyin("nver"), fold_pinyin("NÜ ER"));
    assert_eq!(fold_pinyin("nǚ·ér。"), "nuer", "punctuation beyond ASCII folds away too");
}
