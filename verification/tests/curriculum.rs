use hanzi_core::curriculum::{
    build_lessons, lesson_at, lesson_from, lessons_from, DEFAULT_LESSON_SIZE,
};
use hanzi_core::dataset::{Character, Dataset};

fn character(ch: char, rank: u32) -> Character {
    Character {
        ch,
        rank,
        hsk: 1,
        stroke_count: 1,
        radical: '一',
        pinyin: vec![],
        definition: String::new(),
        etymology: String::new(),
        has_medians: true,
    }
}

#[test]
fn lessons_chunk_the_ranked_list_in_order() {
    let chars: Vec<Character> = (1..=25)
        .map(|i| character(char::from_u32(0x4E00 + i).unwrap(), i))
        .collect();
    let dataset = Dataset::from_chars(chars);
    let lessons = build_lessons(&dataset, 10);

    assert_eq!(lessons.len(), 3);
    assert_eq!(lessons[0].characters.len(), 10);
    assert_eq!(lessons[1].characters.len(), 10);
    assert_eq!(lessons[2].characters.len(), 5);
    assert_eq!(lessons[0].first_rank, 1);
    assert_eq!(lessons[0].last_rank, 10);
    assert_eq!(lessons[0].title, "Characters 1\u{2013}10");
    assert_eq!(lessons[2].title, "Characters 21\u{2013}25");
}

#[test]
fn unranked_characters_are_excluded() {
    let dataset = Dataset::from_chars(vec![character('一', 1), character('⺀', 0)]);
    let lessons = build_lessons(&dataset, 10);
    assert_eq!(lessons.len(), 1);
    assert_eq!(lessons[0].characters, vec!['一']);
}

#[test]
fn single_character_lesson_title_is_singular() {
    let dataset = Dataset::from_chars(vec![character('一', 7)]);
    let lessons = build_lessons(&dataset, 10);
    assert_eq!(lessons[0].title, "Character 7");
}

#[test]
fn a_character_without_geometry_is_not_taught() {
    let mut plain = character('二', 2);
    plain.has_medians = false;
    let dataset = Dataset::from_chars(vec![character('一', 1), plain]);
    let lessons = build_lessons(&dataset, 10);
    assert_eq!(lessons[0].characters, vec!['一']);
    assert_eq!(lesson_at(&dataset, 10, 0).unwrap().last_rank, 1);
    assert!(lesson_at(&dataset, 10, 1).is_none());
}

fn ranked(n: u32) -> Vec<(char, u32)> {
    (1..=n).map(|i| (char::from_u32(0x4E00 + i).unwrap(), i)).collect()
}

#[test]
fn a_ranked_list_is_chunked_in_order() {
    let lessons = lessons_from(&ranked(25), DEFAULT_LESSON_SIZE);
    assert_eq!(lessons.len(), 3);
    assert_eq!(lessons[2].characters.len(), 5);
    assert_eq!(lessons[0].title, "Characters 1\u{2013}10");
    assert_eq!(lessons[2].index, 2);
}

#[test]
fn a_size_of_zero_is_one_and_nothing_makes_no_lessons() {
    assert!(lessons_from(&[], 10).is_empty());
    assert_eq!(lessons_from(&ranked(3), 0).len(), 3);
    assert_eq!(lesson_from(&ranked(25), 10, 1).unwrap().first_rank, 11);
    assert!(lesson_from(&ranked(25), 10, 3).is_none());
}

#[test]
fn every_ranked_character_is_in_one_lesson_in_order() {
    let list = ranked(23);
    let lessons = lessons_from(&list, 5);
    let flattened: Vec<char> = lessons.iter().flat_map(|l| l.characters.clone()).collect();
    assert_eq!(flattened, list.iter().map(|(c, _)| *c).collect::<Vec<_>>());
    assert!(lessons.iter().all(|l| !l.characters.is_empty() && l.characters.len() <= 5));
}
