use hanzi_core::dataset::{ToneSet, ToneSetMember, Word};
use hanzi_core::trainer::word_sets;

fn member(ch: char, reading: &str, tone: u8, rank: u32) -> ToneSetMember {
    ToneSetMember {
        ch,
        reading: reading.to_string(),
        tone,
        definition: String::new(),
        rank,
    }
}

fn word(text: &str, pinyin: &str, rank: u32) -> Word {
    Word {
        text: text.into(),
        pinyin: pinyin.into(),
        meaning: String::new(),
        hsk: 1,
        rank,
    }
}

#[test]
fn families_hang_on_the_tone_sets_and_claim_each_word_once() {
    let contrasts = vec![
        ToneSet {
            base: "ma".into(),
            members: vec![member('妈', "mā", 1, 10), member('马', "mǎ", 3, 30)],
        },
        ToneSet {
            base: "hao".into(),
            members: vec![member('好', "hǎo", 3, 5), member('号', "hào", 4, 40)],
        },
    ];
    let words = vec![
        word("妈妈", "māma", 400),
        word("你好", "nǐhǎo", 100),
        word("好妈", "hǎomā", 50),
        word("麻烦", "máfan", 60),
        word("好", "hǎo", 1),
        word("好好学习", "hǎohǎoxuéxí", 70),
    ];
    let sets = word_sets(&contrasts, &words, 10);
    assert_eq!(sets.len(), 2);
    assert_eq!(sets[0].key, '妈');
    assert_eq!(sets[0].contrast, "妈 tone 1 · 马 tone 3");
    // Most common first: 好妈 (50) before 妈妈 (400).
    assert_eq!(
        sets[0].words.iter().map(|w| w.text.as_str()).collect::<Vec<_>>(),
        ["好妈", "妈妈"]
    );
    // 好妈 was claimed by the first family; a single character is not a word.
    assert_eq!(
        sets[1].words.iter().map(|w| w.text.as_str()).collect::<Vec<_>>(),
        ["好好学习", "你好"]
    );
    assert_eq!(sets[1].words[1].citation, vec![3, 3]);
    assert_eq!(sets[1].words[1].spoken, vec![2, 3]);
    assert_eq!(word_sets(&contrasts, &words, 1).len(), 1);
    assert_eq!(word_sets(&contrasts, &words, 0).len(), 1, "a zero limit still offers one");
}
