use hanzi_core::progress::{
    build_queue, card_order, check_version, latest, MAX_HISTORY, CursorDocument, CursorSink, CursorStore, ProgressError, Rating, ReviewSource,
    FORMAT_VERSION,
};

#[test]
fn an_in_memory_cursor_saves_silently() {
    let mut cursor = CursorStore::in_memory();
    assert!(cursor.set_index(3));
    cursor.save().unwrap();
    assert_eq!(cursor.view().index, 3);
    assert!(cursor.view().warning.is_none());
}

#[test]
fn moving_the_cursor_to_where_it_is_is_not_a_move() {
    let mut cursor = CursorStore::in_memory();
    assert_eq!(cursor.index(), 0);
    assert_eq!(cursor.updated_at(), None);
    assert!(!cursor.set_index(0));
    assert_eq!(cursor.updated_at(), None);
    assert!(cursor.set_index(5));
    let stamp = cursor.updated_at().unwrap().to_string();
    assert_eq!(stamp.len(), 20);
    assert!(hanzi_core::time::parse_iso8601(&stamp).is_some());
    assert!(!cursor.set_index(5));
    assert_eq!(cursor.document().index, 5);
    assert_eq!(cursor.path(), "");
}

#[derive(Default)]
struct Refusing {
    asked: bool,
}

impl CursorSink for Refusing {
    fn written(&self) -> Option<CursorDocument> {
        None
    }

    fn outcome(&self) -> Option<Result<(), ProgressError>> {
        if self.asked {
            Some(Err(ProgressError::Io("read-only".into())))
        } else {
            None
        }
    }

    fn load(&self) -> Result<CursorDocument, ProgressError> {
        Ok(CursorDocument { version: FORMAT_VERSION, index: 7, updated_at: None })
    }

    fn save(&mut self, _document: &CursorDocument) -> Result<(), ProgressError> {
        self.asked = true;
        Err(ProgressError::Io("read-only".into()))
    }
}

#[test]
fn a_cursor_opens_from_its_sink_and_reports_its_errors() {
    let mut cursor = CursorStore::open_with(Box::new(Refusing::default())).unwrap();
    assert_eq!(cursor.index(), 7);
    assert!(matches!(cursor.save(), Err(ProgressError::Io(_))));

    let future = CursorDocument { version: FORMAT_VERSION + 1, index: 0, updated_at: None };
    assert!(matches!(
        CursorStore::open("cursor.json".to_string(), Some(future), Box::new(Refusing::default())),
        Err(ProgressError::UnsupportedVersion(2))
    ));
    let fresh = CursorStore::open("cursor.json".to_string(), None, Box::new(Refusing::default())).unwrap();
    assert_eq!(fresh.index(), 0);
    assert_eq!(fresh.path(), "cursor.json");
}

#[test]
fn ratings_have_qualities_and_stored_names() {
    let all = [Rating::Again, Rating::Hard, Rating::Good, Rating::Easy];
    assert_eq!(all.map(|r| r.quality()), [1, 3, 4, 5]);
    assert_eq!(all.map(|r| r.name()), ["again", "hard", "good", "easy"]);
    for rating in all {
        assert_eq!(Rating::from_name(rating.name()), Some(rating));
    }
    assert_eq!(Rating::from_name("Good"), None);
    assert_eq!(Rating::from_name(""), None);
}

#[test]
fn progress_errors_are_worded() {
    assert_eq!(
        ProgressError::InvalidTimestamp("yesterday".into()).message(),
        "\"yesterday\" is not an ISO-8601 UTC timestamp"
    );
    assert_eq!(
        ProgressError::Malformed("eof".into()).message(),
        "it is not valid JSON: eof"
    );
    assert_eq!(
        ProgressError::UnsupportedVersion(3).message(),
        "it was written by a newer version of the app (format 3, this build understands 1)"
    );
    assert_eq!(ProgressError::Io("x".into()).message(), "x");
}

fn due(list: &[(char, &str)]) -> Vec<(char, String)> {
    list.iter().map(|(c, d)| (*c, d.to_string())).collect()
}

#[test]
fn a_due_character_in_a_word_is_reviewed_as_that_word() {
    let at = "2026-09-19T12:00:00Z";
    let entries = vec![(7, "学习".to_string()), (9, "好人".to_string())];
    let course: Vec<char> = "好坏学习".chars().collect();
    let queue = build_queue(&due(&[('好', at), ('习', at), ('学', at)]), &course, &entries);

    // 学习 is one item, not two, and there is no bare 好: the word is the unit.
    assert_eq!(queue.len(), 2);
    let word = queue.iter().find(|i| i.text == "学习").unwrap();
    assert_eq!(word.entry_id, Some(7));
    assert_eq!(word.source, ReviewSource::Vocabulary);
    assert!(queue.iter().any(|i| i.text == "好人" && i.entry_id == Some(9)));
}

#[test]
fn the_queue_keeps_the_due_order_and_skips_what_cannot_be_practised() {
    let course: Vec<char> = "甲乙".chars().collect();
    let queue = build_queue(
        &due(&[
            ('甲', "2026-09-19T08:00:00Z"),
            ('丙', "2026-09-19T08:30:00Z"),
            ('乙', "2026-09-19T09:00:00Z"),
        ]),
        &course,
        &[],
    );
    assert_eq!(queue.iter().map(|i| i.ch).collect::<Vec<_>>(), ['甲', '乙']);
    assert!(queue.iter().all(|i| i.source == ReviewSource::Course && i.entry_id.is_none()));
    assert_eq!(queue[0].text, "甲");
    assert_eq!(queue[1].due, "2026-09-19T09:00:00Z");
}

#[test]
fn the_lowest_entry_id_wins_when_a_character_is_in_several() {
    let entries = vec![(9, "好人".to_string()), (4, "你好".to_string())];
    let queue = build_queue(&due(&[('好', "2026-09-19T08:00:00Z")]), &[], &entries);
    assert_eq!(queue.len(), 1);
    assert_eq!(queue[0].entry_id, Some(4));
    assert_eq!(queue[0].text, "你好");
}

#[test]
fn cards_are_shown_by_due_time_then_character_in_a_stable_order() {
    let cards = vec![
        ('b', "2026-02-01T00:00:00Z".to_string()),
        ('a', "2026-03-01T00:00:00Z".to_string()),
        ('a', "2026-02-01T00:00:00Z".to_string()),
        ('b', "2026-02-01T00:00:00Z".to_string()),
    ];
    assert_eq!(card_order(&cards), vec![2, 0, 3, 1]);
    assert!(card_order(&[]).is_empty());
}

#[test]
fn a_schedule_from_a_newer_version_is_refused() {
    assert!(check_version(FORMAT_VERSION).is_ok());
    assert!(check_version(0).is_ok());
    assert!(matches!(
        check_version(FORMAT_VERSION + 1),
        Err(ProgressError::UnsupportedVersion(v)) if v == FORMAT_VERSION + 1
    ));
}

#[test]
fn a_history_keeps_only_its_newest_entries() {
    let history: Vec<u32> = (1..=7).collect();
    assert_eq!(latest(history.clone(), 3), vec![5, 6, 7]);
    assert_eq!(latest(history.clone(), 7), history);
    assert_eq!(latest(history.clone(), 10), history);
    assert!(latest(history, 0).is_empty());
    let full: Vec<usize> = (0..MAX_HISTORY + 2).collect();
    let kept = latest(full, MAX_HISTORY);
    assert_eq!(kept.len(), MAX_HISTORY);
    assert_eq!(kept[0], 2);
}

#[test]
fn a_cursor_keeps_what_its_sink_loaded_and_hands_on_its_error() {
    let document = CursorDocument { version: FORMAT_VERSION, index: 4, updated_at: None };
    let cursor = CursorStore::from_loaded(Ok(document), Box::new(Refusing::default())).unwrap();
    assert_eq!(cursor.index(), 4);
    assert_eq!(cursor.path(), "");
    let refused = CursorStore::from_loaded(Err(ProgressError::Io("gone".into())), Box::new(Refusing::default()));
    assert!(matches!(refused, Err(ProgressError::Io(m)) if m == "gone"));
}

#[test]
fn a_character_goes_to_the_lowest_entry_holding_it_in_due_order() {
    let at = "2026-09-19T08:00:00Z";
    let entries = vec![(9u64, "好人".to_string()), (7u64, "你好".to_string())];
    let queue = build_queue(&due(&[('人', at), ('好', at), ('你', at)]), &[], &entries);
    let ids: Vec<Option<u64>> = queue.iter().map(|i| i.entry_id).collect();
    assert_eq!(ids, vec![Some(9), Some(7)], "人 comes first; 好 goes to the lower id, 7");
    assert_eq!(queue[1].text, "你好");
}
