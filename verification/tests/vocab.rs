use hanzi_core::vocab::{
    csv_field, iso8601_from_unix, now_iso8601, validate_group, validate_text, VocabError,
};

#[test]
fn vocab_formats_known_timestamps() {
    assert_eq!(iso8601_from_unix(0), "1970-01-01T00:00:00Z");
    assert_eq!(iso8601_from_unix(946_684_800), "2000-01-01T00:00:00Z");
    assert_eq!(iso8601_from_unix(1_234_567_890), "2009-02-13T23:31:30Z");
    // 2000 was a leap year, so this date exists.
    assert_eq!(iso8601_from_unix(951_782_400), "2000-02-29T00:00:00Z");
    // And a time of day, to check the division.
    assert_eq!(iso8601_from_unix(86_399), "1970-01-01T23:59:59Z");
}

#[test]
fn vocab_timestamps_sort_chronologically_as_strings() {
    let earlier = iso8601_from_unix(1_000_000_000);
    let later = iso8601_from_unix(1_700_000_000);
    assert!(earlier < later, "{earlier} should sort before {later}");

    // Across a year boundary, where a naive format would break.
    let new_year = iso8601_from_unix(1_704_067_200); // 2024-01-01
    let old_year = iso8601_from_unix(1_701_000_000); // 2023-11-24
    assert!(old_year < new_year);
}

#[test]
fn vocab_now_is_plausible() {
    let now = now_iso8601();
    assert_eq!(now.len(), 20, "unexpected format: {now}");
    assert!(now.starts_with("20"), "unexpected year: {now}");
    assert!(now.ends_with('Z'));
}

fn invalid_text(result: Result<String, VocabError>) -> String {
    match result {
        Err(VocabError::InvalidText(why)) => why,
        other => panic!("expected an invalid text, got {other:?}"),
    }
}

#[test]
fn text_is_trimmed_and_refused_when_empty_long_or_controlled() {
    assert_eq!(validate_text("  学习 ").unwrap(), "学习");
    assert_eq!(invalid_text(validate_text("   ")), "it is empty");
    assert_eq!(invalid_text(validate_text(&"字".repeat(21))), "it is longer than 20 characters");
    assert_eq!(validate_text(&"字".repeat(20)).unwrap(), "字".repeat(20));
    assert_eq!(invalid_text(validate_text("a\u{7}b")), "it contains a control character");
    // A control character at either end is trimmed away with the blanks only
    // when it is a blank; a bell is not.
    assert_eq!(invalid_text(validate_text("\u{7}好")), "it contains a control character");
}

#[test]
fn a_blank_group_is_unfiled_and_a_long_one_refused() {
    assert_eq!(validate_group(None).unwrap(), None);
    assert_eq!(validate_group(Some("  ")).unwrap(), None);
    assert_eq!(validate_group(Some(" HSK 1 ")).unwrap().as_deref(), Some("HSK 1"));
    match validate_group(Some(&"x".repeat(41))) {
        Err(VocabError::InvalidGroup(why)) => assert_eq!(why, "it is longer than 40 characters"),
        other => panic!("expected an invalid group, got {other:?}"),
    }
    match validate_group(Some("a\u{0}b")) {
        Err(VocabError::InvalidGroup(why)) => assert_eq!(why, "it contains a control character"),
        other => panic!("expected an invalid group, got {other:?}"),
    }
}

#[test]
fn csv_fields_are_quoted_only_when_awkward() {
    assert_eq!(csv_field("好"), "好");
    assert_eq!(csv_field("good, fine"), "\"good, fine\"");
    assert_eq!(csv_field("say \"hi\""), "\"say \"\"hi\"\"\"");
    assert_eq!(csv_field("two\nlines"), "\"two\nlines\"");
    assert_eq!(csv_field(""), "");
}

#[test]
fn every_vocabulary_error_has_a_sentence() {
    assert_eq!(VocabError::NoSuchEntry(7).message(), "no vocabulary entry with id 7");
    assert_eq!(VocabError::NoSuchGroup("HSK".into()).message(), "no group named \"HSK\"");
    assert_eq!(
        VocabError::DuplicateGroup("a\"b".into()).message(),
        "a group named \"a\\\"b\" already exists"
    );
    assert_eq!(
        VocabError::DuplicateEntry("好".into()).message(),
        "\"好\" is already in that group"
    );
    assert_eq!(VocabError::InvalidText("it is empty".into()).message(), "invalid entry: it is empty");
    assert_eq!(VocabError::InvalidGroup("x".into()).message(), "invalid group name: x");
    assert_eq!(VocabError::Io("disk".into()).message(), "disk");
    assert_eq!(
        VocabError::Malformed("eof".into()).message(),
        "the vocabulary file is malformed: eof"
    );
    assert_eq!(
        VocabError::UnsupportedVersion(2).message(),
        "the vocabulary file was written by a newer version of the app (format 2, this build understands 1)"
    );
}

use hanzi_core::vocab::{Entry, VocabDocument, VocabStore, FORMAT_VERSION, MAX_TEXT_CHARS};

fn export(store: &VocabStore) -> VocabDocument {
    VocabDocument {
        version: FORMAT_VERSION,
        next_id: store.document().next_id,
        groups: store.groups().to_vec(),
        entries: store.entries().to_vec(),
    }
}

#[test]
fn adds_entries_and_creates_groups_implicitly() {
    let mut store = VocabStore::in_memory();
    let entry = store
        .add_entry("学习", "xuéxí", "to study", Some("Lesson 3"))
        .unwrap();

    assert_eq!(entry.text, "学习");
    assert_eq!(entry.attempts, 0);
    assert!(entry.last_practised.is_none());
    assert_eq!(store.groups(), ["Lesson 3"]);
    assert!(!entry.is_single_character());
}

#[test]
fn a_single_character_is_recognised_as_such() {
    let mut store = VocabStore::in_memory();
    let entry = store.add_entry("好", "hǎo", "good", None).unwrap();
    assert!(entry.is_single_character());
    assert_eq!(entry.characters(), vec!['好']);
    assert_eq!(store.groups(), [] as [String; 0]);
    assert_eq!(entry.group, None);
}

#[test]
fn rejects_empty_oversized_and_control_character_text() {
    let mut store = VocabStore::in_memory();
    assert!(matches!(
        store.add_entry("   ", "", "", None),
        Err(VocabError::InvalidText(_))
    ));
    assert!(matches!(
        store.add_entry(&"一".repeat(MAX_TEXT_CHARS + 1), "", "", None),
        Err(VocabError::InvalidText(_))
    ));
    assert!(matches!(
        store.add_entry("好\n坏", "", "", None),
        Err(VocabError::InvalidText(_))
    ));
    let entry = store.add_entry("  好  ", "", "", None).unwrap();
    assert_eq!(entry.text, "好");
}

#[test]
fn rejects_a_duplicate_within_the_same_group() {
    let mut store = VocabStore::in_memory();
    store.add_entry("好", "", "", Some("A")).unwrap();
    assert!(matches!(
        store.add_entry("好", "", "", Some("A")),
        Err(VocabError::DuplicateEntry(_))
    ));
    store.add_entry("好", "", "", Some("B")).unwrap();
    assert_eq!(store.entries().len(), 2);
}

#[test]
fn blank_group_names_mean_unfiled() {
    let mut store = VocabStore::in_memory();
    let entry = store.add_entry("好", "", "", Some("   ")).unwrap();
    assert_eq!(entry.group, None);
    assert_eq!(store.groups(), [] as [String; 0]);
}

#[test]
fn records_attempts_and_the_time_of_practice() {
    let mut store = VocabStore::in_memory();
    let id = store.add_entry("好", "", "", None).unwrap().id;
    let after = store.record_attempt(id).unwrap();
    assert_eq!(after.attempts, 1);
    assert!(after.last_practised.is_some());
    store.record_attempt(id).unwrap();
    assert_eq!(store.entries()[0].attempts, 2);
}

#[test]
fn missing_ids_are_reported() {
    let mut store = VocabStore::in_memory();
    assert!(matches!(store.record_attempt(99), Err(VocabError::NoSuchEntry(99))));
    assert!(matches!(store.remove_entry(99), Err(VocabError::NoSuchEntry(99))));
    assert!(matches!(
        store.update_entry(99, "", "", None),
        Err(VocabError::NoSuchEntry(99))
    ));
}

#[test]
fn updating_moves_an_entry_between_groups() {
    let mut store = VocabStore::in_memory();
    let id = store.add_entry("好", "hǎo", "good", Some("A")).unwrap().id;
    store.update_entry(id, "hào", "to like", Some("B")).unwrap();

    let entry = &store.entries()[0];
    assert_eq!(entry.pinyin, "hào");
    assert_eq!(entry.meaning, "to like");
    assert_eq!(entry.group.as_deref(), Some("B"));
    assert!(store.groups().contains(&"B".to_string()));
}

#[test]
fn manages_groups_and_protects_entries() {
    let mut store = VocabStore::in_memory();
    store.add_group("Lesson 3").unwrap();
    assert!(matches!(
        store.add_group("Lesson 3"),
        Err(VocabError::DuplicateGroup(_))
    ));

    let id = store.add_entry("好", "", "", Some("Lesson 3")).unwrap().id;

    store.rename_group("Lesson 3", "Lesson 4").unwrap();
    assert!(store.groups().contains(&"Lesson 4".to_string()));
    assert!(!store.groups().contains(&"Lesson 3".to_string()));
    assert_eq!(store.entries()[0].group.as_deref(), Some("Lesson 4"));

    store.add_group("Other").unwrap();
    assert!(matches!(
        store.rename_group("Lesson 4", "Other"),
        Err(VocabError::DuplicateGroup(_))
    ));

    let unfiled = store.remove_group("Lesson 4", false).unwrap();
    assert_eq!(unfiled, 1);
    assert_eq!(store.entries().len(), 1);
    assert_eq!(store.entries()[0].group, None);
    assert_eq!(store.entries()[0].id, id);

    store.add_group("Doomed").unwrap();
    store.add_entry("坏", "", "", Some("Doomed")).unwrap();
    assert_eq!(store.remove_group("Doomed", true).unwrap(), 1);
    assert_eq!(store.entries().len(), 1);
}

#[test]
fn unknown_groups_are_reported() {
    let mut store = VocabStore::in_memory();
    assert!(matches!(
        store.rename_group("nope", "other"),
        Err(VocabError::NoSuchGroup(_))
    ));
    assert!(matches!(
        store.remove_group("nope", false),
        Err(VocabError::NoSuchGroup(_))
    ));
    assert!(matches!(store.add_group("  "), Err(VocabError::InvalidGroup(_))));
}

#[test]
fn selecting_a_practice_set() {
    let mut store = VocabStore::in_memory();
    store.add_entry("好", "", "", Some("A")).unwrap();
    store.add_entry("坏", "", "", Some("B")).unwrap();
    store.add_entry("中", "", "", None).unwrap();

    assert_eq!(store.practice_set(None).len(), 3, "no group means everything");
    assert_eq!(store.practice_set(Some("A")).len(), 1);
    assert_eq!(store.practice_set(Some("B"))[0].text, "坏");
    assert!(store.practice_set(Some("missing")).is_empty());
    assert_eq!(store.entries_in(None).len(), 1);
}

#[test]
fn merging_skips_duplicates_and_unions_groups() {
    let mut target = VocabStore::in_memory();
    target.add_entry("好", "hǎo", "good", Some("A")).unwrap();

    let mut source = VocabStore::in_memory();
    source.add_entry("好", "hǎo", "good", Some("A")).unwrap();
    source.add_entry("坏", "huài", "bad", Some("B")).unwrap();

    let summary = target.import(export(&source), true).unwrap();
    assert!(!summary.replaced);
    assert_eq!(summary.added, 1);
    assert_eq!(summary.skipped_duplicates, 1);
    assert_eq!(target.entries().len(), 2);
    assert_eq!(target.groups(), ["A", "B"]);
}

#[test]
fn importing_over_existing_entries_replaces_them() {
    let mut target = VocabStore::in_memory();
    target.add_entry("旧", "", "", Some("Old")).unwrap();

    let mut source = VocabStore::in_memory();
    source.add_entry("新", "", "", Some("New")).unwrap();

    let summary = target.import(export(&source), false).unwrap();
    assert!(summary.replaced);
    assert_eq!(target.entries().len(), 1);
    assert_eq!(target.entries()[0].text, "新");
    assert_eq!(target.groups(), ["New"], "old groups are cleared too");
}

#[test]
fn imported_ids_never_collide_with_existing_ones() {
    let mut store = VocabStore::in_memory();
    let original = store.add_entry("好", "", "", None).unwrap().id;
    let reused = Entry {
        id: 1,
        text: "坏".into(),
        pinyin: String::new(),
        meaning: String::new(),
        group: None,
        added_at: "2026-01-01T00:00:00Z".into(),
        attempts: 0,
        last_practised: None,
    };
    let incoming = VocabDocument { version: 1, next_id: 2, groups: vec![], entries: vec![reused] };
    store.import(incoming, true).unwrap();

    let ids: Vec<u64> = store.entries().iter().map(|e| e.id).collect();
    assert_eq!(ids.len(), 2);
    assert!(ids.contains(&original));
    assert_ne!(ids[0], ids[1]);

    let future = VocabDocument { version: FORMAT_VERSION + 1, next_id: 1, groups: vec![], entries: vec![] };
    assert!(matches!(store.import(future, true), Err(VocabError::UnsupportedVersion(2))));
    assert_eq!(store.entries().len(), 2, "a refused import leaves the list alone");
}

#[test]
fn csv_export_quotes_awkward_fields() {
    let mut store = VocabStore::in_memory();
    store
        .add_entry("好", "hǎo", "good, \"fine\"", Some("Lesson, 3"))
        .unwrap();
    let csv = store.export_csv(&["91".to_string()]);

    let lines: Vec<&str> = csv.lines().collect();
    assert_eq!(lines.len(), 2, "header plus one row: {csv}");
    assert!(lines[0].starts_with("text,pinyin,meaning"));
    assert!(lines[1].contains("\"good, \"\"fine\"\"\""));
    assert!(lines[1].contains("\"Lesson, 3\""));
    assert!(lines[1].starts_with("好,hǎo,"));
    assert!(lines[1].contains(",0,91,,"));
}

#[test]
fn entries_are_grouped_and_ordered_deterministically() {
    let mut store = VocabStore::in_memory();
    store.add_entry("三", "", "", Some("B")).unwrap();
    store.add_entry("一", "", "", Some("A")).unwrap();
    store.add_entry("二", "", "", Some("B")).unwrap();
    store.add_entry("零", "", "", None).unwrap();

    let order: Vec<&str> = store.entries().iter().map(|e| e.text.as_str()).collect();
    assert_eq!(order, ["零", "一", "三", "二"]);
    assert_eq!(store.groups(), ["A", "B"]);
}

#[test]
fn an_opened_list_is_put_in_order_and_a_newer_one_refused() {
    let mut source = VocabStore::in_memory();
    source.add_entry("好", "", "", Some("B")).unwrap();
    source.add_entry("坏", "", "", Some("A")).unwrap();
    let mut doc = export(&source);
    doc.groups.reverse();
    doc.entries.reverse();
    let store = VocabStore::open("vocab.json".to_string(), Some(doc)).unwrap();
    assert_eq!(store.groups(), ["A", "B"]);
    assert_eq!(store.entries()[0].text, "坏");
    assert_eq!(store.path(), "vocab.json");
    let fresh = VocabStore::open("vocab.json".to_string(), None).unwrap();
    assert!(fresh.entries().is_empty());
    let future = VocabDocument { version: FORMAT_VERSION + 1, next_id: 1, groups: vec![], entries: vec![] };
    assert!(matches!(
        VocabStore::open("vocab.json".to_string(), Some(future)),
        Err(VocabError::UnsupportedVersion(2))
    ));
}

#[test]
fn a_missing_file_is_an_empty_list_not_an_error() {
    let store = VocabStore::open("absent.json".to_string(), None).unwrap();
    assert!(store.entries().is_empty());
    assert!(store.groups().is_empty());
}
