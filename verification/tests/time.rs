use hanzi_core::time::{add_seconds, iso8601_from_unix, now_iso8601, parse_iso8601, MAX_UNIX};


#[test]
fn time_formats_known_timestamps() {
    assert_eq!(iso8601_from_unix(0), "1970-01-01T00:00:00Z");
    assert_eq!(iso8601_from_unix(946_684_800), "2000-01-01T00:00:00Z");
    assert_eq!(iso8601_from_unix(1_234_567_890), "2009-02-13T23:31:30Z");
    // 2000 was a leap year, so this date exists.
    assert_eq!(iso8601_from_unix(951_782_400), "2000-02-29T00:00:00Z");
    // And a time of day, to check the division.
    assert_eq!(iso8601_from_unix(86_399), "1970-01-01T23:59:59Z");
}

#[test]
fn parses_what_it_formats() {
    for unix in [
        0,
        1,
        86_399,
        946_684_800,
        951_782_400,
        1_234_567_890,
        1_700_000_000,
        4_102_444_800, // 2100-01-01, past the next non-leap century
    ] {
        let text = iso8601_from_unix(unix);
        assert_eq!(parse_iso8601(&text), Some(unix), "round trip of {text}");
    }
    assert_eq!(parse_iso8601("2026-09-19T00:12:34Z"), Some(1_789_776_754));
}

#[test]
fn rejects_anything_it_did_not_write() {
    for bad in [
        "",
        "not a timestamp",
        "2026-09-19T00:12:34",       // no zone
        "2026-09-19 00:12:34Z",      // space instead of T
        "2026-09-19T00:12:34+01:00", // offsets are not accepted
        "2026-9-19T00:12:34Z",       // unpadded
        "2026-13-01T00:12:34Z",      // no such month
        "2026-02-30T00:12:34Z",      // no such day
        "2026-09-19T24:00:00Z",      // no such hour
        "2026-09-19T00:60:00Z",      // no such minute
        "2026-09-19T00:12:60Z",      // no such second
        "2026-09-19T-1:-1:-1Z",      // signed fields; parsed to the day before
        "+123-09-19T00:00:00Z",      // a signed year, and before the epoch
        "-001-09-19T00:00:00Z",      // the same, spelled the other way
        "2026-09-19T+1:00:00Z",      // a signed hour
        "2026-09-19T 1:00:00Z",      // a blank where a digit belongs
        "2026-09-19T01:02:0 Z",      // and the same in the seconds
        "２０２６-09-19T00:00:00Z", // full-width digits are not ASCII digits
    ] {
        assert_eq!(parse_iso8601(bad), None, "{bad:?} should be rejected");
    }
}

fn means_exactly_one_instant(text: &str) -> bool {
    match parse_iso8601(text) {
        Some(unix) => iso8601_from_unix(unix) == text,
        None => true,
    }
}

#[test]
fn anything_it_accepts_is_an_instant_it_would_have_written() {
    // The round-trip property stated forwards, as one predicate rather than
    // a list of cases: a parser that answers `Some` has understood the text
    // completely, and `iso8601_from_unix` gives that understanding back.
    // The inverse direction of the round trip, over both ends of every
    // field. An accepted string that reformats as something else is the bug
    // this check exists for: `self.due.as_str() <= now` in `CardState::is_due`
    // assumes the text the parser read back means exactly one instant.
    for good in [
        "0000-01-01T00:00:00Z", // the first instant the width can spell
        "0000-12-31T23:59:59Z",
        "0001-01-01T00:00:00Z",
        "1970-01-01T00:00:00Z",
        "2026-09-19T00:12:34Z",
        "9999-12-31T23:59:59Z", // and the last
    ] {
        let unix = parse_iso8601(good).unwrap_or_else(|| panic!("{good} should parse"));
        assert_eq!(iso8601_from_unix(unix), good, "{good} should reformat as itself");
    }
    // The last instant is `MAX_UNIX`, so the accepted range and the
    // representable one are the same range.
    assert_eq!(parse_iso8601("9999-12-31T23:59:59Z"), Some(MAX_UNIX));

    // The two spells an `i64` parse let through, and the reason the rule is
    // "reject or round-trip" rather than "reject these fields": both are
    // twenty characters with the delimiters in the right places, so nothing
    // but the fields themselves can separate them from a real timestamp.
    // The first parses to the *day before* — a different instant that the
    // schedule compares as text; the second parses, but to a negative Unix
    // time [`add_seconds`] will not move, so its card is due for ever.
    assert!(means_exactly_one_instant("2026-09-19T-1:-1:-1Z"));
    assert!(means_exactly_one_instant("+123-09-19T00:00:00Z"));
}

#[test]
fn time_timestamps_sort_chronologically_as_strings() {
    let earlier = iso8601_from_unix(1_000_000_000);
    let later = iso8601_from_unix(1_700_000_000);
    assert!(earlier < later, "{earlier} should sort before {later}");

    // Across a year boundary, where a naive format would break.
    let new_year = iso8601_from_unix(1_704_067_200); // 2024-01-01
    let old_year = iso8601_from_unix(1_701_000_000); // 2023-11-24
    assert!(old_year < new_year);
}

#[test]
fn time_now_is_plausible() {
    let now = now_iso8601();
    assert_eq!(now.len(), 20, "unexpected format: {now}");
    assert!(now.starts_with("20"), "unexpected year: {now}");
    assert!(now.ends_with('Z'));
    assert!(parse_iso8601(&now).is_some());
}

#[test]
fn adds_seconds_across_calendar_boundaries() {
    let base = "2026-12-31T23:59:30Z";
    assert_eq!(
        add_seconds(base, 30).unwrap(),
        "2027-01-01T00:00:00Z",
        "a new year"
    );
    assert_eq!(
        add_seconds("2024-02-28T12:00:00Z", 86_400).unwrap(),
        "2024-02-29T12:00:00Z",
        "a leap day"
    );
    assert_eq!(
        add_seconds("2023-02-28T12:00:00Z", 86_400).unwrap(),
        "2023-03-01T12:00:00Z",
        "and a non-leap year"
    );
    // A day is a day: scheduling a review by seconds must not drift.
    assert_eq!(
        add_seconds("2026-09-19T00:12:34Z", 86_400).unwrap(),
        "2026-09-20T00:12:34Z"
    );
    assert_eq!(add_seconds("nonsense", 60), None);
}

#[test]
fn adds_seconds_only_within_the_representable_range() {
    // The last instant the four-digit-year format can spell.
    assert_eq!(iso8601_from_unix(MAX_UNIX), "9999-12-31T23:59:59Z");
    assert_eq!(add_seconds("9999-12-31T23:59:58Z", 1).unwrap(), "9999-12-31T23:59:59Z");
    // Anything past it is refused rather than formatted as a five-digit year
    // the parser could not read back.
    assert_eq!(add_seconds("9999-12-31T23:59:59Z", 1), None);
    assert_eq!(add_seconds("1970-01-01T00:00:00Z", -1), None);
    assert_eq!(add_seconds("1970-01-01T00:00:00Z", i64::MAX), None);
}


#[test]
fn the_epoch_and_the_last_instant_bound_the_format() {
    assert_eq!(parse_iso8601("1970-01-01T00:00:00Z"), Some(0));
    assert_eq!(iso8601_from_unix(MAX_UNIX), "9999-12-31T23:59:59Z");
    // Instants outside the four-digit range are still written, the way `{:04}`
    // writes them, even though they cannot be read back.
    assert_eq!(iso8601_from_unix(-1), "1969-12-31T23:59:59Z");
    assert_eq!(iso8601_from_unix(MAX_UNIX + 1), "10000-01-01T00:00:00Z");
    assert_eq!(iso8601_from_unix(-62_167_219_201), "-001-12-31T23:59:59Z");
}

#[test]
fn a_date_before_the_epoch_parses_to_a_negative_instant() {
    // The parser reads every four-digit year; only `add_seconds` keeps to the
    // epoch onwards.
    assert_eq!(parse_iso8601("0000-01-01T00:00:00Z"), Some(-62_167_219_200));
    assert_eq!(add_seconds("0000-01-01T00:00:00Z", 1), None);
}

#[test]
fn every_instant_of_a_leap_year_round_trips() {
    let start = parse_iso8601("2024-01-01T00:00:00Z").unwrap();
    let mut at = start;
    let mut previous = String::new();
    while at < start + 366 * 86_400 {
        let text = iso8601_from_unix(at);
        assert_eq!(parse_iso8601(&text), Some(at), "{text}");
        assert!(previous < text, "{previous} then {text}");
        previous = text;
        at += 3_607;
    }
}
