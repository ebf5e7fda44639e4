use hanzi_core::decompose::{parse, Decomposition};


/// Every glyph in these fixtures is drawable unless a test says otherwise.
fn all(_: char) -> bool {
    true
}

fn glyphs(decomposition: &Decomposition) -> Vec<Option<char>> {
    decomposition.parts.iter().map(|part| part.ch).collect()
}

#[test]
fn a_binary_decomposition_gives_two_parts_and_its_arrangement() {
    let found = parse("⿰讠兑", all);
    assert_eq!(glyphs(&found), vec![Some('讠'), Some('兑')]);
    assert_eq!(found.layout, "left and right");
    assert_eq!(found.raw, "⿰讠兑");
}

#[test]
fn a_nested_decomposition_is_flattened_in_reading_order() {
    // 言 is 亠 over (二 over 口): three parts, and the outermost arrangement
    // is the one the screen describes.
    let found = parse("⿱亠⿱二口", all);
    assert_eq!(glyphs(&found), vec![Some('亠'), Some('二'), Some('口')]);
    assert_eq!(found.layout, "above and below");
}

#[test]
fn a_component_that_is_itself_a_character_stays_one_part() {
    // 草 is 艹 over 早. The source decomposes one level, and 早 is the glyph
    // the learner is shown — it is not taken apart again into 日 and 十.
    let found = parse("⿱艹早", all);
    assert_eq!(glyphs(&found), vec![Some('艹'), Some('早')]);
}

#[test]
fn every_operator_is_named() {
    for (symbol, layout) in [
        ('⿰', "left and right"),
        ('⿱', "above and below"),
        ('⿲', "left, middle and right"),
        ('⿳', "above, middle and below"),
        ('⿴', "enclosed"),
        ('⿵', "enclosed from above"),
        ('⿶', "enclosed from below"),
        ('⿷', "enclosed from the left"),
        ('⿸', "enclosed from the upper left"),
        ('⿹', "enclosed from the upper right"),
        ('⿺', "enclosed from the lower left"),
        ('⿻', "overlapping"),
    ] {
        let found = parse(&format!("{symbol}甲乙"), all);
        assert_eq!(found.layout, layout, "{symbol} is unnamed");
        assert_eq!(glyphs(&found), vec![Some('甲'), Some('乙')]);
    }
}

#[test]
fn an_unnamed_part_is_kept_as_a_gap_rather_than_dropped() {
    // 不 is 一 over an unnamed part. Dropping the gap would say the character
    // is 一 alone, and "above and below" would then be describing nothing.
    let found = parse("⿱一？", all);
    assert_eq!(glyphs(&found), vec![Some('一'), None]);
    assert_eq!(found.layout, "above and below");
    assert!(!found.parts[1].drawable);
}

#[test]
fn a_character_with_no_decomposition_has_no_parts() {
    let none = parse("", all);
    assert!(none.parts.is_empty());
    assert_eq!(none.layout, "");

    let unknown = parse("？", all);
    assert_eq!(glyphs(&unknown), vec![None]);
    assert_eq!(
        unknown.layout, "",
        "a single unnamed glyph is not an arrangement"
    );
}

#[test]
fn a_bare_glyph_is_one_part_with_no_arrangement() {
    let found = parse("一", all);
    assert_eq!(glyphs(&found), vec![Some('一')]);
    assert_eq!(found.layout, "");
}

#[test]
fn drawability_comes_from_the_caller() {
    // The dataset answers this, so the parser asks rather than guesses.
    let found = parse("⿰讠兑", |ch| ch == '兑');
    assert!(!found.parts[0].drawable, "讠 was refused by the caller");
    assert!(found.parts[1].drawable);
}

#[test]
fn stray_text_after_the_operands_is_still_read_as_a_part() {
    // The upstream strings are trusted but not sacred: a malformed one must
    // not panic or silently truncate what it does say.
    let found = parse("⿰白勺x", all);
    assert_eq!(glyphs(&found), vec![Some('白'), Some('勺'), Some('x')]);
}

#[test]
fn the_stored_string_is_trimmed_and_every_glyph_is_a_part() {
    let found = parse("  ⿰讠兑\n", all);
    assert_eq!(found.raw, "⿰讠兑");
    // Without an operator first there is no layout, and no glyph is dropped.
    let found = parse("一二", all);
    assert_eq!(glyphs(&found), vec![Some('一'), Some('二')]);
    assert_eq!(found.layout, "");
    // An ASCII question mark is a gap too.
    let found = parse("⿱一?", all);
    assert_eq!(glyphs(&found), vec![Some('一'), None]);
    assert_eq!(Decomposition::default().parts.len(), 0);
}

