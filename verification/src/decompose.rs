//! Reading a character's decomposition.
//!
//! A decomposition is an IDS string, an ideographic description sequence: a
//! layout operator followed by its operands, each of which is a character or
//! another sequence. 说 is `⿰讠兑` (left and right), 言 is `⿱亠⿱二口` (above and
//! below, nested), and 草 is `⿱艹早`. `？` stands where the source could not name
//! a part.
//!
//! This module turns that string into something a screen can draw: the parts in
//! reading order, each marked with whether the board can write it, and the
//! outermost arrangement in words. Nested sequences are flattened, so the parts
//! are the character's own components rather than the whole tree. A part that
//! is itself a character stays one part: `草` is 艹 and 早, never 艹, 日, 十.

use vstd::prelude::*;

use crate::text::{string_of, trim, trimmed_chars};

verus! {

/// How one operand of a decomposition is written.
#[derive(Clone, Debug, PartialEq)]
pub struct Component {
    /// The part, or `None` where the source could not name it. A screen shows
    /// the unknown ones too, so the arrangement it describes stays true.
    pub ch: Option<char>,
    /// True when the board can draw this part, so it can be written on its own.
    pub drawable: bool,
}

/// What a character is built from.
#[derive(Clone, Debug, PartialEq)]
pub struct Decomposition {
    /// The IDS string as stored, trimmed, e.g. `⿰讠兑`. Empty when the source
    /// has none.
    pub raw: String,
    /// The outermost arrangement in words, e.g. `"left and right"`. Empty when
    /// the character is a single glyph rather than a composition.
    pub layout: String,
    /// The parts, in reading order, nested sequences flattened.
    pub parts: Vec<Component>,
}

impl Default for Decomposition {
    fn default() -> (r: Decomposition)
        ensures
            r.raw@.len() == 0,
            r.layout@.len() == 0,
            r.parts.len() == 0,
    {
        Decomposition { raw: String::new(), layout: String::new(), parts: Vec::new() }
    }
}

/// The twelve IDS operators, and how each arranges its operands, in the
/// screen's words.
pub open spec fn layout_words(symbol: char) -> Option<Seq<char>> {
    if symbol == '⿰' {
        Some("left and right"@)
    } else if symbol == '⿱' {
        Some("above and below"@)
    } else if symbol == '⿲' {
        Some("left, middle and right"@)
    } else if symbol == '⿳' {
        Some("above, middle and below"@)
    } else if symbol == '⿴' {
        Some("enclosed"@)
    } else if symbol == '⿵' {
        Some("enclosed from above"@)
    } else if symbol == '⿶' {
        Some("enclosed from below"@)
    } else if symbol == '⿷' {
        Some("enclosed from the left"@)
    } else if symbol == '⿸' {
        Some("enclosed from the upper left"@)
    } else if symbol == '⿹' {
        Some("enclosed from the upper right"@)
    } else if symbol == '⿺' {
        Some("enclosed from the lower left"@)
    } else if symbol == '⿻' {
        Some("overlapping"@)
    } else {
        None
    }
}

/// Whether `symbol` is a layout operator.
pub open spec fn operator(symbol: char) -> bool {
    layout_words(symbol) is Some
}

/// The symbols of `s` that are not operators, in order.
pub open spec fn operands(s: Seq<char>) -> Seq<char>
    decreases s.len(),
{
    if s.len() == 0 {
        seq![]
    } else if operator(s.last()) {
        operands(s.drop_last())
    } else {
        operands(s.drop_last()).push(s.last())
    }
}

/// The parts a sequence flattens to: every symbol that is not an operator, in
/// reading order, so that nothing the string says is dropped.
pub open spec fn leaves(s: Seq<char>) -> Seq<char> {
    operands(s)
}

/// The placeholders the source writes where it cannot name a part.
pub open spec fn unknown(c: char) -> bool {
    c == '？' || c == '?'
}

/// How one operator arranges its operands, or `None` for anything else.
fn layout_of(symbol: char) -> (r: Option<&'static str>)
    ensures
        match r {
            Some(w) => layout_words(symbol) == Some(w@),
            None => layout_words(symbol) is None,
        },
{
    match symbol {
        '⿰' => Some("left and right"),
        '⿱' => Some("above and below"),
        '⿲' => Some("left, middle and right"),
        '⿳' => Some("above, middle and below"),
        '⿴' => Some("enclosed"),
        '⿵' => Some("enclosed from above"),
        '⿶' => Some("enclosed from below"),
        '⿷' => Some("enclosed from the left"),
        '⿸' => Some("enclosed from the upper left"),
        '⿹' => Some("enclosed from the upper right"),
        '⿺' => Some("enclosed from the lower left"),
        '⿻' => Some("overlapping"),
        _ => None,
    }
}

proof fn lemma_operands_push(s: Seq<char>, c: char)
    ensures
        operands(s.push(c)) == if operator(c) {
            operands(s)
        } else {
            operands(s).push(c)
        },
{
    assert(s.push(c).drop_last() =~= s);
}

/// Flatten one operand (or a whole sequence) starting at `at` into `out`.
///
/// An operator takes every symbol after it as operands, because where one
/// operand ends is decided by the operand itself: a nested sequence consumes its
/// own.
fn collect(symbols: &Vec<char>, at: &mut usize, out: &mut Vec<char>)
    requires
        *old(at) <= symbols.len(),
    ensures
        *old(at) == symbols.len() ==> *final(at) == *old(at) && final(out)@ == old(out)@,
        *old(at) < symbols.len() && !operator(symbols@[*old(at) as int]) ==> *final(at) == *old(at)
            + 1 && final(out)@ == old(out)@.push(symbols@[*old(at) as int]),
        *old(at) < symbols.len() && operator(symbols@[*old(at) as int]) ==> *final(at)
            == symbols.len() && final(out)@ == old(out)@ + operands(
            symbols@.subrange(*old(at) + 1, symbols.len() as int),
        ),
    decreases symbols.len() - *old(at),
{
    if *at >= symbols.len() {
        return;
    }
    let symbol = symbols[*at];
    *at += 1;
    if layout_of(symbol).is_some() {
        let ghost from = *at;
        let ghost start = out@;
        assert(symbols@.subrange(from as int, from as int) =~= Seq::<char>::empty());
        while *at < symbols.len()
            invariant
                from == *old(at) + 1,
                from <= *at <= symbols.len(),
                out@ == start + operands(symbols@.subrange(from as int, *at as int)),
            decreases symbols.len() - *at,
        {
            let ghost before = *at;
            let ghost out_before = out@;
            collect(symbols, at, out);
            proof {
                let sym = symbols@[before as int];
                if operator(sym) {
                    let head = symbols@.subrange(from as int, before + 1);
                    assert(symbols@.subrange(from as int, before as int).push(sym) =~= head);
                    lemma_operands_push(symbols@.subrange(from as int, before as int), sym);
                    lemma_operands_concat(head, symbols@.subrange(before + 1, symbols.len() as int));
                    assert(head + symbols@.subrange(before + 1, symbols.len() as int)
                        =~= symbols@.subrange(from as int, symbols.len() as int));
                    assert(out@ =~= start + operands(symbols@.subrange(from as int, *at as int)));
                } else {
                    assert(symbols@.subrange(from as int, before as int).push(sym)
                        =~= symbols@.subrange(from as int, *at as int));
                    lemma_operands_push(symbols@.subrange(from as int, before as int), sym);
                    assert(out@ =~= start + operands(symbols@.subrange(from as int, *at as int)));
                }
            }
        }
    } else {
        out.push(symbol);
    }
}

proof fn lemma_operands_concat(a: Seq<char>, b: Seq<char>)
    ensures
        operands(a + b) == operands(a) + operands(b),
    decreases b.len(),
{
    if b.len() == 0 {
        assert(a + b =~= a);
        assert(operands(a) + operands(b) =~= operands(a));
    } else {
        lemma_operands_concat(a, b.drop_last());
        assert((a + b).drop_last() =~= a + b.drop_last());
        assert((a + b).last() == b.last());
        if operator(b.last()) {
        } else {
            assert(operands(a) + operands(b.drop_last()).push(b.last()) =~= (operands(a)
                + operands(b.drop_last())).push(b.last()));
        }
    }
}

/// The parts of the decomposition `raw`, one per leaf: unknown where the source
/// named none, and otherwise the glyph with what `drawable` answered for it.
pub open spec fn parts_are(
    parts: Seq<Component>,
    raw: Seq<char>,
    drawable: impl Fn(char) -> bool,
) -> bool {
    let l = leaves(trim(raw));
    &&& parts.len() == l.len()
    &&& forall|k: int|
        0 <= k < l.len() ==> if unknown(l[k]) {
            (#[trigger] parts[k]).ch is None && !parts[k].drawable
        } else {
            &&& parts[k].ch == Some(l[k])
            &&& call_ensures(drawable, (l[k],), parts[k].drawable)
        }
}

/// Read a decomposition string.
///
/// `drawable` answers whether the board can write a part, which is the
/// dataset's question rather than this module's, so it is passed in.
pub fn parse(raw: &str, drawable: impl Fn(char) -> bool) -> (d: Decomposition)
    requires
        forall|c: char| call_requires(drawable, (c,)),
    ensures
        d.raw@ == trim(raw@),
        d.layout@ == if trim(raw@).len() > 0 && operator(trim(raw@)[0]) {
            layout_words(trim(raw@)[0])->0
        } else {
            Seq::<char>::empty()
        },
        parts_are(d.parts@, raw@, drawable),
{
    let symbols = trimmed_chars(raw);
    let layout = if symbols.len() > 0 {
        match layout_of(symbols[0]) {
            Some(words) => words.to_owned(),
            None => String::new(),
        }
    } else {
        String::new()
    };
    let mut leaves_found: Vec<char> = Vec::new();
    let mut at: usize = 0;
    assert(symbols@.subrange(0, 0) =~= Seq::<char>::empty());
    while at < symbols.len()
        invariant
            at <= symbols.len(),
            leaves_found@ == operands(symbols@.subrange(0, at as int)),
        decreases symbols.len() - at,
    {
        let ghost before = at;
        let ghost found_before = leaves_found@;
        collect(&symbols, &mut at, &mut leaves_found);
        proof {
            let sym = symbols@[before as int];
            if operator(sym) {
                let head = symbols@.subrange(0, before + 1);
                assert(symbols@.subrange(0, before as int).push(sym) =~= head);
                lemma_operands_push(symbols@.subrange(0, before as int), sym);
                lemma_operands_concat(head, symbols@.subrange(before + 1, symbols.len() as int));
                assert(head + symbols@.subrange(before + 1, symbols.len() as int)
                    =~= symbols@.subrange(0, symbols.len() as int));
                assert(leaves_found@ =~= operands(symbols@.subrange(0, at as int)));
            } else {
                assert(symbols@.subrange(0, before as int).push(sym)
                    =~= symbols@.subrange(0, at as int));
                lemma_operands_push(symbols@.subrange(0, before as int), sym);
                assert(leaves_found@ =~= operands(symbols@.subrange(0, at as int)));
            }
        }
    }
    proof {
        assert(symbols@.subrange(0, symbols.len() as int) =~= symbols@);
        assert(leaves_found@ =~= leaves(trim(raw@)));
    }
    let mut parts: Vec<Component> = Vec::new();
    let mut k: usize = 0;
    while k < leaves_found.len()
        invariant
            k <= leaves_found.len(),
            leaves_found@ == leaves(trim(raw@)),
            forall|c: char| call_requires(drawable, (c,)),
            parts.len() == k,
            forall|j: int|
                0 <= j < k ==> if unknown(leaves_found@[j]) {
                    (#[trigger] parts@[j]).ch is None && !parts@[j].drawable
                } else {
                    &&& parts@[j].ch == Some(leaves_found@[j])
                    &&& call_ensures(drawable, (leaves_found@[j],), parts@[j].drawable)
                },
        decreases leaves_found.len() - k,
    {
        let ch = leaves_found[k];
        let part = if ch == '？' || ch == '?' {
            Component { ch: None, drawable: false }
        } else {
            Component { ch: Some(ch), drawable: drawable(ch) }
        };
        let ghost before = parts@;
        parts.push(part);
        proof {
            crate::text::lemma_push(before, part);
        }
        k += 1;
    }
    Decomposition { raw: string_of(&symbols), layout, parts }
}

} // verus!
