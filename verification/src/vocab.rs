//! The personal vocabulary list: the rules its entries and groups are held to,
//! what it says when it refuses one, and how it writes a CSV field.
//!
//! An entry's text may be one character or several. Text and group names are
//! trimmed; a text must be non-empty, a group name may be blank (which means
//! unfiled), and neither may be too long or hold a control character.

use vstd::prelude::*;

use crate::text::{
    append_str, chars_of, control, debug_quote, debug_quoted, decimal, decimal_string, is_control,
    lemma_push, lemma_text_before_irreflexive, lemma_text_before_total,
    lemma_text_before_transitive, push_char, str_before, str_equal, text_before, trim, trimmed,
    trimmed_chars,
};
use crate::time::iso_text;

verus! {

/// Format version written into the document. A document from the future is
/// refused rather than guessed at.
pub const FORMAT_VERSION: u32 = 1;

/// Longest entry accepted, in characters.
pub const MAX_TEXT_CHARS: usize = 20;

/// Longest group name accepted, in characters.
pub const MAX_GROUP_CHARS: usize = 40;

/// Why a vocabulary operation failed.
#[derive(Debug)]
pub enum VocabError {
    /// The entry id does not exist.
    NoSuchEntry(u64),
    /// The group name does not exist.
    NoSuchGroup(String),
    /// A group with that name already exists.
    DuplicateGroup(String),
    /// The same text is already in that group.
    DuplicateEntry(String),
    /// The text was empty, too long, or contained control characters.
    InvalidText(String),
    /// The group name was empty or too long.
    InvalidGroup(String),
    /// The document could not be read or written.
    Io(String),
    /// The document is not valid JSON, or does not match the schema.
    Malformed(String),
    /// The document was written by a newer version of the app.
    UnsupportedVersion(u32),
}

impl VocabError {
    /// The sentence that reports this error.
    pub open spec fn spec_message(&self) -> Seq<char> {
        match self {
            VocabError::NoSuchEntry(id) => "no vocabulary entry with id "@ + decimal(*id as nat),
            VocabError::NoSuchGroup(name) => "no group named "@ + debug_quote(name@),
            VocabError::DuplicateGroup(name) => "a group named "@ + debug_quote(name@)
                + " already exists"@,
            VocabError::DuplicateEntry(text) => debug_quote(text@) + " is already in that group"@,
            VocabError::InvalidText(why) => "invalid entry: "@ + why@,
            VocabError::InvalidGroup(why) => "invalid group name: "@ + why@,
            VocabError::Io(why) => why@,
            VocabError::Malformed(why) => "the vocabulary file is malformed: "@ + why@,
            VocabError::UnsupportedVersion(v) => "the vocabulary file was written by a newer version of the app (format "@
                + decimal(*v as nat) + ", this build understands "@ + decimal(
                FORMAT_VERSION as nat,
            ) + ")"@,
        }
    }

    /// The sentence that reports this error, as it is shown to the learner.
    pub fn message(&self) -> (r: String)
        ensures
            r@ == self.spec_message(),
    {
        match self {
            VocabError::NoSuchEntry(id) => {
                let mut m = "no vocabulary entry with id ".to_owned();
                append_str(&mut m, decimal_string(*id).as_str());
                m
            },
            VocabError::NoSuchGroup(name) => {
                let mut m = "no group named ".to_owned();
                append_str(&mut m, debug_quoted(name.as_str()).as_str());
                m
            },
            VocabError::DuplicateGroup(name) => {
                let mut m = "a group named ".to_owned();
                append_str(&mut m, debug_quoted(name.as_str()).as_str());
                append_str(&mut m, " already exists");
                m
            },
            VocabError::DuplicateEntry(text) => {
                let mut m = debug_quoted(text.as_str());
                append_str(&mut m, " is already in that group");
                m
            },
            VocabError::InvalidText(why) => {
                let mut m = "invalid entry: ".to_owned();
                append_str(&mut m, why.as_str());
                m
            },
            VocabError::InvalidGroup(why) => {
                let mut m = "invalid group name: ".to_owned();
                append_str(&mut m, why.as_str());
                m
            },
            VocabError::Io(why) => why.clone(),
            VocabError::Malformed(why) => {
                let mut m = "the vocabulary file is malformed: ".to_owned();
                append_str(&mut m, why.as_str());
                m
            },
            VocabError::UnsupportedVersion(v) => {
                let mut m = "the vocabulary file was written by a newer version of the app (format ".to_owned();
                append_str(&mut m, decimal_string(*v as u64).as_str());
                append_str(&mut m, ", this build understands ");
                append_str(&mut m, decimal_string(FORMAT_VERSION as u64).as_str());
                append_str(&mut m, ")");
                m
            },
        }
    }
}

/// Summary of an import, so the interface can report what happened.
#[derive(Clone, Debug, PartialEq)]
pub struct ImportSummary {
    pub added: usize,
    pub skipped_duplicates: usize,
    pub groups_added: usize,
    /// True when the import replaced the existing list rather than merging.
    pub replaced: bool,
}

impl Default for ImportSummary {
    fn default() -> (r: ImportSummary)
        ensures
            r.added == 0 && r.skipped_duplicates == 0 && r.groups_added == 0 && !r.replaced,
    {
        ImportSummary { added: 0, skipped_duplicates: 0, groups_added: 0, replaced: false }
    }
}

/// Some character of `s` is a control character.
pub open spec fn has_control(s: Seq<char>) -> bool {
    exists|i: int| 0 <= i < s.len() && control(#[trigger] s[i])
}

fn any_control(v: &Vec<char>) -> (r: bool)
    ensures
        r == has_control(v@),
{
    let mut i: usize = 0;
    while i < v.len()
        invariant
            i <= v.len(),
            forall|k: int| 0 <= k < i ==> !control(#[trigger] v@[k]),
        decreases v.len() - i,
    {
        if is_control(v[i]) {
            return true;
        }
        i += 1;
    }
    false
}

/// The refusal `validate_text` gives for the text `s`, or `None` when it is
/// accepted.
pub open spec fn text_fault(s: Seq<char>) -> Option<Seq<char>> {
    let t = trim(s);
    if t.len() == 0 {
        Some("it is empty"@)
    } else if t.len() > MAX_TEXT_CHARS {
        Some("it is longer than 20 characters"@)
    } else if has_control(t) {
        Some("it contains a control character"@)
    } else {
        None
    }
}

/// Validate and normalise an entry's text: trimmed, and refused when empty,
/// longer than [`MAX_TEXT_CHARS`] characters, or holding a control character.
pub fn validate_text(text: &str) -> (r: Result<String, VocabError>)
    ensures
        match text_fault(text@) {
            None => r matches Ok(t) && t@ == trim(text@),
            Some(why) => r matches Err(VocabError::InvalidText(w)) && w@ == why,
        },
{
    let t = trimmed_chars(text);
    if t.len() == 0 {
        return Err(VocabError::InvalidText("it is empty".to_owned()));
    }
    if t.len() > MAX_TEXT_CHARS {
        let mut why = "it is longer than ".to_owned();
        append_str(&mut why, decimal_string(MAX_TEXT_CHARS as u64).as_str());
        append_str(&mut why, " characters");
        proof {
            reveal_strlit("it is longer than 20 characters");
            reveal_strlit("it is longer than ");
            reveal_strlit(" characters");
            assert(decimal(20) =~= seq!['2', '0']) by {
                assert(decimal(2) == seq!['2']);
            }
            assert(why@ =~= "it is longer than 20 characters"@);
        }
        return Err(VocabError::InvalidText(why));
    }
    if any_control(&t) {
        return Err(VocabError::InvalidText("it contains a control character".to_owned()));
    }
    Ok(crate::text::string_of(&t))
}

/// The refusal `validate_group` gives for the trimmed name `g`, or `None` when
/// it is accepted.
pub open spec fn group_fault(g: Seq<char>) -> Option<Seq<char>> {
    if g.len() > MAX_GROUP_CHARS {
        Some("it is longer than 40 characters"@)
    } else if has_control(g) {
        Some("it contains a control character"@)
    } else {
        None
    }
}

/// Validate and normalise a group name, where `None` and blank both mean
/// unfiled: trimmed, and refused when longer than [`MAX_GROUP_CHARS`]
/// characters or holding a control character.
pub fn validate_group(group: Option<&str>) -> (r: Result<Option<String>, VocabError>)
    ensures
        match group {
            None => r matches Ok(None),
            Some(g) => if trim(g@).len() == 0 {
                r matches Ok(None)
            } else {
                match group_fault(trim(g@)) {
                    None => r matches Ok(Some(t)) && t@ == trim(g@),
                    Some(why) => r matches Err(VocabError::InvalidGroup(w)) && w@ == why,
                }
            },
        },
{
    let g = match group {
        None => return Ok(None),
        Some(g) => g,
    };
    let t = trimmed_chars(g);
    if t.len() == 0 {
        return Ok(None);
    }
    if t.len() > MAX_GROUP_CHARS {
        let mut why = "it is longer than ".to_owned();
        append_str(&mut why, decimal_string(MAX_GROUP_CHARS as u64).as_str());
        append_str(&mut why, " characters");
        proof {
            reveal_strlit("it is longer than 40 characters");
            reveal_strlit("it is longer than ");
            reveal_strlit(" characters");
            assert(decimal(40) =~= seq!['4', '0']) by {
                assert(decimal(4) == seq!['4']);
            }
            assert(why@ =~= "it is longer than 40 characters"@);
        }
        return Err(VocabError::InvalidGroup(why));
    }
    if any_control(&t) {
        return Err(VocabError::InvalidGroup("it contains a control character".to_owned()));
    }
    Ok(Some(crate::text::string_of(&t)))
}

/// A field that needs quoting in CSV: one holding a comma, a quote or a line
/// break.
pub open spec fn awkward(s: Seq<char>) -> bool {
    exists|i: int|
        0 <= i < s.len() && (s[i] == ',' || s[i] == '"' || s[i] == '\n' || s[i] == '\r')
}

/// `s` with every quote doubled.
pub open spec fn quotes_doubled(s: Seq<char>) -> Seq<char>
    decreases s.len(),
{
    if s.len() == 0 {
        seq![]
    } else if s.last() == '"' {
        quotes_doubled(s.drop_last()) + seq!['"', '"']
    } else {
        quotes_doubled(s.drop_last()).push(s.last())
    }
}

/// A CSV field as written: quoted, with its quotes doubled, when it is awkward,
/// and as it is otherwise.
pub open spec fn csv_text(s: Seq<char>) -> Seq<char> {
    if awkward(s) {
        seq!['"'] + quotes_doubled(s) + seq!['"']
    } else {
        s
    }
}

/// Quote a CSV field when it contains a comma, quote or newline.
pub fn csv_field(value: &str) -> (r: String)
    ensures
        r@ == csv_text(value@),
{
    let v = chars_of(value);
    let mut needs = false;
    let mut i: usize = 0;
    while i < v.len()
        invariant
            i <= v.len(),
            v@ == value@,
            needs == exists|k: int|
                0 <= k < i && (v@[k] == ',' || v@[k] == '"' || v@[k] == '\n' || v@[k] == '\r'),
        decreases v.len() - i,
    {
        let c = v[i];
        if c == ',' || c == '"' || c == '\n' || c == '\r' {
            needs = true;
        }
        i += 1;
    }
    if !needs {
        return crate::text::string_of(&v);
    }
    let mut out = String::new();
    push_char(&mut out, '"');
    let mut k: usize = 0;
    while k < v.len()
        invariant
            k <= v.len(),
            v@ == value@,
            out@ == seq!['"'] + quotes_doubled(v@.take(k as int)),
        decreases v.len() - k,
    {
        assert(v@.take(k + 1).drop_last() =~= v@.take(k as int));
        if v[k] == '"' {
            push_char(&mut out, '"');
            push_char(&mut out, '"');
        } else {
            push_char(&mut out, v[k]);
        }
        assert(out@ =~= seq!['"'] + quotes_doubled(v@.take(k + 1)));
        k += 1;
    }
    push_char(&mut out, '"');
    assert(v@.take(k as int) =~= v@);
    out
}

/// The current time as an ISO-8601 UTC string, e.g. `2026-09-19T00:12:34Z`.
pub fn now_iso8601() -> (r: String)
    ensures
        exists|u: int| i64::MIN <= u <= i64::MAX && r@ == iso_text(u),
{
    crate::time::now_iso8601()
}

/// Format a Unix timestamp as ISO-8601 UTC.
pub fn iso8601_from_unix(seconds: i64) -> (r: String)
    ensures
        r@ == iso_text(seconds as int),
{
    crate::time::iso8601_from_unix(seconds)
}


// ---------------------------------------------------------------------------
// The list
// ---------------------------------------------------------------------------

/// One item being studied. Its best score, a measurement, is kept beside it by
/// whoever records the scores.
#[derive(Clone, Debug, PartialEq)]
pub struct Entry {
    /// Stable identifier, unique within the document.
    pub id: u64,
    /// The character or word itself.
    pub text: String,
    /// Pronunciation, always editable.
    pub pinyin: String,
    pub meaning: String,
    /// Group name, or `None` for entries not yet filed under a lesson.
    pub group: Option<String>,
    /// When the entry was added, as an ISO-8601 UTC string.
    pub added_at: String,
    /// How many times the entry has been practised.
    pub attempts: u32,
    /// When it was last practised, if ever.
    pub last_practised: Option<String>,
}

impl Entry {
    /// True when this entry is a single character.
    pub fn is_single_character(&self) -> (r: bool)
        ensures
            r == (self.text@.len() == 1),
    {
        chars_of(self.text.as_str()).len() == 1
    }

    /// The characters this entry is written as, in order.
    pub fn characters(&self) -> (r: Vec<char>)
        ensures
            r@ == self.text@,
    {
        chars_of(self.text.as_str())
    }
}

/// The group an entry sorts under: its name, or nothing for an unfiled one.
pub open spec fn group_key(e: Entry) -> Seq<char> {
    match e.group {
        Some(g) => g@,
        None => seq![],
    }
}

/// The order entries are kept in: grouped together, by group name, and in the
/// order they were added within a group.
pub open spec fn entry_before(a: Entry, b: Entry) -> bool {
    text_before(group_key(a), group_key(b)) || (group_key(a) == group_key(b) && a.id < b.id)
}

proof fn lemma_entry_order(a: Entry, b: Entry, c: Entry)
    ensures
        !entry_before(a, a),
        !(entry_before(a, b) && entry_before(b, a)),
        entry_before(a, b) && entry_before(b, c) ==> entry_before(a, c),
        !entry_before(a, b) && !entry_before(b, a) ==> group_key(a) == group_key(b) && a.id == b.id,
        !entry_before(a, b) && !entry_before(b, c) ==> !entry_before(a, c) || (group_key(a) == group_key(b) && group_key(b) == group_key(c) && a.id == b.id && b.id == c.id),
{
    lemma_text_before_irreflexive(group_key(a));
    lemma_text_before_total(group_key(a), group_key(b));
    lemma_text_before_total(group_key(b), group_key(c));
    lemma_text_before_total(group_key(a), group_key(c));
    if text_before(group_key(a), group_key(b)) && text_before(group_key(b), group_key(c)) {
        lemma_text_before_transitive(group_key(a), group_key(b), group_key(c));
    }
    if text_before(group_key(c), group_key(b)) && text_before(group_key(b), group_key(a)) {
        lemma_text_before_transitive(group_key(c), group_key(b), group_key(a));
    }
}

fn group_of(e: &Entry) -> (r: &str)
    ensures
        r@ == group_key(*e),
{
    proof {
        reveal_strlit("");
    }
    match &e.group {
        Some(g) => g.as_str(),
        None => "",
    }
}

fn entry_comes_before(a: &Entry, b: &Entry) -> (r: bool)
    ensures
        r == entry_before(*a, *b),
{
    let x = group_of(a);
    let y = group_of(b);
    str_before(x, y) || (str_equal(x, y) && a.id < b.id)
}

/// `x` is one of `s`.
pub open spec fn listed(x: Entry, s: Seq<Entry>) -> bool {
    exists|k: int| 0 <= k < s.len() && s[k] == x
}

/// The entries are in the order they are kept in.
pub open spec fn entries_sorted(s: Seq<Entry>) -> bool {
    forall|j: int, k: int| 0 <= j < k < s.len() ==> !entry_before(s[k], s[j])
}

/// The entries in the order they are kept in: a stable sort, so entries with
/// the same group and id keep their order.
fn sort_entries(entries: Vec<Entry>) -> (r: Vec<Entry>)
    ensures
        r.len() == entries.len(),
        entries_sorted(r@),
        forall|j: int| 0 <= j < entries.len() ==> listed(#[trigger] entries@[j], r@),
        forall|k: int| 0 <= k < r.len() ==> listed(#[trigger] r@[k], entries@),
{
    let ghost orig = entries@;
    let mut rest = entries;
    let mut out: Vec<Entry> = Vec::new();
    while rest.len() > 0
        invariant
            rest@ == orig.take(rest.len() as int),
            rest.len() + out.len() == orig.len(),
            entries_sorted(out@),
            forall|j: int| rest.len() <= j < orig.len() ==> listed(#[trigger] orig[j], out@),
            forall|k: int| 0 <= k < out.len() ==> listed(#[trigger] out@[k], orig.skip(rest.len() as int)),
        decreases rest.len(),
    {
        let ghost m = rest.len() - 1;
        let x = rest.pop().unwrap();
        proof {
            assert(x == orig[m]);
            assert(rest@ =~= orig.take(m));
        }
        let mut p: usize = 0;
        while p < out.len() && entry_comes_before(&out[p], &x)
            invariant
                p <= out.len(),
                forall|i: int| 0 <= i < p ==> entry_before(out@[i], x),
            decreases out.len() - p,
        {
            p += 1;
        }
        let ghost before = out@;
        out.insert(p, x);
        proof {
            assert(out@[p as int] == x);
            assert forall|j: int, k: int| 0 <= j < k < out.len() implies !entry_before(out@[k], out@[j]) by {
                if k < p {
                    assert(out@[j] == before[j] && out@[k] == before[k]);
                } else if k == p {
                    assert(out@[j] == before[j]);
                    assert(entry_before(before[j], x));
                    lemma_entry_order(before[j], x, x);
                } else if j == p {
                    assert(out@[k] == before[k - 1]);
                    assert(!entry_before(before[p as int], x));
                    if k - 1 > p {
                        assert(!entry_before(before[k - 1], before[p as int]));
                        lemma_entry_order(before[k - 1], before[p as int], x);
                    }
                } else if j < p {
                    assert(out@[j] == before[j] && out@[k] == before[k - 1]);
                } else {
                    assert(out@[j] == before[j - 1] && out@[k] == before[k - 1]);
                }
            }
            assert forall|j: int| m <= j < orig.len() implies listed(#[trigger] orig[j], out@) by {
                if j > m {
                    assert(listed(orig[j], before));
                    let k = choose|k: int| 0 <= k < before.len() && before[k] == orig[j];
                    if k < p {
                        assert(out@[k] == before[k]);
                    } else {
                        assert(out@[k + 1] == before[k]);
                    }
                } else {
                    assert(out@[p as int] == orig[j]);
                }
            }
            assert forall|k: int| 0 <= k < out.len() implies listed(#[trigger] out@[k], orig.skip(m)) by {
                if k == p {
                    assert(orig.skip(m)[0] == orig[m]);
                } else {
                    let b = if k < p {
                        before[k]
                    } else {
                        before[k - 1]
                    };
                    assert(out@[k] == b);
                    assert(listed(b, orig.skip(m + 1)));
                    let j = choose|j: int| 0 <= j < orig.skip(m + 1).len() && #[trigger] orig.skip(m + 1)[j] == b;
                    assert(orig.skip(m)[j + 1] == orig.skip(m + 1)[j]);
                }
            }
        }
    }
    proof {
        assert(orig.skip(0) =~= orig);
    }
    out
}

/// The group names are in alphabetical order, each once.
pub open spec fn groups_sorted(g: Seq<String>) -> bool {
    forall|j: int, k: int| 0 <= j < k < g.len() ==> text_before(g[j]@, g[k]@)
}

/// Some name in `g` is `name`.
pub open spec fn names(g: Seq<String>, name: Seq<char>) -> bool {
    exists|k: int| 0 <= k < g.len() && g[k]@ == name
}

/// The group names in alphabetical order, each once.
fn sort_groups(groups: Vec<String>) -> (r: Vec<String>)
    ensures
        groups_sorted(r@),
        forall|name: Seq<char>| names(r@, name) <==> names(groups@, name),
{
    let ghost orig = groups@;
    let mut rest = groups;
    let mut out: Vec<String> = Vec::new();
    while rest.len() > 0
        invariant
            rest.len() <= orig.len(),
            rest@ == orig.take(rest.len() as int),
            groups_sorted(out@),
            forall|name: Seq<char>| names(out@, name) <==> names(orig.skip(rest.len() as int), name),
        decreases rest.len(),
    {
        let ghost m = rest.len() - 1;
        let x = rest.pop().unwrap();
        proof {
            assert(x == orig[m]);
            assert(rest@ =~= orig.take(m));
        }
        let mut p: usize = 0;
        while p < out.len() && str_before(out[p].as_str(), x.as_str())
            invariant
                p <= out.len(),
                forall|i: int| 0 <= i < p ==> text_before(out@[i]@, x@),
            decreases out.len() - p,
        {
            p += 1;
        }
        let ghost before = out@;
        let duplicate = p < out.len() && str_equal(out[p].as_str(), x.as_str());
        if !duplicate {
            out.insert(p, x);
        }
        proof {
            if !duplicate {
                assert(out@[p as int] == x);
                if p < before.len() {
                    lemma_text_before_total(before[p as int]@, x@);
                    assert(text_before(x@, before[p as int]@));
                }
                assert forall|j: int, k: int| 0 <= j < k < out.len() implies text_before(out@[j]@, out@[k]@) by {
                    if k < p {
                        assert(out@[j] == before[j] && out@[k] == before[k]);
                    } else if k == p {
                        assert(out@[j] == before[j]);
                    } else if j == p {
                        assert(out@[k] == before[k - 1]);
                        if k - 1 > p {
                            lemma_text_before_transitive(x@, before[p as int]@, before[k - 1]@);
                        }
                    } else if j < p {
                        assert(out@[j] == before[j] && out@[k] == before[k - 1]);
                    } else {
                        assert(out@[j] == before[j - 1] && out@[k] == before[k - 1]);
                    }
                }
            }
            assert forall|name: Seq<char>| names(out@, name) <==> names(orig.skip(m), name) by {
                if names(orig.skip(m), name) {
                    let j = choose|j: int| 0 <= j < orig.skip(m).len() && (#[trigger] orig.skip(m)[j])@ == name;
                    if j == 0 {
                        if duplicate {
                            assert(out@[p as int]@ == name);
                        } else {
                            assert(out@[p as int]@ == name);
                        }
                    } else {
                        assert(orig.skip(m)[j] == orig.skip(m + 1)[j - 1]);
                        assert(names(orig.skip(m + 1), name));
                        assert(names(before, name));
                        let k = choose|k: int| 0 <= k < before.len() && before[k]@ == name;
                        if !duplicate && k >= p {
                            assert(out@[k + 1] == before[k]);
                        } else {
                            assert(out@[k] == before[k]);
                        }
                    }
                }
                if names(out@, name) {
                    let k = choose|k: int| 0 <= k < out@.len() && out@[k]@ == name;
                    if !duplicate && k == p {
                        assert(orig.skip(m)[0] == x);
                    } else {
                        let b = if !duplicate && k > p {
                            before[k - 1]
                        } else {
                            before[k]
                        };
                        assert(out@[k] == b);
                        assert(names(before, name));
                        assert(names(orig.skip(m + 1), name));
                        let j = choose|j: int| 0 <= j < orig.skip(m + 1).len() && (#[trigger] orig.skip(m + 1)[j])@ == name;
                        assert(orig.skip(m)[j + 1] == orig.skip(m + 1)[j]);
                    }
                }
            }
        }
    }
    proof {
        assert(orig.skip(0) =~= orig);
    }
    out
}


// ---------------------------------------------------------------------------
// The store
// ---------------------------------------------------------------------------

/// The persisted list.
#[derive(Clone, Debug)]
pub struct VocabDocument {
    pub version: u32,
    /// Ids are allocated from here, so they are never reused after a deletion.
    pub next_id: u64,
    pub groups: Vec<String>,
    pub entries: Vec<Entry>,
}

impl Default for VocabDocument {
    fn default() -> (r: VocabDocument)
        ensures
            r.version == FORMAT_VERSION,
            r.next_id == 1,
            r.groups.len() == 0,
            r.entries.len() == 0,
    {
        VocabDocument { version: FORMAT_VERSION, next_id: 1, groups: Vec::new(), entries: Vec::new() }
    }
}

/// `after` holds the names of `before` and `extra`, in order and each once.
pub open spec fn names_are(after: Seq<String>, before: Seq<String>, extra: Option<Seq<char>>) -> bool {
    &&& groups_sorted(after)
    &&& forall|name: Seq<char>| #[trigger] names(after, name) <==> (names(before, name) || extra == Some(name))
}

/// `after` holds the entries of `before`, in order.
pub open spec fn entries_are(after: Seq<Entry>, before: Seq<Entry>) -> bool {
    &&& entries_sorted(after)
    &&& after.len() == before.len()
    &&& forall|j: int| 0 <= j < before.len() ==> listed(#[trigger] before[j], after)
    &&& forall|k: int| 0 <= k < after.len() ==> listed(#[trigger] after[k], before)
}

/// `after` holds the group names of `groups` and the entries of `entries`,
/// put in order.
pub open spec fn ordered_from(after: VocabDocument, groups: Seq<String>, entries: Seq<Entry>) -> bool {
    &&& names_are(after.groups@, groups, None)
    &&& entries_are(after.entries@, entries)
}

/// The characters of an optional name.
pub open spec fn opt_text(o: Option<String>) -> Option<Seq<char>> {
    match o {
        Some(s) => Some(s@),
        None => None,
    }
}

/// Some entry already has this text in this group.
pub open spec fn duplicate_in(entries: Seq<Entry>, text: Seq<char>, group: Option<Seq<char>>) -> bool {
    exists|k: int| 0 <= k < entries.len() && entries[k].text@ == text && opt_text(entries[k].group) == group
}

/// The vocabulary list, kept in a file or only in memory.
pub struct VocabStore {
    path: String,
    document: VocabDocument,
}

fn copy_text(o: &Option<String>) -> (r: Option<String>)
    ensures
        r == *o,
{
    match o {
        Some(v) => Some(v.clone()),
        None => None,
    }
}

/// A copy of an entry, field by field.
pub fn copy_entry(e: &Entry) -> (r: Entry)
    ensures
        r == *e,
{
    Entry {
        id: e.id,
        text: e.text.clone(),
        pinyin: e.pinyin.clone(),
        meaning: e.meaning.clone(),
        group: copy_text(&e.group),
        added_at: e.added_at.clone(),
        attempts: e.attempts,
        last_practised: copy_text(&e.last_practised),
    }
}

fn same_group(a: &Option<String>, b: &Option<String>) -> (r: bool)
    ensures
        r == (opt_text(*a) == opt_text(*b)),
{
    match (a, b) {
        (Some(x), Some(y)) => str_equal(x.as_str(), y.as_str()),
        (None, None) => true,
        _ => false,
    }
}

fn has_name(groups: &Vec<String>, name: &str) -> (r: bool)
    ensures
        r == names(groups@, name@),
{
    let mut k: usize = 0;
    while k < groups.len()
        invariant
            k <= groups.len(),
            forall|j: int| 0 <= j < k ==> groups@[j]@ != name@,
        decreases groups.len() - k,
    {
        if str_equal(groups[k].as_str(), name) {
            return true;
        }
        k += 1;
    }
    false
}

impl VocabStore {
    /// The document as it stands.
    pub closed spec fn doc(&self) -> VocabDocument {
        self.document
    }

    /// The file the list is kept in; empty for a list in memory.
    pub closed spec fn file(&self) -> Seq<char> {
        self.path@
    }

    /// Open the list kept at `path`. `found` is the document read from it,
    /// `None` when there is no file yet, which is an empty list. A document from
    /// a newer version of the app is refused; any other is put in order.
    pub fn open(path: String, found: Option<VocabDocument>) -> (r: Result<VocabStore, VocabError>)
        ensures
            match found {
                None => r matches Ok(s) && s.doc().version == FORMAT_VERSION && s.doc().next_id == 1
                    && s.doc().groups.len() == 0 && s.doc().entries.len() == 0,
                Some(d) => if d.version > FORMAT_VERSION {
                    r matches Err(VocabError::UnsupportedVersion(v)) && v == d.version
                } else {
                    r matches Ok(s) && s.doc().version == d.version && s.doc().next_id == d.next_id
                        && ordered_from(s.doc(), d.groups@, d.entries@)
                },
            },
            r matches Ok(s) ==> s.file() == path@,
    {
        match found {
            None => Ok(VocabStore { path, document: VocabDocument::default() }),
            Some(d) => {
                if d.version > FORMAT_VERSION {
                    return Err(VocabError::UnsupportedVersion(d.version));
                }
                let mut store = VocabStore { path, document: d };
                store.sort();
                Ok(store)
            },
        }
    }

    /// An empty list in memory, with no file behind it.
    pub fn in_memory() -> (r: VocabStore)
        ensures
            r.doc().version == FORMAT_VERSION,
            r.doc().next_id == 1,
            r.doc().groups.len() == 0,
            r.doc().entries.len() == 0,
            r.file().len() == 0,
    {
        VocabStore { path: String::new(), document: VocabDocument::default() }
    }

    /// The file the list is kept in, or empty for a list in memory.
    pub fn path(&self) -> (r: &str)
        ensures
            r@ == self.file(),
    {
        self.path.as_str()
    }

    /// The whole document, as it is saved.
    pub fn document(&self) -> (r: &VocabDocument)
        ensures
            *r == self.doc(),
    {
        &self.document
    }

    pub fn entries(&self) -> (r: &[Entry])
        ensures
            r@ == self.doc().entries@,
    {
        self.document.entries.as_slice()
    }

    pub fn groups(&self) -> (r: &[String])
        ensures
            r@ == self.doc().groups@,
    {
        self.document.groups.as_slice()
    }

    /// Put the document in order: group names alphabetical and each once,
    /// entries grouped together in the order they were added.
    fn sort(&mut self)
        ensures
            ordered_from(final(self).doc(), old(self).doc().groups@, old(self).doc().entries@),
            final(self).doc().version == old(self).doc().version,
            final(self).doc().next_id == old(self).doc().next_id,
            final(self).file() == old(self).file(),
    {
        let mut groups: Vec<String> = Vec::new();
        std::mem::swap(&mut groups, &mut self.document.groups);
        self.document.groups = sort_groups(groups);
        let mut entries: Vec<Entry> = Vec::new();
        std::mem::swap(&mut entries, &mut self.document.entries);
        self.document.entries = sort_entries(entries);
    }
}


/// What `validate_text` makes of a text: the trimmed text, or why it is refused.
pub open spec fn text_outcome(text: Seq<char>) -> Result<Seq<char>, Seq<char>> {
    match text_fault(text) {
        None => Ok(trim(text)),
        Some(why) => Err(why),
    }
}

/// What `validate_group` makes of a group name: a trimmed name, none for a
/// blank one, or why it is refused.
pub open spec fn group_outcome(group: Option<Seq<char>>) -> Result<Option<Seq<char>>, Seq<char>> {
    match group {
        None => Ok(None),
        Some(g) => if trim(g).len() == 0 {
            Ok(None)
        } else {
            match group_fault(trim(g)) {
                None => Ok(Some(trim(g))),
                Some(why) => Err(why),
            }
        },
    }
}

/// The characters of an optional string slice.
pub open spec fn opt_str(o: Option<&str>) -> Option<Seq<char>> {
    match o {
        Some(s) => Some(s@),
        None => None,
    }
}

impl VocabStore {
    /// Add the group `name` unless it is there already.
    fn ensure_group(&mut self, name: &str)
        ensures
            forall|x: Seq<char>| #[trigger] names(final(self).doc().groups@, x) <==> (names(old(self).doc().groups@, x) || x == name@),
            final(self).doc().entries == old(self).doc().entries,
            final(self).doc().version == old(self).doc().version,
            final(self).doc().next_id == old(self).doc().next_id,
            final(self).file() == old(self).file(),
    {
        let ghost before = self.document.groups@;
        if !has_name(&self.document.groups, name) {
            let n = name.to_owned();
            self.document.groups.push(n);
            proof {
                lemma_push(before, n);
                assert forall|x: Seq<char>| #[trigger] names(self.document.groups@, x) <==> (names(before, x) || x == name@) by {
                    if names(before, x) {
                        let k = choose|k: int| 0 <= k < before.len() && before[k]@ == x;
                        assert(self.document.groups@[k] == before[k]);
                    }
                    if x == name@ {
                        assert(self.document.groups@[before.len() as int]@ == x);
                    }
                    if names(self.document.groups@, x) {
                        let k = choose|k: int| 0 <= k < self.document.groups@.len() && self.document.groups@[k]@ == x;
                        if k < before.len() {
                            assert(self.document.groups@[k] == before[k]);
                        }
                    }
                }
            }
        }
    }

    /// Add an entry, creating its group when it is new.
    ///
    /// The text and the group name are validated as [`validate_text`] and
    /// [`validate_group`] do, and the same text in the same group is refused as
    /// a duplicate. The entry gets the next id, the reading and meaning trimmed,
    /// no attempts, and the time it was added; the list is then put in order.
    pub fn add_entry(&mut self, text: &str, pinyin: &str, meaning: &str, group: Option<&str>) -> (r: Result<Entry, VocabError>)
        requires
            old(self).doc().next_id < u64::MAX,
        ensures
            final(self).file() == old(self).file(),
            final(self).doc().version == old(self).doc().version,
            match (text_outcome(text@), group_outcome(opt_str(group))) {
                (Err(why), _) => r matches Err(VocabError::InvalidText(w)) && w@ == why && final(self).doc() == old(self).doc(),
                (Ok(_), Err(why)) => r matches Err(VocabError::InvalidGroup(w)) && w@ == why && final(self).doc() == old(self).doc(),
                (Ok(t), Ok(g)) => if duplicate_in(old(self).doc().entries@, t, g) {
                    r matches Err(VocabError::DuplicateEntry(x)) && x@ == t && final(self).doc() == old(self).doc()
                } else {
                    r matches Ok(e) && {
                        &&& e.id == old(self).doc().next_id
                        &&& e.text@ == t
                        &&& e.pinyin@ == trim(pinyin@)
                        &&& e.meaning@ == trim(meaning@)
                        &&& opt_text(e.group) == g
                        &&& e.attempts == 0
                        &&& e.last_practised is None
                        &&& exists|u: int| i64::MIN <= u <= i64::MAX && e.added_at@ == iso_text(u)
                        &&& final(self).doc().next_id == old(self).doc().next_id + 1
                        &&& names_are(final(self).doc().groups@, old(self).doc().groups@, g)
                        &&& entries_are(final(self).doc().entries@, old(self).doc().entries@.push(e))
                    }
                },
            },
    {
        let t = match validate_text(text) {
            Ok(t) => t,
            Err(e) => return Err(e),
        };
        let g = match validate_group(group) {
            Ok(g) => g,
            Err(e) => return Err(e),
        };
        let mut k: usize = 0;
        while k < self.document.entries.len()
            invariant
                k <= self.document.entries.len(),
                self.doc() == old(self).doc(),
                self.file() == old(self).file(),
                text_outcome(text@) == Ok::<Seq<char>, Seq<char>>(t@),
                group_outcome(opt_str(group)) == Ok::<Option<Seq<char>>, Seq<char>>(opt_text(g)),
                forall|j: int| 0 <= j < k ==> !(self.document.entries@[j].text@ == t@ && opt_text(self.document.entries@[j].group) == opt_text(g)),
            decreases self.document.entries.len() - k,
        {
            if str_equal(self.document.entries[k].text.as_str(), t.as_str()) && same_group(&self.document.entries[k].group, &g) {
                proof {
                    assert(duplicate_in(self.document.entries@, t@, opt_text(g)));
                }
                return Err(VocabError::DuplicateEntry(t));
            }
            k += 1;
        }
        let ghost old_entries = self.document.entries@;
        match &g {
            Some(name) => self.ensure_group(name.as_str()),
            None => {},
        }
        let ghost grown = self.document.groups@;
        let entry = Entry {
            id: self.document.next_id,
            text: t,
            pinyin: trimmed(pinyin),
            meaning: trimmed(meaning),
            group: g,
            added_at: now_iso8601(),
            attempts: 0,
            last_practised: None,
        };
        self.document.next_id = self.document.next_id + 1;
        let copy = copy_entry(&entry);
        self.document.entries.push(copy);
        let ghost pushed = self.document.entries@;
        assert(pushed == old_entries.push(entry));
        self.sort();
        proof {
            assert forall|name: Seq<char>| #[trigger] names(self.document.groups@, name) <==> (names(old(self).doc().groups@, name) || opt_text(entry.group) == Some(name)) by {
                assert(names(self.document.groups@, name) <==> names(grown, name));
            }
        }
        Ok(entry)
    }

    /// Add a group, by a name validated as [`validate_group`] does; a blank name
    /// and a name already there are refused.
    pub fn add_group(&mut self, name: &str) -> (r: Result<String, VocabError>)
        ensures
            final(self).file() == old(self).file(),
            final(self).doc().version == old(self).doc().version,
            final(self).doc().next_id == old(self).doc().next_id,
            match group_outcome(Some(name@)) {
                Err(why) => r matches Err(VocabError::InvalidGroup(w)) && w@ == why && final(self).doc() == old(self).doc(),
                Ok(None) => r matches Err(VocabError::InvalidGroup(w)) && w@ == "the name is empty"@ && final(self).doc() == old(self).doc(),
                Ok(Some(g)) => if names(old(self).doc().groups@, g) {
                    r matches Err(VocabError::DuplicateGroup(x)) && x@ == g && final(self).doc() == old(self).doc()
                } else {
                    r matches Ok(x) && x@ == g && names_are(final(self).doc().groups@, old(self).doc().groups@, Some(g))
                        && entries_are(final(self).doc().entries@, old(self).doc().entries@)
                },
            },
    {
        let name = match validate_group(Some(name)) {
            Ok(Some(g)) => g,
            Ok(None) => return Err(VocabError::InvalidGroup("the name is empty".to_owned())),
            Err(e) => return Err(e),
        };
        if has_name(&self.document.groups, name.as_str()) {
            return Err(VocabError::DuplicateGroup(name));
        }
        let ghost before = self.document.groups@;
        let n = name.clone();
        self.document.groups.push(n);
        proof {
            lemma_push(before, n);
            assert forall|x: Seq<char>| #[trigger] names(self.document.groups@, x) <==> (names(before, x) || x == name@) by {
                if names(before, x) {
                    let k = choose|k: int| 0 <= k < before.len() && before[k]@ == x;
                    assert(self.document.groups@[k] == before[k]);
                }
                if x == name@ {
                    assert(self.document.groups@[before.len() as int]@ == x);
                }
                if names(self.document.groups@, x) {
                    let k = choose|k: int| 0 <= k < self.document.groups@.len() && self.document.groups@[k]@ == x;
                    if k < before.len() {
                        assert(self.document.groups@[k] == before[k]);
                    }
                }
            }
        }
        let ghost grown = self.document.groups@;
        self.sort();
        proof {
            assert forall|x: Seq<char>| #[trigger] names(self.document.groups@, x) <==> (names(before, x) || Some(name@) == Some(x)) by {
                assert(names(self.document.groups@, x) <==> names(grown, x));
            }
        }
        Ok(name)
    }
}


/// Where the entry with id `id` is: the first such.
pub open spec fn index_of(entries: Seq<Entry>, id: u64) -> Option<int>
    decreases entries.len(),
{
    if entries.len() == 0 {
        None
    } else {
        match index_of(entries.drop_last(), id) {
            Some(k) => Some(k),
            None => if entries.last().id == id {
                Some(entries.len() - 1)
            } else {
                None
            },
        }
    }
}

proof fn lemma_index_of(entries: Seq<Entry>, id: u64)
    ensures
        match index_of(entries, id) {
            Some(k) => 0 <= k < entries.len() && entries[k].id == id && forall|j: int| 0 <= j < k ==> entries[j].id != id,
            None => forall|j: int| 0 <= j < entries.len() ==> entries[j].id != id,
        },
    decreases entries.len(),
{
    if entries.len() > 0 {
        let d = entries.drop_last();
        lemma_index_of(d, id);
        assert forall|j: int| 0 <= j < d.len() implies d[j] == entries[j] by {}
    }
}

fn find_id(entries: &Vec<Entry>, id: u64) -> (r: Option<usize>)
    ensures
        match r {
            Some(k) => index_of(entries@, id) == Some(k as int),
            None => index_of(entries@, id) is None,
        },
{
    proof {
        lemma_index_of(entries@, id);
    }
    let mut k: usize = 0;
    while k < entries.len()
        invariant
            k <= entries.len(),
            forall|j: int| 0 <= j < k ==> entries@[j].id != id,
        decreases entries.len() - k,
    {
        if entries[k].id == id {
            proof {
                lemma_index_of(entries@, id);
                if index_of(entries@, id) != Some(k as int) {
                    assert(entries@[k as int].id == id);
                }
            }
            return Some(k);
        }
        k += 1;
    }
    None
}

/// The entry `e` renamed into group `x` when it was in `from`.
pub open spec fn renamed(e: Entry, from: Seq<char>, x: String) -> Entry {
    if opt_text(e.group) == Some(from) {
        Entry { group: Some(x), ..e }
    } else {
        e
    }
}

/// The entries not in group `name`.
pub open spec fn outside(entries: Seq<Entry>, name: Seq<char>) -> Seq<Entry>
    decreases entries.len(),
{
    if entries.len() == 0 {
        seq![]
    } else if opt_text(entries.last().group) == Some(name) {
        outside(entries.drop_last(), name)
    } else {
        outside(entries.drop_last(), name).push(entries.last())
    }
}

/// The entries, those in group `name` left unfiled.
pub open spec fn unfiled(entries: Seq<Entry>, name: Seq<char>) -> Seq<Entry> {
    entries.map_values(|e: Entry| if opt_text(e.group) == Some(name) { Entry { group: None, ..e } } else { e })
}

/// How many entries are in group `name`.
pub open spec fn count_in(entries: Seq<Entry>, name: Seq<char>) -> nat
    decreases entries.len(),
{
    if entries.len() == 0 {
        0
    } else {
        count_in(entries.drop_last(), name) + if opt_text(entries.last().group) == Some(name) {
            1nat
        } else {
            0nat
        }
    }
}

/// Where the group `name` is: the first such.
pub open spec fn group_index(groups: Seq<String>, name: Seq<char>) -> Option<int>
    decreases groups.len(),
{
    if groups.len() == 0 {
        None
    } else {
        match group_index(groups.drop_last(), name) {
            Some(k) => Some(k),
            None => if groups.last()@ == name {
                Some(groups.len() - 1)
            } else {
                None
            },
        }
    }
}

proof fn lemma_group_index(groups: Seq<String>, name: Seq<char>)
    ensures
        match group_index(groups, name) {
            Some(k) => 0 <= k < groups.len() && groups[k]@ == name && forall|j: int| 0 <= j < k ==> groups[j]@ != name,
            None => !names(groups, name),
        },
    decreases groups.len(),
{
    if groups.len() > 0 {
        let d = groups.drop_last();
        lemma_group_index(d, name);
        assert forall|j: int| 0 <= j < d.len() implies d[j] == groups[j] by {}
        if group_index(groups, name) is None {
            assert forall|j: int| 0 <= j < groups.len() implies groups[j]@ != name by {
                if j < groups.len() - 1 {
                    assert(groups.drop_last()[j] == groups[j]);
                }
            }
        }
    }
}

/// The entries in group `g`, or the unfiled ones for `None`, in order.
pub open spec fn in_group(entries: Seq<Entry>, g: Option<Seq<char>>) -> Seq<Entry>
    decreases entries.len(),
{
    if entries.len() == 0 {
        seq![]
    } else if opt_text(entries.last().group) == g {
        in_group(entries.drop_last(), g).push(entries.last())
    } else {
        in_group(entries.drop_last(), g)
    }
}

impl VocabStore {
    /// Change an entry's reading, meaning or group.
    ///
    /// The group is validated as [`validate_group`] does, and created when it
    /// is new, before the entry is looked for.
    pub fn update_entry(&mut self, id: u64, pinyin: &str, meaning: &str, group: Option<&str>) -> (r: Result<Entry, VocabError>)
        ensures
            final(self).file() == old(self).file(),
            final(self).doc().version == old(self).doc().version,
            final(self).doc().next_id == old(self).doc().next_id,
            match group_outcome(opt_str(group)) {
                Err(why) => r matches Err(VocabError::InvalidGroup(w)) && w@ == why && final(self).doc() == old(self).doc(),
                Ok(g) => match index_of(old(self).doc().entries@, id) {
                    None => {
                        &&& r matches Err(VocabError::NoSuchEntry(x)) && x == id
                        &&& final(self).doc().entries == old(self).doc().entries
                        &&& forall|name: Seq<char>| #[trigger] names(final(self).doc().groups@, name) <==> (names(old(self).doc().groups@, name) || g == Some(name))
                    },
                    Some(k) => r matches Ok(e) && {
                        let before = old(self).doc().entries@[k];
                        &&& e.id == id
                        &&& e.text == before.text
                        &&& e.pinyin@ == trim(pinyin@)
                        &&& e.meaning@ == trim(meaning@)
                        &&& opt_text(e.group) == g
                        &&& e.added_at == before.added_at
                        &&& e.attempts == before.attempts
                        &&& e.last_practised == before.last_practised
                        &&& names_are(final(self).doc().groups@, old(self).doc().groups@, g)
                        &&& entries_are(final(self).doc().entries@, old(self).doc().entries@.update(k, e))
                    },
                },
            },
    {
        let g = match validate_group(group) {
            Ok(g) => g,
            Err(e) => return Err(e),
        };
        match &g {
            Some(name) => self.ensure_group(name.as_str()),
            None => {},
        }
        let ghost grown = self.document.groups@;
        let k = match find_id(&self.document.entries, id) {
            Some(k) => k,
            None => return Err(VocabError::NoSuchEntry(id)),
        };
        proof {
            lemma_index_of(self.document.entries@, id);
        }
        let old_entry = copy_entry(&self.document.entries[k]);
        let updated = Entry {
            id: old_entry.id,
            text: old_entry.text,
            pinyin: trimmed(pinyin),
            meaning: trimmed(meaning),
            group: g,
            added_at: old_entry.added_at,
            attempts: old_entry.attempts,
            last_practised: old_entry.last_practised,
        };
        let ghost before = self.document.entries@;
        self.document.entries.set(k, copy_entry(&updated));
        assert(self.document.entries@ == before.update(k as int, updated));
        self.sort();
        proof {
            assert forall|name: Seq<char>| #[trigger] names(self.document.groups@, name) <==> (names(old(self).doc().groups@, name) || opt_text(updated.group) == Some(name)) by {
                assert(names(self.document.groups@, name) <==> names(grown, name));
            }
        }
        Ok(updated)
    }

    /// Remove the entry with id `id`, and give it back.
    pub fn remove_entry(&mut self, id: u64) -> (r: Result<Entry, VocabError>)
        ensures
            final(self).file() == old(self).file(),
            final(self).doc().version == old(self).doc().version,
            final(self).doc().next_id == old(self).doc().next_id,
            final(self).doc().groups == old(self).doc().groups,
            match index_of(old(self).doc().entries@, id) {
                None => r matches Err(VocabError::NoSuchEntry(x)) && x == id && final(self).doc() == old(self).doc(),
                Some(k) => r matches Ok(e) && e == old(self).doc().entries@[k]
                    && final(self).doc().entries@ == old(self).doc().entries@.remove(k),
            },
    {
        let k = match find_id(&self.document.entries, id) {
            Some(k) => k,
            None => return Err(VocabError::NoSuchEntry(id)),
        };
        proof {
            lemma_index_of(self.document.entries@, id);
        }
        Ok(self.document.entries.remove(k))
    }

    /// Record a practice attempt against an entry: one more attempt, practised
    /// now. The score is kept by whoever records it.
    pub fn record_attempt(&mut self, id: u64) -> (r: Result<Entry, VocabError>)
        requires
            forall|j: int|
                0 <= j < old(self).doc().entries.len() && (#[trigger] old(self).doc().entries@[j]).id == id
                    ==> old(self).doc().entries@[j].attempts < u32::MAX,
        ensures
            final(self).file() == old(self).file(),
            final(self).doc().version == old(self).doc().version,
            final(self).doc().next_id == old(self).doc().next_id,
            final(self).doc().groups == old(self).doc().groups,
            match index_of(old(self).doc().entries@, id) {
                None => r matches Err(VocabError::NoSuchEntry(x)) && x == id && final(self).doc() == old(self).doc(),
                Some(k) => r matches Ok(e) && {
                    let before = old(self).doc().entries@[k];
                    &&& e == (Entry { attempts: (before.attempts + 1) as u32, last_practised: e.last_practised, ..before })
                    &&& e.last_practised matches Some(t) && exists|u: int| i64::MIN <= u <= i64::MAX && t@ == iso_text(u)
                    &&& final(self).doc().entries@ == old(self).doc().entries@.update(k, e)
                },
            },
    {
        let k = match find_id(&self.document.entries, id) {
            Some(k) => k,
            None => return Err(VocabError::NoSuchEntry(id)),
        };
        proof {
            lemma_index_of(self.document.entries@, id);
        }
        let e = copy_entry(&self.document.entries[k]);
        let updated = Entry { attempts: e.attempts + 1, last_practised: Some(now_iso8601()), ..e };
        self.document.entries.set(k, copy_entry(&updated));
        Ok(updated)
    }

    /// The entries in one group, or the unfiled ones for `None`, in order.
    pub fn entries_in(&self, group: Option<&str>) -> (r: Vec<&Entry>)
        ensures
            r@.map_values(|e: &Entry| *e) == in_group(self.doc().entries@, opt_str(group)),
    {
        let ghost all = self.document.entries@;
        let mut out: Vec<&Entry> = Vec::new();
        let mut k: usize = 0;
        while k < self.document.entries.len()
            invariant
                k <= self.document.entries.len(),
                all == self.document.entries@,
                out@.map_values(|e: &Entry| *e) == in_group(all.take(k as int), opt_str(group)),
            decreases self.document.entries.len() - k,
        {
            proof {
                assert(all.take(k + 1).drop_last() =~= all.take(k as int));
            }
            let e = &self.document.entries[k];
            let hit = match (&e.group, group) {
                (Some(x), Some(y)) => str_equal(x.as_str(), y),
                (None, None) => true,
                _ => false,
            };
            if hit {
                let ghost before = out@;
                out.push(e);
                proof {
                    lemma_push(before, e);
                    assert(out@.map_values(|e: &Entry| *e) =~= before.map_values(|e: &Entry| *e).push(*e));
                }
            }
            k += 1;
        }
        assert(all.take(k as int) =~= all);
        out
    }

    /// The entries to practise: the whole list for `None`, or one group.
    pub fn practice_set(&self, group: Option<&str>) -> (r: Vec<Entry>)
        ensures
            r@ == match group {
                None => self.doc().entries@,
                Some(_) => in_group(self.doc().entries@, opt_str(group)),
            },
    {
        match group {
            None => {
                let mut out: Vec<Entry> = Vec::new();
                let mut k: usize = 0;
                while k < self.document.entries.len()
                    invariant
                        k <= self.document.entries.len(),
                        out@ == self.document.entries@.take(k as int),
                    decreases self.document.entries.len() - k,
                {
                    let ghost before = out@;
                    let c = copy_entry(&self.document.entries[k]);
                    out.push(c);
                    proof {
                        lemma_push(before, c);
                        assert(out@ =~= self.document.entries@.take(k + 1));
                    }
                    k += 1;
                }
                assert(self.document.entries@.take(k as int) =~= self.document.entries@);
                out
            },
            Some(_) => {
                let chosen = self.entries_in(group);
                let mut out: Vec<Entry> = Vec::new();
                let mut k: usize = 0;
                while k < chosen.len()
                    invariant
                        k <= chosen.len(),
                        out@ == chosen@.map_values(|e: &Entry| *e).take(k as int),
                    decreases chosen.len() - k,
                {
                    let ghost before = out@;
                    let c = copy_entry(chosen[k]);
                    out.push(c);
                    proof {
                        lemma_push(before, c);
                        assert(out@ =~= chosen@.map_values(|e: &Entry| *e).take(k + 1));
                    }
                    k += 1;
                }
                assert(chosen@.map_values(|e: &Entry| *e).take(k as int) =~= chosen@.map_values(|e: &Entry| *e));
                out
            },
        }
    }
}


impl VocabStore {
    /// Rename a group, moving its entries with it. A name already taken by
    /// another group is refused rather than merged into.
    pub fn rename_group(&mut self, from: &str, to: &str) -> (r: Result<String, VocabError>)
        ensures
            final(self).file() == old(self).file(),
            final(self).doc().version == old(self).doc().version,
            final(self).doc().next_id == old(self).doc().next_id,
            !names(old(self).doc().groups@, from@) ==> (r matches Err(VocabError::NoSuchGroup(x)) && x@ == from@ && final(self).doc() == old(self).doc()),
            names(old(self).doc().groups@, from@) ==> match group_outcome(Some(to@)) {
                Err(why) => r matches Err(VocabError::InvalidGroup(w)) && w@ == why && final(self).doc() == old(self).doc(),
                Ok(None) => r matches Err(VocabError::InvalidGroup(w)) && w@ == "the name is empty"@ && final(self).doc() == old(self).doc(),
                Ok(Some(t)) => if t != from@ && names(old(self).doc().groups@, t) {
                    r matches Err(VocabError::DuplicateGroup(x)) && x@ == t && final(self).doc() == old(self).doc()
                } else {
                    r matches Ok(x) && x@ == t && {
                        &&& groups_sorted(final(self).doc().groups@)
                        &&& forall|name: Seq<char>| #[trigger] names(final(self).doc().groups@, name) <==> ((names(old(self).doc().groups@, name) && name != from@) || name == t)
                        &&& entries_are(final(self).doc().entries@, old(self).doc().entries@.map_values(|e: Entry| renamed(e, from@, x)))
                    }
                },
            },
    {
        if !has_name(&self.document.groups, from) {
            return Err(VocabError::NoSuchGroup(from.to_owned()));
        }
        let t = match validate_group(Some(to)) {
            Ok(Some(g)) => g,
            Ok(None) => return Err(VocabError::InvalidGroup("the name is empty".to_owned())),
            Err(e) => return Err(e),
        };
        if !str_equal(t.as_str(), from) && has_name(&self.document.groups, t.as_str()) {
            return Err(VocabError::DuplicateGroup(t));
        }
        let ghost old_groups = self.document.groups@;
        let mut k: usize = 0;
        while k < self.document.groups.len()
            invariant
                k <= self.document.groups.len(),
                self.document.groups.len() == old_groups.len(),
                forall|j: int| 0 <= j < k ==> (#[trigger] self.document.groups@[j])@ == if old_groups[j]@ == from@ { t@ } else { old_groups[j]@ },
                forall|j: int| k <= j < old_groups.len() ==> #[trigger] self.document.groups@[j] == old_groups[j],
                self.document.entries == old(self).doc().entries,
                self.document.version == old(self).doc().version,
                self.document.next_id == old(self).doc().next_id,
                self.path == old(self).path,
            decreases self.document.groups.len() - k,
        {
            if str_equal(self.document.groups[k].as_str(), from) {
                self.document.groups.set(k, t.clone());
            }
            k += 1;
        }
        let ghost old_entries = self.document.entries@;
        let ghost renamed_groups = self.document.groups@;
        proof {
            assert forall|j: int| 0 <= j < renamed_groups.len() implies (#[trigger] renamed_groups[j])@ == if old_groups[j]@ == from@ { t@ } else { old_groups[j]@ } by {
                assert(renamed_groups[j] == self.document.groups@[j]);
            }
        }
        let mut k: usize = 0;
        while k < self.document.entries.len()
            invariant
                k <= self.document.entries.len(),
                self.document.groups@ == renamed_groups,
                self.document.entries.len() == old_entries.len(),
                forall|j: int| 0 <= j < k ==> #[trigger] self.document.entries@[j] == renamed(old_entries[j], from@, t),
                forall|j: int| k <= j < old_entries.len() ==> #[trigger] self.document.entries@[j] == old_entries[j],
                self.document.version == old(self).doc().version,
                self.document.next_id == old(self).doc().next_id,
                self.path == old(self).path,
            decreases self.document.entries.len() - k,
        {
            let e = copy_entry(&self.document.entries[k]);
            let moved = match &e.group {
                Some(g) => str_equal(g.as_str(), from),
                None => false,
            };
            if moved {
                let updated = Entry { group: Some(t.clone()), ..e };
                self.document.entries.set(k, updated);
            }
            k += 1;
        }
        proof {
            assert(self.document.entries@ =~= old_entries.map_values(|e: Entry| renamed(e, from@, t)));
            assert forall|name: Seq<char>| #[trigger] names(renamed_groups, name) <==> ((names(old_groups, name) && name != from@) || name == t@) by {
                if names(renamed_groups, name) {
                    let j = choose|j: int| 0 <= j < renamed_groups.len() && renamed_groups[j]@ == name;
                    assert(renamed_groups[j]@ == if old_groups[j]@ == from@ { t@ } else { old_groups[j]@ });
                }
                if names(old_groups, name) && name != from@ {
                    let j = choose|j: int| 0 <= j < old_groups.len() && old_groups[j]@ == name;
                    assert(renamed_groups[j]@ == if old_groups[j]@ == from@ { t@ } else { old_groups[j]@ });
                }
                if name == t@ {
                    let j = choose|j: int| 0 <= j < old_groups.len() && old_groups[j]@ == from@;
                    assert(renamed_groups[j]@ == t@);
                }
            }
        }
        self.sort();
        proof {
            assert forall|name: Seq<char>| #[trigger] names(self.document.groups@, name) <==> ((names(old_groups, name) && name != from@) || name == t@) by {
                assert(names(self.document.groups@, name) <==> names(renamed_groups, name));
            }
        }
        Ok(t)
    }

    /// Remove a group. With `delete_entries` its entries go too; without, they
    /// survive unfiled, which is the safe default. Answers how many entries it
    /// held.
    pub fn remove_group(&mut self, name: &str, delete_entries: bool) -> (r: Result<usize, VocabError>)
        ensures
            final(self).file() == old(self).file(),
            final(self).doc().version == old(self).doc().version,
            final(self).doc().next_id == old(self).doc().next_id,
            match group_index(old(self).doc().groups@, name@) {
                None => r matches Err(VocabError::NoSuchGroup(x)) && x@ == name@ && final(self).doc() == old(self).doc(),
                Some(k) => r matches Ok(n) && {
                    &&& n == count_in(old(self).doc().entries@, name@)
                    &&& final(self).doc().groups@ == old(self).doc().groups@.remove(k)
                    &&& final(self).doc().entries@ == if delete_entries {
                        outside(old(self).doc().entries@, name@)
                    } else {
                        unfiled(old(self).doc().entries@, name@)
                    }
                },
            },
    {
        let mut k: usize = 0;
        let ghost gs = self.document.groups@;
        proof {
            lemma_group_index(gs, name@);
        }
        while k < self.document.groups.len() && !str_equal(self.document.groups[k].as_str(), name)
            invariant
                k <= self.document.groups.len(),
                gs == self.document.groups@,
                forall|j: int| 0 <= j < k ==> gs[j]@ != name@,
            decreases self.document.groups.len() - k,
        {
            k += 1;
        }
        if k == self.document.groups.len() {
            proof {
                lemma_group_index(gs, name@);
                if group_index(gs, name@) is Some {
                    let i = group_index(gs, name@)->0;
                    assert(gs[i]@ == name@);
                }
            }
            return Err(VocabError::NoSuchGroup(name.to_owned()));
        }
        proof {
            lemma_group_index(gs, name@);
            let i = group_index(gs, name@)->0;
            if i != k {
                if i < k {
                    assert(gs[i]@ != name@);
                } else {
                    assert(gs[k as int]@ != name@);
                }
            }
        }
        self.document.groups.remove(k);
        let ghost old_entries = self.document.entries@;
        let mut count: usize = 0;
        let mut kept: Vec<Entry> = Vec::new();
        let mut j: usize = 0;
        while j < self.document.entries.len()
            invariant
                j <= self.document.entries.len(),
                old_entries == self.document.entries@,
                count == count_in(old_entries.take(j as int), name@),
                count <= j,
                kept@ == if delete_entries {
                    outside(old_entries.take(j as int), name@)
                } else {
                    unfiled(old_entries.take(j as int), name@)
                },
            decreases self.document.entries.len() - j,
        {
            proof {
                assert(old_entries.take(j + 1).drop_last() =~= old_entries.take(j as int));
            }
            let e = copy_entry(&self.document.entries[j]);
            let inside = match &e.group {
                Some(g) => str_equal(g.as_str(), name),
                None => false,
            };
            let ghost before = kept@;
            if inside {
                count += 1;
                if !delete_entries {
                    let u = Entry { group: None, ..e };
                    kept.push(u);
                    proof {
                        lemma_push(before, u);
                    }
                }
            } else {
                kept.push(e);
                proof {
                    lemma_push(before, e);
                }
            }
            proof {
                if !delete_entries {
                    assert(kept@ =~= unfiled(old_entries.take(j + 1), name@));
                }
            }
            j += 1;
        }
        proof {
            assert(old_entries.take(j as int) =~= old_entries);
        }
        self.document.entries = kept;
        Ok(count)
    }
}


/// The group names after the incoming ones are added to `base`, each name
/// once, and how many were new.
pub open spec fn merged_groups(base: Seq<String>, incoming: Seq<String>, n: int) -> (Seq<String>, nat)
    decreases n,
{
    if n <= 0 {
        (base, 0)
    } else {
        let (g, c) = merged_groups(base, incoming, n - 1);
        if names(g, incoming[n - 1]@) {
            (g, c)
        } else {
            (g.push(incoming[n - 1]), c + 1)
        }
    }
}

/// The entries after the first `n` incoming ones are added to `base`: each
/// with a new id counted from `next`, a text already in its group skipped.
pub open spec fn imported(base: Seq<Entry>, incoming: Seq<Entry>, next: u64, n: int) -> Seq<Entry>
    decreases n,
{
    if n <= 0 {
        base
    } else {
        let prev = imported(base, incoming, next, n - 1);
        let e = incoming[n - 1];
        if duplicate_in(prev, e.text@, opt_text(e.group)) {
            prev
        } else {
            prev.push(Entry { id: (next + (prev.len() - base.len())) as u64, ..e })
        }
    }
}

proof fn lemma_imported_len(base: Seq<Entry>, incoming: Seq<Entry>, next: u64, n: int)
    requires
        0 <= n <= incoming.len(),
    ensures
        base.len() <= imported(base, incoming, next, n).len() <= base.len() + n,
    decreases n,
{
    if n > 0 {
        lemma_imported_len(base, incoming, next, n - 1);
    }
}

/// The groups an import starts from: the list's own when merging, none when
/// replacing.
pub open spec fn kept_groups(d: VocabDocument, merge: bool) -> Seq<String> {
    if merge {
        d.groups@
    } else {
        Seq::<String>::empty()
    }
}

/// The entries an import starts from: the list's own when merging, none when
/// replacing.
pub open spec fn kept_entries(d: VocabDocument, merge: bool) -> Seq<Entry> {
    if merge {
        d.entries@
    } else {
        Seq::<Entry>::empty()
    }
}

impl VocabStore {
    /// Merge or replace the list from an exported document.
    ///
    /// Merging keeps the entries there are, adds the new ones and unions the
    /// groups; replacing starts from nothing. An imported entry whose text is
    /// already in its group is skipped rather than duplicated, and every entry
    /// taken gets a new id, so an import can never collide with an id this
    /// list has used. A document from a newer version is refused.
    pub fn import(&mut self, incoming: VocabDocument, merge: bool) -> (r: Result<ImportSummary, VocabError>)
        requires
            old(self).doc().next_id + incoming.entries.len() <= u64::MAX,
        ensures
            final(self).file() == old(self).file(),
            final(self).doc().version == old(self).doc().version,
            incoming.version > FORMAT_VERSION ==> (r matches Err(VocabError::UnsupportedVersion(v)) && v == incoming.version && final(self).doc() == old(self).doc()),
            incoming.version <= FORMAT_VERSION ==> (r matches Ok(summary) && {
                let base_groups = kept_groups(old(self).doc(), merge);
                let base_entries = kept_entries(old(self).doc(), merge);
                let groups = merged_groups(base_groups, incoming.groups@, incoming.groups.len() as int).0;
                let entries = imported(base_entries, incoming.entries@, old(self).doc().next_id, incoming.entries.len() as int);
                let added = entries.len() - base_entries.len();
                &&& summary.replaced == !merge
                &&& summary.groups_added == merged_groups(base_groups, incoming.groups@, incoming.groups.len() as int).1
                &&& summary.added == added
                &&& summary.skipped_duplicates == incoming.entries.len() - added
                &&& final(self).doc().next_id == old(self).doc().next_id + added
                &&& groups_sorted(final(self).doc().groups@)
                &&& forall|x: Seq<char>| #[trigger] names(final(self).doc().groups@, x) <==> (names(groups, x) || exists|k: int| base_entries.len() <= k < entries.len() && opt_text(entries[k].group) == Some(x))
                &&& entries_are(final(self).doc().entries@, entries)
            }),
    {
        if incoming.version > FORMAT_VERSION {
            return Err(VocabError::UnsupportedVersion(incoming.version));
        }
        let ghost old_next = self.document.next_id;
        if !merge {
            self.document.entries = Vec::new();
            self.document.groups = Vec::new();
        }
        let ghost base_groups = self.document.groups@;
        let ghost base_entries = self.document.entries@;
        assert(base_groups == kept_groups(old(self).doc(), merge));
        assert(base_entries == kept_entries(old(self).doc(), merge));
        let VocabDocument { version: _, next_id: _, groups: in_groups, entries: in_entries } = incoming;
        let mut groups_added: usize = 0;
        let mut k: usize = 0;
        while k < in_groups.len()
            invariant
                k <= in_groups.len(),
                self.document.groups@ == merged_groups(base_groups, in_groups@, k as int).0,
                groups_added == merged_groups(base_groups, in_groups@, k as int).1,
                groups_added <= k,
                self.document.entries@ == base_entries,
                self.document.next_id == old_next,
                self.document.version == old(self).doc().version,
                self.file() == old(self).file(),
            decreases in_groups.len() - k,
        {
            if !has_name(&self.document.groups, in_groups[k].as_str()) {
                let g = in_groups[k].clone();
                self.document.groups.push(g);
                groups_added += 1;
            }
            k += 1;
        }
        let ghost merged = self.document.groups@;
        let mut added: usize = 0;
        let mut skipped: usize = 0;
        let mut k: usize = 0;
        while k < in_entries.len()
            invariant
                k <= in_entries.len(),
                old_next + in_entries.len() <= u64::MAX,
                self.document.entries@ == imported(base_entries, in_entries@, old_next, k as int),
                added == self.document.entries@.len() - base_entries.len(),
                added + skipped == k,
                self.document.next_id == old_next + added,
                forall|x: Seq<char>| #[trigger] names(self.document.groups@, x) <==> (names(merged, x) || exists|j: int| base_entries.len() <= j < self.document.entries@.len() && opt_text(self.document.entries@[j].group) == Some(x)),
                self.document.version == old(self).doc().version,
                self.file() == old(self).file(),
            decreases in_entries.len() - k,
        {
            proof {
                lemma_imported_len(base_entries, in_entries@, old_next, k as int);
            }
            let e = copy_entry(&in_entries[k]);
            let mut duplicate = false;
            let mut j: usize = 0;
            while j < self.document.entries.len()
                invariant
                    j <= self.document.entries.len(),
                    duplicate == exists|i: int| 0 <= i < j && self.document.entries@[i].text@ == e.text@ && opt_text(self.document.entries@[i].group) == opt_text(e.group),
                decreases self.document.entries.len() - j,
            {
                if str_equal(self.document.entries[j].text.as_str(), e.text.as_str()) && same_group(&self.document.entries[j].group, &e.group) {
                    duplicate = true;
                }
                j += 1;
            }
            let ghost prev_entries = self.document.entries@;
            let ghost prev_groups = self.document.groups@;
            if duplicate {
                skipped += 1;
            } else {
                match &e.group {
                    Some(name) => self.ensure_group(name.as_str()),
                    None => {},
                }
                let taken = Entry { id: self.document.next_id, ..e };
                self.document.next_id = self.document.next_id + 1;
                self.document.entries.push(taken);
                added += 1;
                proof {
                    assert(self.document.entries@ == prev_entries.push(taken));
                    assert forall|x: Seq<char>| #[trigger] names(self.document.groups@, x) <==> (names(merged, x) || exists|i: int| base_entries.len() <= i < self.document.entries@.len() && opt_text(self.document.entries@[i].group) == Some(x)) by {
                        if exists|i: int| base_entries.len() <= i < self.document.entries@.len() && opt_text(self.document.entries@[i].group) == Some(x) {
                            let i = choose|i: int| base_entries.len() <= i < self.document.entries@.len() && opt_text(self.document.entries@[i].group) == Some(x);
                            if i < prev_entries.len() {
                                assert(self.document.entries@[i] == prev_entries[i]);
                                assert(names(prev_groups, x));
                            }
                        }
                        if exists|i: int| base_entries.len() <= i < prev_entries.len() && opt_text(prev_entries[i].group) == Some(x) {
                            let i = choose|i: int| base_entries.len() <= i < prev_entries.len() && opt_text(prev_entries[i].group) == Some(x);
                            assert(self.document.entries@[i] == prev_entries[i]);
                        }
                        if opt_text(taken.group) == Some(x) {
                            assert(self.document.entries@[prev_entries.len() as int] == taken);
                        }
                    }
                }
            }
            k += 1;
        }
        let ghost unsorted = self.document.groups@;
        self.sort();
        proof {
            lemma_imported_len(base_entries, in_entries@, old_next, k as int);
            assert forall|x: Seq<char>| #[trigger] names(self.document.groups@, x) <==> (names(merged, x) || exists|j: int| base_entries.len() <= j < imported(base_entries, in_entries@, old_next, in_entries.len() as int).len() && opt_text(imported(base_entries, in_entries@, old_next, in_entries.len() as int)[j].group) == Some(x)) by {
                assert(names(self.document.groups@, x) <==> names(unsorted, x));
            }
        }
        Ok(ImportSummary { added, skipped_duplicates: skipped, groups_added, replaced: !merge })
    }
}


/// The header of the CSV export.
pub open spec fn csv_header() -> Seq<char> {
    "text,pinyin,meaning,group,attempts,best_score,last_practised,added_at\n"@
}

/// An optional text, empty when absent.
pub open spec fn or_empty(o: Option<String>) -> Seq<char> {
    match o {
        Some(s) => s@,
        None => seq![],
    }
}

/// One entry as a CSV line, its best score written as `best`.
pub open spec fn csv_row(e: Entry, best: Seq<char>) -> Seq<char> {
    crate::text::join(
        seq![
            csv_text(e.text@),
            csv_text(e.pinyin@),
            csv_text(e.meaning@),
            csv_text(or_empty(e.group)),
            csv_text(decimal(e.attempts as nat)),
            csv_text(best),
            csv_text(or_empty(e.last_practised)),
            csv_text(e.added_at@),
        ],
        ","@,
    ) + "\n"@
}

/// The lines of the first `n` entries.
pub open spec fn csv_rows(entries: Seq<Entry>, best: Seq<String>, n: int) -> Seq<char>
    decreases n,
{
    if n <= 0 {
        seq![]
    } else {
        csv_rows(entries, best, n - 1) + csv_row(entries[n - 1], best[n - 1]@)
    }
}

fn opt_str_of(o: &Option<String>) -> (r: &str)
    ensures
        r@ == or_empty(*o),
{
    proof {
        reveal_strlit("");
    }
    match o {
        Some(s) => s.as_str(),
        None => "",
    }
}

impl VocabStore {
    /// The list as CSV, for spreadsheets: a header, then one line per entry,
    /// every field quoted when it needs to be. `best_scores` holds each
    /// entry's best score as it is to be written, empty for none. Lossy by
    /// design, so there is no matching import.
    pub fn export_csv(&self, best_scores: &[String]) -> (r: String)
        requires
            best_scores.len() == self.doc().entries.len(),
        ensures
            r@ == csv_header() + csv_rows(self.doc().entries@, best_scores@, self.doc().entries.len() as int),
    {
        let mut out = "text,pinyin,meaning,group,attempts,best_score,last_practised,added_at\n".to_owned();
        let mut k: usize = 0;
        while k < self.document.entries.len()
            invariant
                k <= self.document.entries.len(),
                best_scores.len() == self.document.entries.len(),
                out@ == csv_header() + csv_rows(self.document.entries@, best_scores@, k as int),
            decreases self.document.entries.len() - k,
        {
            let e = &self.document.entries[k];
            let mut fields: Vec<String> = Vec::new();
            fields.push(csv_field(e.text.as_str()));
            fields.push(csv_field(e.pinyin.as_str()));
            fields.push(csv_field(e.meaning.as_str()));
            fields.push(csv_field(opt_str_of(&e.group)));
            fields.push(csv_field(decimal_string(e.attempts as u64).as_str()));
            fields.push(csv_field(best_scores[k].as_str()));
            fields.push(csv_field(opt_str_of(&e.last_practised)));
            fields.push(csv_field(e.added_at.as_str()));
            let row = crate::text::join_strings(&fields, ",");
            proof {
                assert(crate::text::views(fields@) =~= seq![
                    csv_text(e.text@),
                    csv_text(e.pinyin@),
                    csv_text(e.meaning@),
                    csv_text(or_empty(e.group)),
                    csv_text(decimal(e.attempts as nat)),
                    csv_text(best_scores@[k as int]@),
                    csv_text(or_empty(e.last_practised)),
                    csv_text(e.added_at@),
                ]);
            }
            append_str(&mut out, row.as_str());
            push_char(&mut out, '\n');
            proof {
                reveal_strlit("\n");
                assert(out@ =~= csv_header() + csv_rows(self.document.entries@, best_scores@, k + 1));
            }
            k += 1;
        }
        out
    }
}


/// Every entry an import takes gets a fresh id: the next ids in turn, from the
/// list's own next id on, so an import can never reuse or collide with an id
/// the list has handed out.
pub proof fn law_imported_ids_are_fresh_and_consecutive(
    base: Seq<Entry>,
    incoming: Seq<Entry>,
    next: u64,
    n: int,
)
    requires
        0 <= n <= incoming.len(),
        next + n <= u64::MAX,
    ensures
        forall|k: int|
            base.len() <= k < imported(base, incoming, next, n).len() ==> #[trigger] imported(base, incoming, next, n)[k].id
                == next + (k - base.len()),
        forall|k: int| 0 <= k < base.len() ==> #[trigger] imported(base, incoming, next, n)[k] == base[k],
    decreases n,
{
    if n > 0 {
        law_imported_ids_are_fresh_and_consecutive(base, incoming, next, n - 1);
        lemma_imported_len(base, incoming, next, n - 1);
    }
}

} // verus!
