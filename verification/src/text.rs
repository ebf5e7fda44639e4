//! Small verified helpers for moving between `&str`, `String` and `Vec<char>`,
//! and the character classes the rest of the crate reads text with.

use vstd::prelude::*;

verus! {

/// Appends one character to a string.
///
/// Trusted: `String::push` appends `c` at the end of the string, which is what
/// its documentation says; vstd gives it no specification of its own.
#[verifier::external_body]
pub(crate) fn push_char(s: &mut String, c: char)
    ensures
        final(s)@ == old(s)@.push(c),
{
    s.push(c);
}

/// The characters of `s`, in order.
pub fn chars_of(s: &str) -> (r: Vec<char>)
    ensures
        r@ == s@,
{
    let mut out: Vec<char> = Vec::new();
    for c in it: s.chars()
        invariant
            it.seq() == s@,
            out@ == it.seq().take(it.index() as int),
    {
        out.push(c);
    }
    out
}

/// A string holding exactly the characters `v[from..to]`.
pub fn string_of_range(v: &Vec<char>, from: usize, to: usize) -> (r: String)
    requires
        from <= to <= v.len(),
    ensures
        r@ == v@.subrange(from as int, to as int),
{
    let mut s = String::new();
    let mut i: usize = from;
    while i < to
        invariant
            from <= i <= to <= v.len(),
            s@ == v@.subrange(from as int, i as int),
        decreases to - i,
    {
        push_char(&mut s, v[i]);
        assert(v@.subrange(from as int, i + 1) == v@.subrange(from as int, i as int).push(
            v@[i as int],
        ));
        i += 1;
    }
    s
}

/// A string holding exactly the characters of `v`.
pub fn string_of(v: &Vec<char>) -> (r: String)
    ensures
        r@ == v@,
{
    let r = string_of_range(v, 0, v.len());
    assert(v@.subrange(0, v@.len() as int) == v@);
    r
}

/// Appends every character of `v` to `s`.
pub fn append_chars(s: &mut String, v: &Vec<char>)
    ensures
        final(s)@ == old(s)@ + v@,
{
    let ghost start = s@;
    let mut i: usize = 0;
    while i < v.len()
        invariant
            i <= v.len(),
            s@ == start + v@.take(i as int),
        decreases v.len() - i,
    {
        push_char(s, v[i]);
        assert(v@.take(i + 1) == v@.take(i as int).push(v@[i as int]));
        assert(start + v@.take(i + 1) == (start + v@.take(i as int)).push(v@[i as int]));
        i += 1;
    }
    assert(v@.take(v@.len() as int) == v@);
}

/// How `{:?}` writes a string: in double quotes, with quotes, backslashes and
/// characters that do not print escaped.
pub uninterp spec fn debug_quote(s: Seq<char>) -> Seq<char>;

/// `format!("{:?}", s)`: `s` as Rust's `Debug` writes a string.
#[verifier::external_body]
pub(crate) fn debug_quoted(s: &str) -> (r: String)
    ensures
        r@ == debug_quote(s@),
{
    format!("{:?}", s)
}

/// Appends the characters of `t` to `s`.
pub fn append_str(s: &mut String, t: &str)
    ensures
        final(s)@ == old(s)@ + t@,
{
    let v = chars_of(t);
    append_chars(s, &v);
}

/// The White_Space characters of Unicode, which is what `char::is_whitespace`
/// and `str::trim` treat as blank.
pub open spec fn white(c: char) -> bool {
    ||| '\u{9}' <= c <= '\u{d}'
    ||| c == ' '
    ||| c == '\u{85}'
    ||| c == '\u{a0}'
    ||| c == '\u{1680}'
    ||| '\u{2000}' <= c <= '\u{200a}'
    ||| c == '\u{2028}'
    ||| c == '\u{2029}'
    ||| c == '\u{202f}'
    ||| c == '\u{205f}'
    ||| c == '\u{3000}'
}

/// Whether `c` is blank, in the sense of [`white`].
pub fn is_white(c: char) -> (r: bool)
    ensures
        r == white(c),
{
    ('\u{9}' <= c && c <= '\u{d}') || c == ' ' || c == '\u{85}' || c == '\u{a0}' || c
        == '\u{1680}' || ('\u{2000}' <= c && c <= '\u{200a}') || c == '\u{2028}' || c
        == '\u{2029}' || c == '\u{202f}' || c == '\u{205f}' || c == '\u{3000}'
}

/// The control characters of Unicode (general category Cc), which is what
/// `char::is_control` answers.
pub open spec fn control(c: char) -> bool {
    c <= '\u{1f}' || ('\u{7f}' <= c && c <= '\u{9f}')
}

/// Whether `c` is a control character, in the sense of [`control`].
pub fn is_control(c: char) -> (r: bool)
    ensures
        r == control(c),
{
    c <= '\u{1f}' || ('\u{7f}' <= c && c <= '\u{9f}')
}

/// An ASCII decimal digit.
pub open spec fn digit(c: char) -> bool {
    '0' <= c <= '9'
}

/// An ASCII letter.
pub open spec fn ascii_letter(c: char) -> bool {
    ('a' <= c <= 'z') || ('A' <= c <= 'Z')
}

/// `c` with an ASCII capital made small, and anything else left alone.
pub open spec fn ascii_lower(c: char) -> char {
    if 'A' <= c <= 'Z' {
        ((c as u32) + 32) as char
    } else {
        c
    }
}

/// The exec form of [`ascii_lower`].
pub fn to_ascii_lower(c: char) -> (r: char)
    ensures
        r == ascii_lower(c),
{
    if 'A' <= c && c <= 'Z' {
        let code: u32 = (c as u32) + 32;
        assert(0x61 <= code <= 0x7a);
        char_from(code)
    } else {
        c
    }
}

/// The character with code point `code`, for a code point that names one.
fn char_from(code: u32) -> (r: char)
    requires
        code < 128,
    ensures
        r == code as char,
{
    let b: u8 = code as u8;
    assert(b == code);
    b as char
}

/// The index of the first character at or after `i` that is not blank.
pub open spec fn first_solid(s: Seq<char>, i: int) -> int
    decreases s.len() - i,
{
    if 0 <= i < s.len() && white(s[i]) {
        first_solid(s, i + 1)
    } else {
        i
    }
}

/// One past the last character before `j` that is not blank.
pub open spec fn last_solid(s: Seq<char>, from: int, j: int) -> int
    decreases j - from,
{
    if from < j && j <= s.len() && white(s[j - 1]) {
        last_solid(s, from, j - 1)
    } else {
        j
    }
}

/// `s` with its leading and trailing blanks removed, as `str::trim` does.
pub open spec fn trim(s: Seq<char>) -> Seq<char> {
    let a = first_solid(s, 0);
    s.subrange(a, last_solid(s, a, s.len() as int))
}

proof fn lemma_first_solid(s: Seq<char>, i: int)
    requires
        0 <= i <= s.len(),
    ensures
        i <= first_solid(s, i) <= s.len(),
        forall|k: int| i <= k < first_solid(s, i) ==> white(#[trigger] s[k]),
        first_solid(s, i) < s.len() ==> !white(s[first_solid(s, i)]),
    decreases s.len() - i,
{
    if i < s.len() && white(s[i]) {
        lemma_first_solid(s, i + 1);
    }
}

proof fn lemma_last_solid(s: Seq<char>, from: int, j: int)
    requires
        0 <= from <= j <= s.len(),
    ensures
        from <= last_solid(s, from, j) <= j,
        forall|k: int| last_solid(s, from, j) <= k < j ==> white(#[trigger] s[k]),
        from < last_solid(s, from, j) ==> !white(s[last_solid(s, from, j) - 1]),
    decreases j - from,
{
    if from < j && white(s[j - 1]) {
        lemma_last_solid(s, from, j - 1);
    }
}

/// The bounds of [`trim`] in `v`.
pub fn trim_bounds(v: &Vec<char>) -> (r: (usize, usize))
    ensures
        r.0 == first_solid(v@, 0),
        r.1 == last_solid(v@, r.0 as int, v@.len() as int),
        r.0 <= r.1 <= v.len(),
        v@.subrange(r.0 as int, r.1 as int) == trim(v@),
{
    proof {
        lemma_first_solid(v@, 0);
    }
    let mut a: usize = 0;
    while a < v.len() && is_white(v[a])
        invariant
            a <= v.len(),
            first_solid(v@, a as int) == first_solid(v@, 0),
        decreases v.len() - a,
    {
        a += 1;
    }
    proof {
        lemma_last_solid(v@, a as int, v@.len() as int);
    }
    let mut b: usize = v.len();
    while b > a && is_white(v[b - 1])
        invariant
            a <= b <= v.len(),
            last_solid(v@, a as int, b as int) == last_solid(v@, a as int, v@.len() as int),
        decreases b - a,
    {
        b -= 1;
    }
    (a, b)
}

/// Trimming what is already trimmed changes nothing.
pub proof fn lemma_trim_trimmed(s: Seq<char>)
    ensures
        trim(trim(s)) == trim(s),
        trim(s).len() > 0 ==> !white(trim(s)[0]) && !white(trim(s).last()),
{
    lemma_first_solid(s, 0);
    let a = first_solid(s, 0);
    lemma_last_solid(s, a, s.len() as int);
    let b = last_solid(s, a, s.len() as int);
    let t = trim(s);
    if t.len() > 0 {
        assert(t[0] == s[a]);
        assert(!white(s[b - 1]));
        assert(first_solid(t, 0) == 0);
        assert(last_solid(t, 0, t.len() as int) == t.len());
        assert(t.subrange(0, t.len() as int) =~= t);
    } else {
        assert(trim(t) =~= t);
    }
}

/// The characters of `s` with leading and trailing blanks removed.
pub fn trimmed_chars(s: &str) -> (r: Vec<char>)
    ensures
        r@ == trim(s@),
{
    let v = chars_of(s);
    let (a, b) = trim_bounds(&v);
    let mut out: Vec<char> = Vec::new();
    let mut i: usize = a;
    while i < b
        invariant
            a <= i <= b <= v.len(),
            out@ == v@.subrange(a as int, i as int),
        decreases b - i,
    {
        out.push(v[i]);
        assert(v@.subrange(a as int, i + 1) == v@.subrange(a as int, i as int).push(v@[i as int]));
        i += 1;
    }
    out
}

/// `s` with leading and trailing blanks removed, as a new string.
pub fn trimmed(s: &str) -> (r: String)
    ensures
        r@ == trim(s@),
{
    let v = trimmed_chars(s);
    string_of(&v)
}

/// Whether `s` is nothing but blanks.
pub fn is_blank(s: &str) -> (r: bool)
    ensures
        r == (trim(s@).len() == 0),
{
    let v = chars_of(s);
    let (a, b) = trim_bounds(&v);
    a == b
}

/// Whether two character sequences are equal.
pub fn chars_equal(a: &Vec<char>, b: &Vec<char>) -> (r: bool)
    ensures
        r == (a@ == b@),
{
    if a.len() != b.len() {
        return false;
    }
    let mut i: usize = 0;
    while i < a.len()
        invariant
            a.len() == b.len(),
            i <= a.len(),
            forall|k: int| 0 <= k < i ==> a@[k] == b@[k],
        decreases a.len() - i,
    {
        if a[i] != b[i] {
            return false;
        }
        i += 1;
    }
    assert(a@ =~= b@);
    true
}

/// Whether two strings hold the same characters.
pub fn str_equal(a: &str, b: &str) -> (r: bool)
    ensures
        r == (a@ == b@),
{
    let x = chars_of(a);
    let y = chars_of(b);
    chars_equal(&x, &y)
}

/// The parts joined with `sep` between each two, as `[T]::join` does.
pub open spec fn join(parts: Seq<Seq<char>>, sep: Seq<char>) -> Seq<char>
    decreases parts.len(),
{
    if parts.len() == 0 {
        seq![]
    } else if parts.len() == 1 {
        parts[0]
    } else {
        join(parts.drop_last(), sep) + sep + parts.last()
    }
}

/// The characters of each string.
pub open spec fn views(parts: Seq<String>) -> Seq<Seq<char>> {
    parts.map_values(|p: String| p@)
}

/// What pushing onto a sequence gives, stated for any element type.
pub proof fn lemma_push<T>(s: Seq<T>, x: T)
    ensures
        s.push(x).len() == s.len() + 1,
        s.push(x)[s.len() as int] == x,
        forall|j: int| 0 <= j < s.len() ==> s.push(x)[j] == s[j],
{
}

/// Adding a string adds its characters.
pub proof fn lemma_views_push(parts: Seq<String>, x: String)
    ensures
        views(parts.push(x)) == views(parts).push(x@),
{
    assert(parts.push(x).len() == parts.len() + 1);
    assert(parts.push(x)[parts.len() as int] == x);
    assert(forall|k: int| 0 <= k < parts.len() ==> parts.push(x)[k] == parts[k]);
    assert(views(parts.push(x)) =~= views(parts).push(x@));
}

/// A copy of each string, in order.
pub fn copy_strings(parts: &Vec<String>) -> (r: Vec<String>)
    ensures
        views(r@) == views(parts@),
{
    let mut out: Vec<String> = Vec::new();
    let mut k: usize = 0;
    while k < parts.len()
        invariant
            k <= parts.len(),
            views(out@) == views(parts@).take(k as int),
        decreases parts.len() - k,
    {
        let ghost before = out@;
        let t = parts[k].clone();
        out.push(t);
        proof {
            lemma_views_push(before, t);
            assert(views(out@) =~= views(parts@).take(k + 1));
        }
        k += 1;
    }
    assert(views(parts@).take(k as int) =~= views(parts@));
    out
}

/// `text_before` with its witness: the length of the common prefix.
pub open spec fn before_at(a: Seq<char>, b: Seq<char>, i: int) -> bool {
    0 <= i <= a.len() && i <= b.len() && a.take(i) == b.take(i) && ((i == a.len() && i < b.len())
        || (i < a.len() && i < b.len() && a[i] < b[i]))
}

/// Whether `a` comes before `b` in the order `<` gives strings: at the first
/// place where they differ, `a` has the smaller character, or `a` is a proper
/// prefix of `b`.
pub open spec fn text_before(a: Seq<char>, b: Seq<char>) -> bool {
    exists|i: int| #[trigger] before_at(a, b, i)
}

/// The strings joined with `sep` between each two.
pub fn join_strings(parts: &Vec<String>, sep: &str) -> (r: String)
    ensures
        r@ == join(views(parts@), sep@),
{
    let mut out = String::new();
    let mut k: usize = 0;
    while k < parts.len()
        invariant
            k <= parts.len(),
            out@ == join(views(parts@.take(k as int)), sep@),
        decreases parts.len() - k,
    {
        let ghost before = views(parts@.take(k as int));
        if k > 0 {
            append_str(&mut out, sep);
        }
        append_str(&mut out, parts[k].as_str());
        proof {
            let after = views(parts@.take(k + 1));
            assert(after.drop_last() =~= before);
            assert(after.last() == parts@[k as int]@);
            if k == 0 {
                assert(before =~= Seq::<Seq<char>>::empty());
                assert(after.len() == 1);
            }
        }
        k += 1;
    }
    assert(parts@.take(parts.len() as int) == parts@);
    out
}

/// Decimal digits of `n`, most significant first, with no leading zeros.
pub open spec fn decimal(n: nat) -> Seq<char>
    decreases n,
{
    if n < 10 {
        seq![digit_char(n)]
    } else {
        decimal(n / 10).push(digit_char(n % 10))
    }
}

/// The ASCII digit for `d`, which is below ten.
pub open spec fn digit_char(d: nat) -> char {
    if d == 0 {
        '0'
    } else if d == 1 {
        '1'
    } else if d == 2 {
        '2'
    } else if d == 3 {
        '3'
    } else if d == 4 {
        '4'
    } else if d == 5 {
        '5'
    } else if d == 6 {
        '6'
    } else if d == 7 {
        '7'
    } else if d == 8 {
        '8'
    } else {
        '9'
    }
}

/// The exec form of [`digit_char`].
pub fn digit_to_char(d: u64) -> (r: char)
    requires
        d < 10,
    ensures
        r == digit_char(d as nat),
{
    if d == 0 {
        '0'
    } else if d == 1 {
        '1'
    } else if d == 2 {
        '2'
    } else if d == 3 {
        '3'
    } else if d == 4 {
        '4'
    } else if d == 5 {
        '5'
    } else if d == 6 {
        '6'
    } else if d == 7 {
        '7'
    } else if d == 8 {
        '8'
    } else {
        '9'
    }
}

/// The decimal digits of `n`.
pub fn decimal_chars(n: u64) -> (r: Vec<char>)
    ensures
        r@ == decimal(n as nat),
    decreases n,
{
    if n < 10 {
        let mut v: Vec<char> = Vec::new();
        v.push(digit_to_char(n));
        v
    } else {
        let mut v = decimal_chars(n / 10);
        v.push(digit_to_char(n % 10));
        v
    }
}

/// `n` written in decimal, as `to_string` writes an unsigned number.
pub fn decimal_string(n: u64) -> (r: String)
    ensures
        r@ == decimal(n as nat),
{
    let v = decimal_chars(n);
    string_of(&v)
}


/// `q` is how `s` begins.
pub open spec fn begins_with(s: Seq<char>, q: Seq<char>) -> bool {
    q.len() <= s.len() && s.take(q.len() as int) == q
}

/// `q` occurs somewhere in `s`, as a run of consecutive characters.
pub open spec fn occurs_in(s: Seq<char>, q: Seq<char>) -> bool {
    exists|i: int| 0 <= i && i + q.len() <= s.len() && #[trigger] s.subrange(i, i + q.len()) == q
}

/// Whether `q` occurs in `s` starting at `i`.
fn occurs_at(s: &Vec<char>, q: &Vec<char>, i: usize) -> (r: bool)
    requires
        i + q.len() <= s.len(),
    ensures
        r == (s@.subrange(i as int, i + q.len()) == q@),
{
    let mut k: usize = 0;
    while k < q.len()
        invariant
            k <= q.len(),
            i + q.len() <= s.len(),
            forall|j: int| 0 <= j < k ==> s@[i + j] == q@[j],
        decreases q.len() - k,
    {
        if s[i + k] != q[k] {
            assert(s@.subrange(i as int, i + q.len())[k as int] != q@[k as int]);
            return false;
        }
        k += 1;
    }
    assert(s@.subrange(i as int, i + q.len()) =~= q@);
    true
}

/// `str::starts_with`: whether `s` begins with `q`.
pub fn starts_with_str(s: &str, q: &str) -> (r: bool)
    ensures
        r == begins_with(s@, q@),
{
    let a = chars_of(s);
    let b = chars_of(q);
    if b.len() > a.len() {
        return false;
    }
    let r = occurs_at(&a, &b, 0);
    assert(a@.subrange(0, b@.len() as int) == a@.take(b@.len() as int));
    r
}

/// `str::contains`: whether `q` occurs in `s`.
pub fn contains_str(s: &str, q: &str) -> (r: bool)
    ensures
        r == occurs_in(s@, q@),
{
    let a = chars_of(s);
    let b = chars_of(q);
    if b.len() > a.len() {
        return false;
    }
    if b.len() == 0 {
        assert(s@.subrange(0, 0 + q@.len() as int) =~= q@);
        return true;
    }
    let last = a.len() - b.len();
    let mut i: usize = 0;
    while i <= last
        invariant
            1 <= b.len() <= a.len(),
            last == a.len() - b.len(),
            a@ == s@,
            b@ == q@,
            i <= last + 1,
            forall|j: int| 0 <= j < i ==> #[trigger] a@.subrange(j, j + b.len()) != b@,
        decreases last + 1 - i,
    {
        if occurs_at(&a, &b, i) {
            return true;
        }
        i += 1;
    }
    false
}


// ---------------------------------------------------------------------------
// The order of strings
// ---------------------------------------------------------------------------

proof fn lemma_prefix_agree(a: Seq<char>, b: Seq<char>, i: int, k: int)
    requires
        0 <= k < i <= a.len(),
        i <= b.len(),
        a.take(i) == b.take(i),
    ensures
        a[k] == b[k],
{
    assert(a.take(i)[k] == a[k]);
    assert(b.take(i)[k] == b[k]);
    assert(a.take(i)[k] == b.take(i)[k]);
}

/// Nothing comes before itself.
pub proof fn lemma_text_before_irreflexive(a: Seq<char>)
    ensures
        !text_before(a, a),
{
}

/// Of two different texts, exactly one comes first.
pub proof fn lemma_text_before_total(a: Seq<char>, b: Seq<char>)
    ensures
        a != b ==> (text_before(a, b) || text_before(b, a)),
        !(text_before(a, b) && text_before(b, a)),
{
    if a != b {
        let n = if a.len() < b.len() {
            a.len() as int
        } else {
            b.len() as int
        };
        if forall|k: int| 0 <= k < n ==> a[k] == b[k] {
            assert(a.take(n) =~= b.take(n));
            if a.len() < b.len() {
                assert(before_at(a, b, n));
            } else if b.len() < a.len() {
                assert(before_at(b, a, n));
            } else {
                assert(a =~= b);
            }
        } else {
            let k0 = choose|k: int| 0 <= k < n && a[k] != b[k];
            let i = lemma_first_difference(a, b, n, k0);
            assert(a.take(i) =~= b.take(i));
            if a[i] < b[i] {
                assert(before_at(a, b, i));
            } else {
                assert(before_at(b, a, i));
            }
        }
    }
    if text_before(a, b) && text_before(b, a) {
        let i = choose|i: int| before_at(a, b, i);
        let j = choose|j: int| before_at(b, a, j);
        if i < j {
            lemma_prefix_agree(b, a, j, i);
        } else if j < i {
            lemma_prefix_agree(a, b, i, j);
        }
    }
}

/// The first place below `n` where two texts differ, given one.
proof fn lemma_first_difference(a: Seq<char>, b: Seq<char>, n: int, k0: int) -> (i: int)
    requires
        0 <= k0 < n <= a.len(),
        n <= b.len(),
        a[k0] != b[k0],
    ensures
        0 <= i <= k0,
        a[i] != b[i],
        forall|k: int| 0 <= k < i ==> a[k] == b[k],
    decreases k0,
{
    if exists|k: int| 0 <= k < k0 && a[k] != b[k] {
        let k1 = choose|k: int| 0 <= k < k0 && a[k] != b[k];
        lemma_first_difference(a, b, n, k1)
    } else {
        k0
    }
}

/// One text before a second, and the second before a third, puts the first
/// before the third.
pub proof fn lemma_text_before_transitive(a: Seq<char>, b: Seq<char>, c: Seq<char>)
    requires
        text_before(a, b),
        text_before(b, c),
    ensures
        text_before(a, c),
{
    let i = choose|i: int| before_at(a, b, i);
    let j = choose|j: int| before_at(b, c, j);
    if i < j {
        assert forall|k: int| 0 <= k < i implies a[k] == c[k] by {
            lemma_prefix_agree(a, b, i, k);
            lemma_prefix_agree(b, c, j, k);
        }
        assert(a.take(i) =~= c.take(i));
        lemma_prefix_agree(b, c, j, i);
        assert(before_at(a, c, i));
    } else if j < i {
        assert forall|k: int| 0 <= k < j implies a[k] == c[k] by {
            lemma_prefix_agree(a, b, i, k);
            lemma_prefix_agree(b, c, j, k);
        }
        assert(a.take(j) =~= c.take(j));
        lemma_prefix_agree(a, b, i, j);
        assert(before_at(a, c, j));
    } else {
        assert forall|k: int| 0 <= k < i implies a[k] == c[k] by {
            lemma_prefix_agree(a, b, i, k);
            lemma_prefix_agree(b, c, j, k);
        }
        assert(a.take(i) =~= c.take(i));
        assert(before_at(a, c, i));
    }
}

/// Whether `a` comes before `b` in the order `<` gives strings.
pub fn str_before(a: &str, b: &str) -> (r: bool)
    ensures
        r == text_before(a@, b@),
{
    let x = chars_of(a);
    let y = chars_of(b);
    let mut i: usize = 0;
    while i < x.len() && i < y.len()
        invariant
            i <= x.len(),
            i <= y.len(),
            x@ == a@,
            y@ == b@,
            x@.take(i as int) == y@.take(i as int),
        decreases x.len() - i,
    {
        if x[i] != y[i] {
            proof {
                if x[i as int] < y[i as int] {
                    assert(before_at(a@, b@, i as int));
                } else {
                    assert(before_at(b@, a@, i as int));
                    lemma_text_before_total(a@, b@);
                }
            }
            return x[i] < y[i];
        }
        assert(x@.take(i + 1) =~= x@.take(i as int).push(x@[i as int]));
        assert(y@.take(i + 1) =~= y@.take(i as int).push(y@[i as int]));
        i += 1;
    }
    proof {
        if i < y.len() {
            assert(before_at(a@, b@, i as int));
        } else if i < x.len() {
            assert(before_at(b@, a@, i as int));
            lemma_text_before_total(a@, b@);
        } else {
            assert(x@ =~= x@.take(i as int));
            assert(y@ =~= y@.take(i as int));
            lemma_text_before_irreflexive(a@);
        }
    }
    i < y.len()
}

} // verus!
