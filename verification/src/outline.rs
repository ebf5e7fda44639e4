//! Reading the path data of a character's outline: command letters and
//! numbers, the numbers kept as they are written so that whoever draws the
//! path decides how to read them.
//!
//! The outlines use only absolute `M`, `L`, `Q`, `C` and `Z`, each followed by
//! its coordinates. Anything that is neither a separator, a letter nor a
//! number makes the whole path unreadable, and then there is simply no
//! outline to compare against.

use vstd::prelude::*;

use crate::text::{chars_of, string_of_range};

verus! {

/// One token of path data.
#[derive(Clone, Debug, PartialEq)]
pub enum PathToken {
    /// A command letter, e.g. `M`.
    Command(char),
    /// A number as it is written, e.g. `-12.5e3`.
    Number(String),
}

/// Whitespace as ASCII knows it: space, tab, line feed, form feed and
/// carriage return.
pub open spec fn ascii_space(c: char) -> bool {
    c == ' ' || c == '\t' || c == '\n' || c == '\x0C' || c == '\r'
}

/// Separates tokens: whitespace or a comma.
pub open spec fn separator(c: char) -> bool {
    ascii_space(c) || c == ','
}

/// An ASCII letter: a command.
pub open spec fn letter(c: char) -> bool {
    ('a' <= c && c <= 'z') || ('A' <= c && c <= 'Z')
}

pub open spec fn ascii_digit(c: char) -> bool {
    '0' <= c && c <= '9'
}

/// Where the run of digits starting at `i` ends.
pub open spec fn digits_end(s: Seq<char>, i: int) -> int
    decreases s.len() - i,
{
    if 0 <= i < s.len() && ascii_digit(s[i]) {
        digits_end(s, i + 1)
    } else {
        i
    }
}

/// `i` moved past a sign, when there is one.
pub open spec fn past_sign(s: Seq<char>, i: int) -> int {
    if 0 <= i < s.len() && (s[i] == '+' || s[i] == '-') {
        i + 1
    } else {
        i
    }
}

/// Where the number that starts at `i` ends: an optional sign, digits, an
/// optional point with digits, at least one digit in all, then an optional
/// exponent. `None` when there is no digit.
pub open spec fn number_end(s: Seq<char>, i: int) -> Option<int> {
    let a = past_sign(s, i);
    let b = digits_end(s, a);
    let dot = 0 <= b < s.len() && s[b] == '.';
    let c = if dot {
        digits_end(s, b + 1)
    } else {
        b
    };
    if !(b > a || (dot && c > b + 1)) {
        None
    } else if 0 <= c < s.len() && (s[c] == 'e' || s[c] == 'E') {
        Some(digits_end(s, past_sign(s, c + 1)))
    } else {
        Some(c)
    }
}

/// A run of digits ends at or after where it starts, and not past the end.
pub proof fn lemma_digits_end(s: Seq<char>, i: int)
    requires
        0 <= i,
    ensures
        i <= digits_end(s, i),
        digits_end(s, i) <= if i <= s.len() {
            s.len() as int
        } else {
            i
        },
    decreases s.len() - i,
{
    if 0 <= i < s.len() && ascii_digit(s[i]) {
        lemma_digits_end(s, i + 1);
    }
}

/// A number that starts inside the text ends after its start, and not past
/// the end.
pub proof fn lemma_number_end(s: Seq<char>, i: int)
    requires
        0 <= i < s.len(),
    ensures
        number_end(s, i) matches Some(e) ==> i < e <= s.len(),
{
    let a = past_sign(s, i);
    lemma_digits_end(s, a);
    let b = digits_end(s, a);
    if 0 <= b < s.len() && s[b] == '.' {
        lemma_digits_end(s, b + 1);
        let c = digits_end(s, b + 1);
        if 0 <= c < s.len() && (s[c] == 'e' || s[c] == 'E') {
            lemma_digits_end(s, past_sign(s, c + 1));
        }
    } else if 0 <= b < s.len() && (s[b] == 'e' || s[b] == 'E') {
        lemma_digits_end(s, past_sign(s, b + 1));
    }
}

/// The tokens of `s` from `i` on, each as where it starts, where it ends and
/// whether it is a command; `None` when some character there is neither a
/// separator, a letter nor the start of a number.
pub open spec fn lexed(s: Seq<char>, i: int) -> Option<Seq<(int, int, bool)>>
    decreases s.len() - i,
{
    if i < 0 || i >= s.len() {
        Some(seq![])
    } else if separator(s[i]) {
        lexed(s, i + 1)
    } else if letter(s[i]) {
        match lexed(s, i + 1) {
            Some(t) => Some(seq![(i, i + 1, true)] + t),
            None => None,
        }
    } else {
        proof {
            lemma_number_end(s, i);
        }
        match number_end(s, i) {
            None => None,
            Some(e) => match lexed(s, e) {
                Some(t) => Some(seq![(i, e, false)] + t),
                None => None,
            },
        }
    }
}

/// `t` is the token of `s` that the span `sp` marks.
pub open spec fn token_is(t: PathToken, s: Seq<char>, sp: (int, int, bool)) -> bool {
    if sp.2 {
        t == PathToken::Command(s[sp.0])
    } else {
        t matches PathToken::Number(x) && x@ == s.subrange(sp.0, sp.1)
    }
}

/// The tokens `ts` are those the spans `sp` mark in `s`.
pub open spec fn tokens_are(ts: Seq<PathToken>, s: Seq<char>, sp: Seq<(int, int, bool)>) -> bool {
    &&& ts.len() == sp.len()
    &&& forall|k: int| 0 <= k < ts.len() ==> token_is(#[trigger] ts[k], s, sp[k])
}

/// The tokens `out` followed by those the spans `rest` mark.
pub open spec fn then(out: Seq<(int, int, bool)>, rest: Option<Seq<(int, int, bool)>>) -> Option<
    Seq<(int, int, bool)>,
> {
    match rest {
        Some(t) => Some(out + t),
        None => None,
    }
}

fn digits_end_exec(s: &Vec<char>, i: usize) -> (r: usize)
    requires
        i <= s.len(),
    ensures
        r == digits_end(s@, i as int),
        i <= r <= s.len(),
{
    let mut j = i;
    proof {
        lemma_digits_end(s@, i as int);
    }
    while j < s.len() && '0' <= s[j] && s[j] <= '9'
        invariant
            i <= j <= s.len(),
            digits_end(s@, j as int) == digits_end(s@, i as int),
        decreases s.len() - j,
    {
        j += 1;
    }
    j
}

fn past_sign_exec(s: &Vec<char>, i: usize) -> (r: usize)
    requires
        i <= s.len(),
    ensures
        r == past_sign(s@, i as int),
        r <= s.len(),
{
    if i < s.len() && (s[i] == '+' || s[i] == '-') {
        i + 1
    } else {
        i
    }
}

fn number_end_exec(s: &Vec<char>, i: usize) -> (r: Option<usize>)
    requires
        i < s.len(),
    ensures
        match number_end(s@, i as int) {
            Some(e) => r == Some(e as usize),
            None => r is None,
        },
{
    proof {
        lemma_number_end(s@, i as int);
    }
    let a = past_sign_exec(s, i);
    let b = digits_end_exec(s, a);
    let dot = b < s.len() && s[b] == '.';
    let c = if dot {
        digits_end_exec(s, b + 1)
    } else {
        b
    };
    if !(b > a || (dot && c > b + 1)) {
        None
    } else if c < s.len() && (s[c] == 'e' || s[c] == 'E') {
        let k = past_sign_exec(s, c + 1);
        Some(digits_end_exec(s, k))
    } else {
        Some(c)
    }
}

/// Split path data into command letters and numbers, or `None` when it holds
/// anything else.
pub fn path_tokens(path: &str) -> (r: Option<Vec<PathToken>>)
    ensures
        match lexed(path@, 0) {
            Some(sp) => r matches Some(ts) && tokens_are(ts@, path@, sp),
            None => r is None,
        },
{
    let s = chars_of(path);
    let mut tokens: Vec<PathToken> = Vec::new();
    let ghost mut spans: Seq<(int, int, bool)> = seq![];
    let mut i: usize = 0;
    while i < s.len()
        invariant
            s@ == path@,
            i <= s.len(),
            lexed(s@, 0) == then(spans, lexed(s@, i as int)),
            tokens_are(tokens@, s@, spans),
        decreases s.len() - i,
    {
        let c = s[i];
        if c == ' ' || c == '\t' || c == '\n' || c == '\x0C' || c == '\r' || c == ',' {
            i += 1;
        } else if ('a' <= c && c <= 'z') || ('A' <= c && c <= 'Z') {
            let t = PathToken::Command(c);
            let ghost before = tokens@;
            tokens.push(t);
            proof {
                let sp = (i as int, i + 1, true);
                assert(then(spans, lexed(s@, i as int)) == then(spans.push(sp), lexed(s@, i + 1))) by {
                    match lexed(s@, i + 1) {
                        Some(t) => {
                            assert(spans + (seq![sp] + t) =~= spans.push(sp) + t);
                        },
                        None => {},
                    }
                }
                assert forall|k: int| 0 <= k < tokens.len() implies token_is(#[trigger] tokens@[k], s@, spans.push(sp)[k]) by {
                    if k < before.len() {
                        assert(tokens@[k] == before[k]);
                    }
                }
                spans = spans.push(sp);
            }
            i += 1;
        } else {
            match number_end_exec(&s, i) {
                None => {
                    return None;
                },
                Some(e) => {
                    proof {
                        lemma_number_end(s@, i as int);
                    }
                    let text = string_of_range(&s, i, e);
                    let t = PathToken::Number(text);
                    let ghost before = tokens@;
                    tokens.push(t);
                    proof {
                        let sp = (i as int, e as int, false);
                        assert(then(spans, lexed(s@, i as int)) == then(spans.push(sp), lexed(s@, e as int))) by {
                            match lexed(s@, e as int) {
                                Some(t) => {
                                    assert(spans + (seq![sp] + t) =~= spans.push(sp) + t);
                                },
                                None => {},
                            }
                        }
                        assert forall|k: int| 0 <= k < tokens.len() implies token_is(#[trigger] tokens@[k], s@, spans.push(sp)[k]) by {
                            if k < before.len() {
                                assert(tokens@[k] == before[k]);
                            }
                        }
                        spans = spans.push(sp);
                    }
                    i = e;
                },
            }
        }
    }
    assert(spans + seq![] =~= spans);
    Some(tokens)
}

// ---------------------------------------------------------------------------
// Commands
// ---------------------------------------------------------------------------

/// One command of path data with the numbers it takes, as written.
#[derive(Clone, Debug, PartialEq)]
pub struct PathCommand {
    /// `M`, `L`, `Q`, `C`, or `Z`/`z`.
    pub letter: char,
    /// Its coordinates in order: two for `M` and `L`, four for `Q`, six for
    /// `C`, none for `Z`.
    pub numbers: Vec<String>,
}

/// How many numbers the command `c` takes; `None` for a command the outlines
/// never use, relative ones among them.
pub open spec fn arity(c: char) -> Option<int> {
    if c == 'M' || c == 'L' {
        Some(2)
    } else if c == 'Q' {
        Some(4)
    } else if c == 'C' {
        Some(6)
    } else if c == 'Z' || c == 'z' {
        Some(0)
    } else {
        None
    }
}

/// The spans from `a` up to `b` are all numbers.
pub open spec fn numbers_between(sp: Seq<(int, int, bool)>, a: int, b: int) -> bool {
    forall|j: int| a <= j < b ==> !(#[trigger] sp[j]).2
}

/// The commands the token spans `sp` of `s` make from span `i` on, each as its
/// letter and the span of its first number: every command followed by exactly
/// its numbers. `None` when a number stands where a command belongs, a
/// command is one the outlines never use, or a command lacks a number.
pub open spec fn commands_from(s: Seq<char>, sp: Seq<(int, int, bool)>, i: int) -> Option<
    Seq<(char, int)>,
>
    decreases sp.len() - i,
{
    if i < 0 || i >= sp.len() {
        Some(seq![])
    } else if !sp[i].2 {
        None
    } else {
        let c = s[sp[i].0];
        match arity(c) {
            None => None,
            Some(k) => if i + 1 + k <= sp.len() && numbers_between(sp, i + 1, i + 1 + k) {
                match commands_from(s, sp, i + 1 + k) {
                    Some(rest) => Some(seq![(c, i + 1)] + rest),
                    None => None,
                }
            } else {
                None
            },
        }
    }
}

/// The commands of the path data `s`, when it reads as commands.
pub open spec fn commands_of(s: Seq<char>) -> Option<Seq<(char, int)>> {
    match lexed(s, 0) {
        Some(sp) => commands_from(s, sp, 0),
        None => None,
    }
}

/// `c` is the command `cmd` of `s` with its numbers, read through the spans `sp`.
pub open spec fn command_is(c: PathCommand, s: Seq<char>, sp: Seq<(int, int, bool)>, cmd: (char, int)) -> bool {
    &&& c.letter == cmd.0
    &&& arity(cmd.0) matches Some(k) && c.numbers.len() == k
    &&& forall|m: int|
        0 <= m < c.numbers.len() ==> (#[trigger] c.numbers@[m])@ == s.subrange(
            sp[cmd.1 + m].0,
            sp[cmd.1 + m].1,
        )
}

fn arity_exec(c: char) -> (r: Option<usize>)
    ensures
        match arity(c) {
            Some(k) => r == Some(k as usize),
            None => r is None,
        },
{
    if c == 'M' || c == 'L' {
        Some(2)
    } else if c == 'Q' {
        Some(4)
    } else if c == 'C' {
        Some(6)
    } else if c == 'Z' || c == 'z' {
        Some(0)
    } else {
        None
    }
}

/// Read path data as commands, each with its numbers: `None` when it holds
/// anything but the absolute `M`, `L`, `Q`, `C` and `Z`, each followed by
/// exactly its coordinates.
pub fn path_commands(path: &str) -> (r: Option<Vec<PathCommand>>)
    ensures
        match lexed(path@, 0) {
            None => r is None,
            Some(sp) => match commands_from(path@, sp, 0) {
                None => r is None,
                Some(cs) => r matches Some(v) && v.len() == cs.len() && forall|k: int|
                    0 <= k < v.len() ==> command_is(#[trigger] v@[k], path@, sp, cs[k]),
            },
        },
{
    let tokens = match path_tokens(path) {
        Some(t) => t,
        None => {
            return None;
        },
    };
    let ghost s = path@;
    let ghost sp = lexed(s, 0)->Some_0;
    let mut out: Vec<PathCommand> = Vec::new();
    let ghost mut done: Seq<(char, int)> = seq![];
    let mut i: usize = 0;
    while i < tokens.len()
        invariant
            s == path@,
            lexed(s, 0) == Some(sp),
            tokens_are(tokens@, s, sp),
            i <= tokens.len(),
            commands_from(s, sp, 0) == match commands_from(s, sp, i as int) {
                Some(rest) => Some(done + rest),
                None => None,
            },
            out.len() == done.len(),
            forall|k: int| 0 <= k < out.len() ==> command_is(#[trigger] out@[k], s, sp, done[k]),
        decreases tokens.len() - i,
    {
        assert(token_is(tokens@[i as int], s, sp[i as int]));
        let c = match &tokens[i] {
            PathToken::Command(c) => *c,
            PathToken::Number(_) => {
                return None;
            },
        };
        let k = match arity_exec(c) {
            Some(k) => k,
            None => {
                return None;
            },
        };
        if k > tokens.len() - i - 1 {
            return None;
        }
        let mut numbers: Vec<String> = Vec::new();
        let mut j: usize = 0;
        assert(sp[i as int].2 && s[sp[i as int].0] == c);
        while j < k
            invariant
                s == path@,
                lexed(s, 0) == Some(sp),
                tokens_are(tokens@, s, sp),
                sp[i as int].2,
                s[sp[i as int].0] == c,
                arity(c) == Some(k as int),
                commands_from(s, sp, 0) == match commands_from(s, sp, i as int) {
                    Some(rest) => Some(done + rest),
                    None => None,
                },
                i + 1 + k <= tokens.len(),
                j <= k,
                numbers.len() == j,
                numbers_between(sp, i + 1, i + 1 + j),
                forall|m: int| 0 <= m < j ==> (#[trigger] numbers@[m])@ == s.subrange(
                    sp[i + 1 + m].0,
                    sp[i + 1 + m].1,
                ),
            decreases k - j,
        {
            assert(token_is(tokens@[i + 1 + j], s, sp[i + 1 + j]));
            match &tokens[i + 1 + j] {
                PathToken::Number(text) => {
                    let t = text.clone();
                    let ghost before = numbers@;
                    numbers.push(t);
                    proof {
                        assert forall|m: int| 0 <= m < j + 1 implies (#[trigger] numbers@[m])@ == s.subrange(
                            sp[i + 1 + m].0,
                            sp[i + 1 + m].1,
                        ) by {
                            if m < j {
                                assert(numbers@[m] == before[m]);
                            }
                        }
                    }
                },
                PathToken::Command(_) => {
                    proof {
                        assert(sp[i + 1 + j].2);
                        assert(!numbers_between(sp, i + 1, i + 1 + k as int));
                    }
                    return None;
                },
            }
            j += 1;
        }
        let cmd = PathCommand { letter: c, numbers };
        proof {
            let item = (c, i + 1);
            assert(s[sp[i as int].0] == c);
            assert(command_is(cmd, s, sp, item));
            match commands_from(s, sp, i + 1 + k) {
                Some(rest) => {
                    assert(done + (seq![item] + rest) =~= done.push(item) + rest);
                },
                None => {},
            }
        }
        let ghost before = out@;
        out.push(cmd);
        proof {
            let item = (c, i + 1);
            assert forall|m: int| 0 <= m < out.len() implies command_is(#[trigger] out@[m], s, sp, done.push(item)[m]) by {
                if m < before.len() {
                    assert(out@[m] == before[m]);
                }
            }
            done = done.push(item);
        }
        i = i + 1 + k;
    }
    assert(done + seq![] =~= done);
    Some(out)
}

} // verus!
