//! The JSON file format of the task store.
//!
//! A saved store is a JSON array; each element is an object with the keys
//! `id` (a non-negative integer), `title` (a string), `description` (a
//! string) and `done` (a boolean), in that fixed order. [`render_tasks`]
//! states the exact text that saving produces: compact, with `"`, `\` and
//! control characters escaped and everything else carried through unchanged.
//! [`spec_parse`] states exactly which texts load accepts and what they mean:
//! whitespace is permitted around every token, each record must hold the four
//! known keys exactly once, in any order, members under any other key are
//! read past and ignored, and strings take the standard two-character escapes
//! and `\uXXXX` escapes, surrogate pairs included. Loading what was saved
//! gives back the saved tasks ([`lemma_render_parse_round_trip`]).

use vstd::prelude::*;

use crate::todo::{views_of, TaskView, TODO};

verus! {

// ---------------------------------------------------------------------------
// Characters
// ---------------------------------------------------------------------------

/// Hexadecimal digit characters, lower case, indexed by value.
pub open spec fn hex_digit(n: int) -> char {
    if n == 0 {
        '0'
    } else if n == 1 {
        '1'
    } else if n == 2 {
        '2'
    } else if n == 3 {
        '3'
    } else if n == 4 {
        '4'
    } else if n == 5 {
        '5'
    } else if n == 6 {
        '6'
    } else if n == 7 {
        '7'
    } else if n == 8 {
        '8'
    } else if n == 9 {
        '9'
    } else if n == 10 {
        'a'
    } else if n == 11 {
        'b'
    } else if n == 12 {
        'c'
    } else if n == 13 {
        'd'
    } else if n == 14 {
        'e'
    } else {
        'f'
    }
}

/// JSON whitespace.
pub open spec fn is_ws(c: char) -> bool {
    c == ' ' || c == '\n' || c == '\r' || c == '\t'
}

/// A decimal digit.
pub open spec fn is_digit(c: char) -> bool {
    48 <= c as int <= 57
}

/// Value of a hexadecimal digit character, or -1.
pub open spec fn hex_val(c: char) -> int {
    if 48 <= c as int <= 57 {
        c as int - 48
    } else if 97 <= c as int <= 102 {
        c as int - 87
    } else if 65 <= c as int <= 70 {
        c as int - 55
    } else {
        -1
    }
}

/// The character denoted by a two-character escape `\e`.
pub open spec fn unesc(e: char) -> char {
    if e == 'b' {
        '\u{8}'
    } else if e == 't' {
        '\t'
    } else if e == 'n' {
        '\n'
    } else if e == 'f' {
        '\u{c}'
    } else if e == 'r' {
        '\r'
    } else {
        e
    }
}

// ---------------------------------------------------------------------------
// Rendering: the exact text that saving produces
// ---------------------------------------------------------------------------

/// The escape of one string character: `"` and `\` get a backslash, the five
/// named control characters their short escapes, any other control character
/// a `\u00` escape, and everything else stands for itself.
pub open spec fn esc_char(c: char) -> Seq<char> {
    if c == '"' {
        seq!['\\', '"']
    } else if c == '\\' {
        seq!['\\', '\\']
    } else if c == '\u{8}' {
        seq!['\\', 'b']
    } else if c == '\t' {
        seq!['\\', 't']
    } else if c == '\n' {
        seq!['\\', 'n']
    } else if c == '\u{c}' {
        seq!['\\', 'f']
    } else if c == '\r' {
        seq!['\\', 'r']
    } else if (c as u32) < 0x20 {
        seq!['\\', 'u', '0', '0', hex_digit((c as u32) as int / 16), hex_digit((c as u32) as int % 16)]
    } else {
        seq![c]
    }
}

/// The escaped body of a string.
pub open spec fn esc_string(s: Seq<char>) -> Seq<char>
    decreases s.len(),
{
    if s.len() == 0 {
        Seq::empty()
    } else {
        esc_char(s[0]) + esc_string(s.drop_first())
    }
}

/// A rendered string: the escaped body in quotes.
pub open spec fn render_string(s: Seq<char>) -> Seq<char> {
    seq!['"'] + esc_string(s) + seq!['"']
}

/// Decimal digits of `n`, most significant first, no leading zeros.
pub open spec fn dec_digits(n: nat) -> Seq<char>
    decreases n,
{
    if n < 10 {
        seq![hex_digit(n as int)]
    } else {
        dec_digits(n / 10) + seq![hex_digit((n % 10) as int)]
    }
}

/// A rendered boolean.
pub open spec fn render_bool(b: bool) -> Seq<char> {
    if b {
        seq!['t', 'r', 'u', 'e']
    } else {
        seq!['f', 'a', 'l', 's', 'e']
    }
}

/// The quoted key `"id"`.
pub open spec fn lit_id() -> Seq<char> {
    seq!['"', 'i', 'd', '"']
}

/// The quoted key `"title"`.
pub open spec fn lit_title() -> Seq<char> {
    seq!['"', 't', 'i', 't', 'l', 'e', '"']
}

/// The quoted key `"description"`.
pub open spec fn lit_description() -> Seq<char> {
    seq!['"', 'd', 'e', 's', 'c', 'r', 'i', 'p', 't', 'i', 'o', 'n', '"']
}

/// The quoted key `"done"`.
pub open spec fn lit_done() -> Seq<char> {
    seq!['"', 'd', 'o', 'n', 'e', '"']
}

/// One rendered task record, fields in the order id, title, description,
/// done.
#[verifier::opaque]
pub open spec fn render_task(t: TaskView) -> Seq<char> {
    seq!['{'] + lit_id() + seq![':'] + dec_digits(t.id as nat) + seq![','] + lit_title() + seq![
        ':',
    ] + render_string(t.title) + seq![','] + lit_description() + seq![':'] + render_string(
        t.description,
    ) + seq![','] + lit_done() + seq![':'] + render_bool(t.done) + seq!['}']
}

/// The rendered task records, comma-separated.
pub open spec fn render_tasks_inner(s: Seq<TaskView>) -> Seq<char>
    decreases s.len(),
{
    if s.len() == 0 {
        Seq::empty()
    } else if s.len() == 1 {
        render_task(s[0])
    } else {
        render_task(s[0]) + seq![','] + render_tasks_inner(s.drop_first())
    }
}

/// The full rendered store: a JSON array of the task records, in order.
pub open spec fn render_tasks(s: Seq<TaskView>) -> Seq<char> {
    seq!['['] + render_tasks_inner(s) + seq![']']
}

// ---------------------------------------------------------------------------
// Parsing: the exact texts that loading accepts
// ---------------------------------------------------------------------------

/// First position at or after `i` that does not hold whitespace.
pub open spec fn skip_ws(s: Seq<char>, i: int) -> int
    decreases s.len() - i,
{
    if 0 <= i < s.len() && is_ws(s[i]) {
        skip_ws(s, i + 1)
    } else {
        i
    }
}

/// The text holds exactly `lit` starting at `i`.
pub open spec fn match_lit(s: Seq<char>, i: int, lit: Seq<char>) -> bool {
    0 <= i && i + lit.len() <= s.len() && s.subrange(i, i + lit.len()) == lit
}

/// After optional whitespace, the single character `c`; yields the position
/// just past it.
pub open spec fn expect_char(s: Seq<char>, i: int, c: char) -> Option<int> {
    let j = skip_ws(s, i);
    if 0 <= j < s.len() && s[j] == c {
        Some(j + 1)
    } else {
        None
    }
}

/// End of the run of decimal digits starting at `i`.
pub open spec fn digit_run_end(s: Seq<char>, i: int) -> int
    decreases s.len() - i,
{
    if 0 <= i < s.len() && is_digit(s[i]) {
        digit_run_end(s, i + 1)
    } else {
        i
    }
}

/// Value of the digits in positions `i` up to `j`.
pub open spec fn run_val(s: Seq<char>, i: int, j: int) -> int
    decreases j - i,
{
    if j <= i {
        0
    } else {
        run_val(s, i, j - 1) * 10 + (s[j - 1] as int - 48)
    }
}

/// A JSON non-negative integer at `i`: a digit run without a superfluous
/// leading zero, whose value fits in a u32.
pub open spec fn parse_u32(s: Seq<char>, i: int) -> Option<(u32, int)> {
    let j = digit_run_end(s, i);
    if j == i {
        None
    } else if s[i] == '0' && j > i + 1 {
        None
    } else if run_val(s, i, j) <= u32::MAX {
        Some((run_val(s, i, j) as u32, j))
    } else {
        None
    }
}

/// The body of a JSON string, starting just after the opening quote: plain
/// characters stand for themselves, the two-character escapes and `\u`
/// followed by four hex digits are decoded (a surrogate needs its partner,
/// and the pair denotes one character), and unescaped control characters are
/// refused. Yields the text and the position just past the closing quote.
pub open spec fn parse_string_body(s: Seq<char>, i: int) -> Option<(Seq<char>, int)>
    decreases s.len() - i,
{
    if i < 0 || i >= s.len() {
        None
    } else if s[i] == '"' {
        Some((Seq::empty(), i + 1))
    } else if s[i] == '\\' {
        if i + 2 <= s.len() && (s[i + 1] == '"' || s[i + 1] == '\\' || s[i + 1] == '/' || s[i + 1]
            == 'b' || s[i + 1] == 'f' || s[i + 1] == 'n' || s[i + 1] == 'r' || s[i + 1] == 't') {
            match parse_string_body(s, i + 2) {
                Some((rest, j)) => Some((seq![unesc(s[i + 1])] + rest, j)),
                None => None,
            }
        } else if i + 6 <= s.len() && s[i + 1] == 'u' && hex_val(s[i + 2]) >= 0 && hex_val(
            s[i + 3],
        ) >= 0 && hex_val(s[i + 4]) >= 0 && hex_val(s[i + 5]) >= 0 {
            let v = hex_val(s[i + 2]) * 4096 + hex_val(s[i + 3]) * 256 + hex_val(s[i + 4]) * 16
                + hex_val(s[i + 5]);
            if v < 0xD800 || v >= 0xE000 {
                match parse_string_body(s, i + 6) {
                    Some((rest, j)) => Some((seq![(v as u32) as char] + rest, j)),
                    None => None,
                }
            } else if v < 0xDC00 && i + 12 <= s.len() && s[i + 6] == '\\' && s[i + 7] == 'u'
                && hex_val(s[i + 8]) >= 0 && hex_val(s[i + 9]) >= 0 && hex_val(s[i + 10]) >= 0
                && hex_val(s[i + 11]) >= 0 {
                let w = hex_val(s[i + 8]) * 4096 + hex_val(s[i + 9]) * 256 + hex_val(s[i + 10])
                    * 16 + hex_val(s[i + 11]);
                if 0xDC00 <= w < 0xE000 {
                    let code = 0x10000 + (v - 0xD800) * 1024 + (w - 0xDC00);
                    match parse_string_body(s, i + 12) {
                        Some((rest, j)) => Some((seq![(code as u32) as char] + rest, j)),
                        None => None,
                    }
                } else {
                    None
                }
            } else {
                None
            }
        } else {
            None
        }
    } else if (s[i] as u32) < 0x20 {
        None
    } else {
        match parse_string_body(s, i + 1) {
            Some((rest, j)) => Some((seq![s[i]] + rest, j)),
            None => None,
        }
    }
}

/// The value that one object member contributes to a task record: one of
/// the four known fields, or a member under any other key, which is ignored.
pub ghost enum Member {
    Id(u32),
    Title(Seq<char>),
    Description(Seq<char>),
    Done(bool),
    Other,
}

/// The recursion budget of the value skipper. One nesting level consumes at
/// least one character, so the text's length is budget enough for any value
/// the text can hold.
pub open spec fn skip_depth(s: Seq<char>) -> nat {
    s.len()
}

/// End of the fraction digits after a decimal point, the start if there is
/// no point, or -1 if a point stands without digits.
pub open spec fn skip_frac(s: Seq<char>, j: int) -> int {
    if 0 <= j < s.len() && s[j] == '.' {
        let f = digit_run_end(s, j + 1);
        if f == j + 1 {
            -1
        } else {
            f
        }
    } else {
        j
    }
}

/// End of an exponent part, the start if there is none, or -1 if the marker
/// stands without digits.
pub open spec fn skip_exp(s: Seq<char>, k: int) -> int {
    if 0 <= k < s.len() && (s[k] == 'e' || s[k] == 'E') {
        let x = if k + 1 < s.len() && (s[k + 1] == '+' || s[k + 1] == '-') {
            k + 2
        } else {
            k + 1
        };
        let g = digit_run_end(s, x);
        if g == x {
            -1
        } else {
            g
        }
    } else {
        k
    }
}

/// Position after a JSON number starting at `i`.
pub open spec fn skip_number(s: Seq<char>, i: int) -> Option<int> {
    let a = if 0 <= i < s.len() && s[i] == '-' {
        i + 1
    } else {
        i
    };
    let j = digit_run_end(s, a);
    if j == a {
        None
    } else if s[a] == '0' && j > a + 1 {
        None
    } else {
        let k = skip_frac(s, j);
        if k < 0 {
            None
        } else {
            let e = skip_exp(s, k);
            if e < 0 {
                None
            } else {
                Some(e)
            }
        }
    }
}

/// Position after one JSON value of any shape starting at `i`, within the
/// recursion budget `d`.
pub open spec fn skip_value(s: Seq<char>, i: int, d: nat) -> Option<int>
    decreases d,
{
    if d == 0 {
        None
    } else if !(0 <= i < s.len()) {
        None
    } else if s[i] == '"' {
        match parse_string_body(s, i + 1) {
            Some((t, j)) => Some(j),
            None => None,
        }
    } else if s[i] == '[' {
        let m = skip_ws(s, i + 1);
        if 0 <= m < s.len() && s[m] == ']' {
            Some(m + 1)
        } else {
            match skip_value(s, m, (d - 1) as nat) {
                Some(j) => skip_elems(s, j, (d - 1) as nat),
                None => None,
            }
        }
    } else if s[i] == '{' {
        let m = skip_ws(s, i + 1);
        if 0 <= m < s.len() && s[m] == '}' {
            Some(m + 1)
        } else {
            skip_member(s, m, (d - 1) as nat)
        }
    } else if match_lit(s, i, seq!['t', 'r', 'u', 'e']) {
        Some(i + 4)
    } else if match_lit(s, i, seq!['f', 'a', 'l', 's', 'e']) {
        Some(i + 5)
    } else if match_lit(s, i, seq!['n', 'u', 'l', 'l']) {
        Some(i + 4)
    } else {
        skip_number(s, i)
    }
}

/// After a completed array element in a value being read past: the closing
/// bracket, or a comma and a further element.
pub open spec fn skip_elems(s: Seq<char>, i: int, d: nat) -> Option<int>
    decreases d,
{
    if d == 0 {
        None
    } else {
        let m = skip_ws(s, i);
        if 0 <= m < s.len() && s[m] == ']' {
            Some(m + 1)
        } else if 0 <= m < s.len() && s[m] == ',' {
            match skip_value(s, skip_ws(s, m + 1), (d - 1) as nat) {
                Some(j) => skip_elems(s, j, (d - 1) as nat),
                None => None,
            }
        } else {
            None
        }
    }
}

/// An object member being read past (a key, a colon, a value), then the
/// closing brace or a comma and a further member.
pub open spec fn skip_member(s: Seq<char>, i: int, d: nat) -> Option<int>
    decreases d,
{
    if d == 0 {
        None
    } else if 0 <= i < s.len() && s[i] == '"' {
        match parse_string_body(s, i + 1) {
            Some((key, j)) => match expect_char(s, j, ':') {
                Some(k) => match skip_value(s, skip_ws(s, k), (d - 1) as nat) {
                    Some(e) => {
                        let m = skip_ws(s, e);
                        if 0 <= m < s.len() && s[m] == '}' {
                            Some(m + 1)
                        } else if 0 <= m < s.len() && s[m] == ',' {
                            skip_member(s, skip_ws(s, m + 1), (d - 1) as nat)
                        } else {
                            None
                        }
                    },
                    None => None,
                },
                None => None,
            },
            None => None,
        }
    } else {
        None
    }
}

/// One member of a task object: a key string, a colon, and a value. A known
/// key contributes its field and its value must have that field's type; the
/// value under any other key is read past, whatever its shape.
#[verifier::opaque]
pub open spec fn parse_member(s: Seq<char>, i: int) -> Option<(Member, int)> {
    let m = skip_ws(s, i);
    if 0 <= m < s.len() && s[m] == '"' {
        match parse_string_body(s, m + 1) {
            Some((key, j)) => match expect_char(s, j, ':') {
                Some(k) => {
                    let w = skip_ws(s, k);
                    if key == seq!['i', 'd'] {
                        match parse_u32(s, w) {
                            Some((n, e)) => Some((Member::Id(n), e)),
                            None => None,
                        }
                    } else if key == seq!['t', 'i', 't', 'l', 'e'] {
                        if 0 <= w < s.len() && s[w] == '"' {
                            match parse_string_body(s, w + 1) {
                                Some((t, e)) => Some((Member::Title(t), e)),
                                None => None,
                            }
                        } else {
                            None
                        }
                    } else if key == seq!['d', 'e', 's', 'c', 'r', 'i', 'p', 't', 'i', 'o', 'n'] {
                        if 0 <= w < s.len() && s[w] == '"' {
                            match parse_string_body(s, w + 1) {
                                Some((t, e)) => Some((Member::Description(t), e)),
                                None => None,
                            }
                        } else {
                            None
                        }
                    } else if key == seq!['d', 'o', 'n', 'e'] {
                        if match_lit(s, w, seq!['t', 'r', 'u', 'e']) {
                            Some((Member::Done(true), w + 4))
                        } else if match_lit(s, w, seq!['f', 'a', 'l', 's', 'e']) {
                            Some((Member::Done(false), w + 5))
                        } else {
                            None
                        }
                    } else {
                        match skip_value(s, w, skip_depth(s)) {
                            Some(e) => Some((Member::Other, e)),
                            None => None,
                        }
                    }
                },
                None => None,
            },
            None => None,
        }
    } else {
        None
    }
}

/// The members of a task object from `i` on, given the fields already seen:
/// each of the four known fields must occur exactly once over the whole
/// object, in any order, and every other member is ignored.
pub open spec fn parse_members(
    s: Seq<char>,
    i: int,
    id: Option<u32>,
    title: Option<Seq<char>>,
    description: Option<Seq<char>>,
    done: Option<bool>,
) -> Option<(TaskView, int)>
    decreases s.len() - i,
    via parse_members_dec
{
    if !(0 <= i <= s.len()) {
        None
    } else {
        match parse_member(s, i) {
            Some((m, j)) => {
                let dup = match m {
                    Member::Id(n) => id is Some,
                    Member::Title(t) => title is Some,
                    Member::Description(t) => description is Some,
                    Member::Done(b) => done is Some,
                    Member::Other => false,
                };
                if dup {
                    None
                } else {
                    let id2 = match m {
                        Member::Id(n) => Some(n),
                        _ => id,
                    };
                    let title2 = match m {
                        Member::Title(t) => Some(t),
                        _ => title,
                    };
                    let description2 = match m {
                        Member::Description(t) => Some(t),
                        _ => description,
                    };
                    let done2 = match m {
                        Member::Done(b) => Some(b),
                        _ => done,
                    };
                    let k = skip_ws(s, j);
                    if 0 <= k < s.len() && s[k] == ',' {
                        parse_members(s, k + 1, id2, title2, description2, done2)
                    } else if 0 <= k < s.len() && s[k] == '}' {
                        match (id2, title2, description2, done2) {
                            (Some(n), Some(t), Some(dsc), Some(b)) => Some(
                                (TaskView { id: n, title: t, description: dsc, done: b }, k + 1),
                            ),
                            _ => None,
                        }
                    } else {
                        None
                    }
                }
            },
            None => None,
        }
    }
}

#[via_fn]
proof fn parse_members_dec(
    s: Seq<char>,
    i: int,
    id: Option<u32>,
    title: Option<Seq<char>>,
    description: Option<Seq<char>>,
    done: Option<bool>,
) {
    if 0 <= i <= s.len() {
        match parse_member(s, i) {
            Some((m, j)) => {
                lemma_parse_member_bounds(s, i);
                lemma_skip_ws_bounds(s, j);
            },
            None => {},
        }
    }
}

/// One task record: an object holding the four known fields once each, in
/// any order, and any number of other members, which are ignored.
#[verifier::opaque]
pub open spec fn parse_task(s: Seq<char>, i: int) -> Option<(TaskView, int)> {
    match expect_char(s, i, '{') {
        Some(i1) => parse_members(s, i1, None, None, None, None),
        None => None,
    }
}

/// The array elements after a completed task record: either the closing
/// bracket, or a comma and a further record, repeated.
pub open spec fn parse_more(s: Seq<char>, i: int) -> Option<(Seq<TaskView>, int)>
    decreases s.len() - i,
    via parse_more_dec
{
    if !(0 <= i <= s.len()) {
        None
    } else {
        let j = skip_ws(s, i);
        if 0 <= j < s.len() && s[j] == ']' {
            Some((Seq::empty(), j + 1))
        } else if 0 <= j < s.len() && s[j] == ',' {
            match parse_task(s, j + 1) {
                Some((t, k)) => match parse_more(s, k) {
                    Some((ts, m)) => Some((seq![t] + ts, m)),
                    None => None,
                },
                None => None,
            }
        } else {
            None
        }
    }
}

#[via_fn]
proof fn parse_more_dec(s: Seq<char>, i: int) {
    if 0 <= i <= s.len() {
        lemma_skip_ws_bounds(s, i);
        let j = skip_ws(s, i);
        if 0 <= j < s.len() && s[j] != ']' && s[j] == ',' {
            match parse_task(s, j + 1) {
                Some((t, k)) => {
                    lemma_parse_task_bounds(s, j + 1);
                },
                None => {},
            }
        }
    }
}

/// The full array: a bracket, zero or more task records separated by commas,
/// and the closing bracket.
pub open spec fn parse_tasks(s: Seq<char>, i: int) -> Option<(Seq<TaskView>, int)> {
    match expect_char(s, i, '[') {
        Some(i1) => {
            let j = skip_ws(s, i1);
            if 0 <= j < s.len() && s[j] == ']' {
                Some((Seq::empty(), j + 1))
            } else {
                match parse_task(s, j) {
                    Some((t, k)) => match parse_more(s, k) {
                        Some((ts, m)) => Some((seq![t] + ts, m)),
                        None => None,
                    },
                    None => None,
                }
            }
        },
        None => None,
    }
}

/// What a whole file means: one task array with nothing but whitespace
/// around it, or nothing at all (`None`) if the text is malformed.
pub open spec fn spec_parse(s: Seq<char>) -> Option<Seq<TaskView>> {
    match parse_tasks(s, 0) {
        Some((ts, j)) => {
            if skip_ws(s, j) == s.len() {
                Some(ts)
            } else {
                None
            }
        },
        None => None,
    }
}

// ---------------------------------------------------------------------------
// Position bounds of the parsing functions
// ---------------------------------------------------------------------------

proof fn lemma_skip_ws_bounds(s: Seq<char>, i: int)
    requires
        0 <= i <= s.len(),
    ensures
        i <= skip_ws(s, i) <= s.len(),
    decreases s.len() - i,
{
    if i < s.len() && is_ws(s[i]) {
        lemma_skip_ws_bounds(s, i + 1);
    }
}

proof fn lemma_expect_char_bounds(s: Seq<char>, i: int, c: char)
    requires
        0 <= i <= s.len(),
    ensures
        expect_char(s, i, c) matches Some(j) ==> i < j <= s.len(),
{
    lemma_skip_ws_bounds(s, i);
}

proof fn lemma_digit_run_end_props(s: Seq<char>, i: int)
    requires
        0 <= i <= s.len(),
    ensures
        i <= digit_run_end(s, i) <= s.len(),
        forall|k: int| i <= k < digit_run_end(s, i) ==> is_digit(s[k]),
        digit_run_end(s, i) == s.len() || !is_digit(s[digit_run_end(s, i)]),
    decreases s.len() - i,
{
    if i < s.len() && is_digit(s[i]) {
        lemma_digit_run_end_props(s, i + 1);
    }
}

proof fn lemma_parse_u32_bounds(s: Seq<char>, i: int)
    requires
        0 <= i <= s.len(),
    ensures
        parse_u32(s, i) matches Some((n, j)) ==> i < j <= s.len(),
{
    lemma_digit_run_end_props(s, i);
}

proof fn lemma_parse_string_body_bounds(s: Seq<char>, i: int)
    ensures
        parse_string_body(s, i) matches Some((t, j)) ==> i < j <= s.len(),
    decreases s.len() - i,
{
    if 0 <= i < s.len() {
        if s[i] == '"' {
        } else if s[i] == '\\' {
            if i + 2 <= s.len() {
                lemma_parse_string_body_bounds(s, i + 2);
            }
            if i + 6 <= s.len() {
                lemma_parse_string_body_bounds(s, i + 6);
            }
            if i + 12 <= s.len() {
                lemma_parse_string_body_bounds(s, i + 12);
            }
        } else {
            lemma_parse_string_body_bounds(s, i + 1);
        }
    }
}

#[verifier::rlimit(50)]
#[verifier::spinoff_prover]
proof fn lemma_skip_number_bounds(s: Seq<char>, i: int)
    requires
        0 <= i <= s.len(),
    ensures
        skip_number(s, i) matches Some(j) ==> i < j <= s.len(),
{
    let a = if 0 <= i < s.len() && s[i] == '-' {
        i + 1
    } else {
        i
    };
    lemma_digit_run_end_props(s, a);
    let j = digit_run_end(s, a);
    if 0 <= j < s.len() && s[j] == '.' {
        lemma_digit_run_end_props(s, j + 1);
    }
    let k = skip_frac(s, j);
    if k >= 0 && 0 <= k < s.len() && (s[k] == 'e' || s[k] == 'E') {
        if k + 1 < s.len() && (s[k + 1] == '+' || s[k + 1] == '-') {
            lemma_digit_run_end_props(s, k + 2);
        } else {
            lemma_digit_run_end_props(s, k + 1);
        }
    }
}

#[verifier::rlimit(50)]
#[verifier::spinoff_prover]
proof fn lemma_skip_value_bounds(s: Seq<char>, i: int, d: nat)
    ensures
        skip_value(s, i, d) matches Some(j) ==> i < j <= s.len(),
    decreases d,
{
    if d > 0 && 0 <= i < s.len() {
        if s[i] == '"' {
            lemma_parse_string_body_bounds(s, i + 1);
        } else if s[i] == '[' {
            lemma_skip_ws_bounds(s, i + 1);
            let m = skip_ws(s, i + 1);
            if !(0 <= m < s.len() && s[m] == ']') {
                lemma_skip_value_bounds(s, m, (d - 1) as nat);
                match skip_value(s, m, (d - 1) as nat) {
                    Some(j) => {
                        lemma_skip_elems_bounds(s, j, (d - 1) as nat);
                    },
                    None => {},
                }
            }
        } else if s[i] == '{' {
            lemma_skip_ws_bounds(s, i + 1);
            let m = skip_ws(s, i + 1);
            if !(0 <= m < s.len() && s[m] == '}') {
                lemma_skip_member_bounds(s, m, (d - 1) as nat);
            }
        } else if match_lit(s, i, seq!['t', 'r', 'u', 'e']) || match_lit(
            s,
            i,
            seq!['f', 'a', 'l', 's', 'e'],
        ) || match_lit(s, i, seq!['n', 'u', 'l', 'l']) {
        } else {
            lemma_skip_number_bounds(s, i);
        }
    }
}

#[verifier::rlimit(50)]
#[verifier::spinoff_prover]
proof fn lemma_skip_elems_bounds(s: Seq<char>, i: int, d: nat)
    requires
        0 <= i <= s.len(),
    ensures
        skip_elems(s, i, d) matches Some(j) ==> i < j <= s.len(),
    decreases d,
{
    if d > 0 {
        lemma_skip_ws_bounds(s, i);
        let m = skip_ws(s, i);
        if 0 <= m < s.len() && s[m] == ']' {
        } else if 0 <= m < s.len() && s[m] == ',' {
            lemma_skip_ws_bounds(s, m + 1);
            lemma_skip_value_bounds(s, skip_ws(s, m + 1), (d - 1) as nat);
            match skip_value(s, skip_ws(s, m + 1), (d - 1) as nat) {
                Some(j) => {
                    lemma_skip_elems_bounds(s, j, (d - 1) as nat);
                },
                None => {},
            }
        }
    }
}

#[verifier::rlimit(50)]
#[verifier::spinoff_prover]
proof fn lemma_skip_member_bounds(s: Seq<char>, i: int, d: nat)
    requires
        0 <= i <= s.len(),
    ensures
        skip_member(s, i, d) matches Some(j) ==> i < j <= s.len(),
    decreases d,
{
    if d > 0 && 0 <= i < s.len() && s[i] == '"' {
        lemma_parse_string_body_bounds(s, i + 1);
        match parse_string_body(s, i + 1) {
            Some((key, j)) => {
                lemma_expect_char_bounds(s, j, ':');
                match expect_char(s, j, ':') {
                    Some(k) => {
                        lemma_skip_ws_bounds(s, k);
                        lemma_skip_value_bounds(s, skip_ws(s, k), (d - 1) as nat);
                        match skip_value(s, skip_ws(s, k), (d - 1) as nat) {
                            Some(e) => {
                                lemma_skip_ws_bounds(s, e);
                                let m = skip_ws(s, e);
                                if 0 <= m < s.len() && s[m] == ',' {
                                    lemma_skip_ws_bounds(s, m + 1);
                                    lemma_skip_member_bounds(
                                        s,
                                        skip_ws(s, m + 1),
                                        (d - 1) as nat,
                                    );
                                }
                            },
                            None => {},
                        }
                    },
                    None => {},
                }
            },
            None => {},
        }
    }
}

proof fn lemma_parse_member_bounds(s: Seq<char>, i: int)
    requires
        0 <= i <= s.len(),
    ensures
        parse_member(s, i) matches Some((m, j)) ==> i < j <= s.len(),
{
    reveal(parse_member);
    lemma_skip_ws_bounds(s, i);
    let m = skip_ws(s, i);
    if 0 <= m < s.len() && s[m] == '"' {
        lemma_parse_string_body_bounds(s, m + 1);
        match parse_string_body(s, m + 1) {
            Some((key, j)) => {
                lemma_expect_char_bounds(s, j, ':');
                match expect_char(s, j, ':') {
                    Some(k) => {
                        lemma_skip_ws_bounds(s, k);
                        let w = skip_ws(s, k);
                        lemma_parse_u32_bounds(s, w);
                        lemma_parse_string_body_bounds(s, w + 1);
                        lemma_skip_value_bounds(s, w, skip_depth(s));
                    },
                    None => {},
                }
            },
            None => {},
        }
    }
}

proof fn lemma_parse_members_bounds(
    s: Seq<char>,
    i: int,
    id: Option<u32>,
    title: Option<Seq<char>>,
    description: Option<Seq<char>>,
    done: Option<bool>,
)
    requires
        0 <= i <= s.len(),
    ensures
        parse_members(s, i, id, title, description, done) matches Some((t, j)) ==> i < j
            <= s.len(),
    decreases s.len() - i,
{
    lemma_parse_member_bounds(s, i);
    match parse_member(s, i) {
        Some((m, j)) => {
            lemma_skip_ws_bounds(s, j);
            let id2 = match m {
                Member::Id(n) => Some(n),
                _ => id,
            };
            let title2 = match m {
                Member::Title(t) => Some(t),
                _ => title,
            };
            let description2 = match m {
                Member::Description(t) => Some(t),
                _ => description,
            };
            let done2 = match m {
                Member::Done(b) => Some(b),
                _ => done,
            };
            let k = skip_ws(s, j);
            if 0 <= k < s.len() && s[k] == ',' {
                lemma_parse_members_bounds(s, k + 1, id2, title2, description2, done2);
            }
        },
        None => {},
    }
}

proof fn lemma_parse_task_bounds(s: Seq<char>, i: int)
    requires
        0 <= i <= s.len(),
    ensures
        parse_task(s, i) matches Some((t, j)) ==> i < j <= s.len(),
{
    reveal(parse_task);
    lemma_expect_char_bounds(s, i, '{');
    match expect_char(s, i, '{') {
        Some(i1) => {
            lemma_parse_members_bounds(s, i1, None, None, None, None);
        },
        None => {},
    }
}

// ---------------------------------------------------------------------------
// Trusted character conversions
// ---------------------------------------------------------------------------

/// Relies on str::chars, collected into a vector: the characters of the
/// string, in order.
#[verifier::external_body]
fn str_chars(s: &str) -> (r: Vec<char>)
    ensures
        r@ == s@,
{
    s.chars().collect()
}

/// Relies on String's FromIterator over characters: the string holding
/// exactly the given characters, in order.
#[verifier::external_body]
fn chars_to_string(v: Vec<char>) -> (r: String)
    ensures
        r@ == v@,
{
    v.into_iter().collect()
}

/// Relies on char::from_u32: a character exactly when the value is a
/// Unicode scalar value, that is, below 0x110000 and not a surrogate.
#[verifier::external_body]
fn char_from_u32(v: u32) -> (r: Option<char>)
    ensures
        r == (if v < 0xD800 || (0xE000 <= v && v < 0x110000) {
            Some((v as char))
        } else {
            None::<char>
        }),
{
    char::from_u32(v)
}

// ---------------------------------------------------------------------------
// Executable parsing
// ---------------------------------------------------------------------------

fn is_ws_exec(c: char) -> (r: bool)
    ensures
        r == is_ws(c),
{
    c == ' ' || c == '\n' || c == '\r' || c == '\t'
}

fn is_ctl_exec(c: char) -> (r: bool)
    ensures
        r == ((c as u32) < 0x20),
{
    (c as u32) < 0x20
}

fn digit_val_exec(c: char) -> (r: u32)
    requires
        is_digit(c),
    ensures
        r as int == c as int - 48,
{
    (c as u32) - 48
}

fn is_digit_exec(c: char) -> (r: bool)
    ensures
        r == is_digit(c),
{
    let u = c as u32;
    u >= 48 && u <= 57
}

fn skip_ws_exec(v: &Vec<char>, i: usize) -> (r: usize)
    requires
        i <= v.len(),
    ensures
        i <= r <= v.len(),
        r as int == skip_ws(v@, i as int),
{
    let mut j: usize = i;
    while j < v.len() && is_ws_exec(v[j])
        invariant
            i <= j <= v.len(),
            skip_ws(v@, i as int) == skip_ws(v@, j as int),
        decreases v.len() - j,
    {
        j = j + 1;
    }
    j
}

fn expect_char_exec(v: &Vec<char>, i: usize, c: char) -> (r: Option<usize>)
    requires
        i <= v.len(),
    ensures
        match r {
            Some(j) => expect_char(v@, i as int, c) == Some(j as int) && i < j <= v.len(),
            None => expect_char(v@, i as int, c) is None,
        },
{
    let j = skip_ws_exec(v, i);
    if j < v.len() && v[j] == c {
        Some(j + 1)
    } else {
        None
    }
}

fn lit_true_at(v: &Vec<char>, i: usize) -> (r: bool)
    requires
        i <= v.len(),
    ensures
        r == match_lit(v@, i as int, seq!['t', 'r', 'u', 'e']),
{
    if v.len() - i >= 4 && v[i] == 't' && v[i + 1] == 'r' && v[i + 2] == 'u' && v[i + 3] == 'e' {
        proof {
            assert(v@.subrange(i as int, i as int + 4) =~= seq!['t', 'r', 'u', 'e']);
        }
        true
    } else {
        proof {
            if match_lit(v@, i as int, seq!['t', 'r', 'u', 'e']) {
                assert forall|k: int| 0 <= k < 4 implies #[trigger] v@.subrange(i as int, i as int + 4)[k] == v@[i as int + k] by {}
            }
        }
        false
    }
}

fn lit_false_at(v: &Vec<char>, i: usize) -> (r: bool)
    requires
        i <= v.len(),
    ensures
        r == match_lit(v@, i as int, seq!['f', 'a', 'l', 's', 'e']),
{
    if v.len() - i >= 5 && v[i] == 'f' && v[i + 1] == 'a' && v[i + 2] == 'l' && v[i + 3] == 's'
        && v[i + 4] == 'e' {
        proof {
            assert(v@.subrange(i as int, i as int + 5) =~= seq!['f', 'a', 'l', 's', 'e']);
        }
        true
    } else {
        proof {
            if match_lit(v@, i as int, seq!['f', 'a', 'l', 's', 'e']) {
                assert forall|k: int| 0 <= k < 5 implies #[trigger] v@.subrange(i as int, i as int + 5)[k] == v@[i as int + k] by {}
            }
        }
        false
    }
}

proof fn lemma_run_val_nonneg(s: Seq<char>, i: int, j: int)
    requires
        forall|k: int| i <= k < j ==> is_digit(s[k]),
    ensures
        run_val(s, i, j) >= 0,
    decreases j - i,
{
    if j > i {
        lemma_run_val_nonneg(s, i, j - 1);
    }
}

proof fn lemma_run_val_mono(s: Seq<char>, i: int, j1: int, j2: int)
    requires
        i <= j1 <= j2,
        forall|k: int| i <= k < j2 ==> is_digit(s[k]),
    ensures
        run_val(s, i, j1) <= run_val(s, i, j2),
    decreases j2 - j1,
{
    if j2 > j1 {
        lemma_run_val_mono(s, i, j1, j2 - 1);
        lemma_run_val_nonneg(s, i, j2 - 1);
    }
}

fn parse_u32_exec(v: &Vec<char>, i: usize) -> (r: Option<(u32, usize)>)
    requires
        i <= v.len(),
    ensures
        match r {
            Some((n, j)) => parse_u32(v@, i as int) == Some((n, j as int)) && i < j <= v.len(),
            None => parse_u32(v@, i as int) is None,
        },
{
    let ghost s = v@;
    proof {
        lemma_digit_run_end_props(s, i as int);
    }
    let mut j: usize = i;
    while j < v.len() && is_digit_exec(v[j])
        invariant
            i <= j <= v.len(),
            s == v@,
            digit_run_end(s, i as int) == digit_run_end(s, j as int),
        decreases v.len() - j,
    {
        j = j + 1;
    }
    proof {
        assert(digit_run_end(s, i as int) == j as int);
    }
    if j == i {
        return None;
    }
    if v[i] == '0' && j > i + 1 {
        return None;
    }
    let mut acc: u32 = 0;
    let mut k: usize = i;
    while k < j
        invariant
            i <= k <= j <= v.len(),
            s == v@,
            digit_run_end(s, i as int) == j as int,
            forall|m: int| i <= m < j ==> is_digit(s[m]),
            acc as int == run_val(s, i as int, k as int),
        decreases j - k,
    {
        let c = v[k];
        let d: u32 = digit_val_exec(c);
        if acc > (u32::MAX - d) / 10 {
            proof {
                assert(run_val(s, i as int, k as int + 1) > u32::MAX);
                lemma_run_val_mono(s, i as int, k as int + 1, j as int);
            }
            return None;
        }
        acc = acc * 10 + d;
        k = k + 1;
    }
    Some((acc, j))
}

fn unesc_exec(e: char) -> (r: char)
    ensures
        r == unesc(e),
{
    if e == 'b' {
        '\u{8}'
    } else if e == 't' {
        '\t'
    } else if e == 'n' {
        '\n'
    } else if e == 'f' {
        '\u{c}'
    } else if e == 'r' {
        '\r'
    } else {
        e
    }
}

fn hex_val_exec(c: char) -> (r: Option<u8>)
    ensures
        match r {
            Some(x) => hex_val(c) == x as int && x < 16,
            None => hex_val(c) == -1,
        },
{
    let u = c as u32;
    if u >= 48 && u <= 57 {
        Some((u - 48) as u8)
    } else if u >= 97 && u <= 102 {
        Some((u - 87) as u8)
    } else if u >= 65 && u <= 70 {
        Some((u - 55) as u8)
    } else {
        None
    }
}

#[verifier::rlimit(100)]
#[verifier::spinoff_prover]
fn parse_string_exec(v: &Vec<char>, i: usize) -> (r: Option<(Vec<char>, usize)>)
    requires
        i <= v.len(),
    ensures
        match r {
            Some((out, j)) => parse_string_body(v@, i as int) == Some((out@, j as int)) && i < j
                <= v.len(),
            None => parse_string_body(v@, i as int) is None,
        },
{
    proof {
        lemma_parse_string_body_bounds(v@, i as int);
    }
    let mut out: Vec<char> = Vec::new();
    let mut cur: usize = i;
    proof {
        match parse_string_body(v@, i as int) {
            Some((rest, j)) => {
                assert(Seq::<char>::empty() + rest =~= rest);
            },
            None => {},
        }
    }
    loop
        invariant
            i <= cur <= v.len(),
            match parse_string_body(v@, cur as int) {
                Some((rest, j)) => parse_string_body(v@, i as int) == Some((out@ + rest, j)),
                None => parse_string_body(v@, i as int) is None,
            },
        decreases v.len() - cur,
    {
        if cur >= v.len() {
            return None;
        }
        let c = v[cur];
        if c == '"' {
            proof {
                assert(out@ + Seq::<char>::empty() =~= out@);
                lemma_parse_string_body_bounds(v@, i as int);
            }
            return Some((out, cur + 1));
        } else if c == '\\' {
            if v.len() - cur < 2 {
                return None;
            }
            let e = v[cur + 1];
            if e == '"' || e == '\\' || e == '/' || e == 'b' || e == 'f' || e == 'n' || e == 'r'
                || e == 't' {
                let ghost out_pre = out@;
                let ghost cur_pre = cur as int;
                out.push(unesc_exec(e));
                cur = cur + 2;
                proof {
                    match parse_string_body(v@, cur as int) {
                        Some((rest, j)) => {
                            assert(out@ + rest =~= out_pre + (seq![unesc(v@[cur_pre + 1])] + rest));
                        },
                        None => {},
                    }
                }
            } else if e == 'u' {
                if v.len() - cur < 6 {
                    return None;
                }
                let h1 = match hex_val_exec(v[cur + 2]) {
                    Some(x) => x,
                    None => {
                        return None;
                    },
                };
                let h2 = match hex_val_exec(v[cur + 3]) {
                    Some(x) => x,
                    None => {
                        return None;
                    },
                };
                let h3 = match hex_val_exec(v[cur + 4]) {
                    Some(x) => x,
                    None => {
                        return None;
                    },
                };
                let h4 = match hex_val_exec(v[cur + 5]) {
                    Some(x) => x,
                    None => {
                        return None;
                    },
                };
                let val: u32 = (h1 as u32) * 4096 + (h2 as u32) * 256 + (h3 as u32) * 16 + (
                h4 as u32);
                if val < 0xD800 || val >= 0xE000 {
                    let c2 = match char_from_u32(val) {
                        Some(x) => x,
                        None => {
                            proof {
                                assert(false);
                            }
                            return None;
                        },
                    };
                    let ghost out_pre = out@;
                    let ghost cur_pre = cur as int;
                    out.push(c2);
                    cur = cur + 6;
                    proof {
                        match parse_string_body(v@, cur as int) {
                            Some((rest, j)) => {
                                assert(out@ + rest =~= out_pre + (seq![((hex_val(v@[cur_pre + 2])
                                    * 4096 + hex_val(v@[cur_pre + 3]) * 256 + hex_val(
                                    v@[cur_pre + 4],
                                ) * 16 + hex_val(v@[cur_pre + 5])) as u32) as char] + rest));
                            },
                            None => {},
                        }
                    }
                } else if val < 0xDC00 {
                    if v.len() - cur < 12 {
                        return None;
                    }
                    if !(v[cur + 6] == '\\' && v[cur + 7] == 'u') {
                        return None;
                    }
                    let g1 = match hex_val_exec(v[cur + 8]) {
                        Some(x) => x,
                        None => {
                            return None;
                        },
                    };
                    let g2 = match hex_val_exec(v[cur + 9]) {
                        Some(x) => x,
                        None => {
                            return None;
                        },
                    };
                    let g3 = match hex_val_exec(v[cur + 10]) {
                        Some(x) => x,
                        None => {
                            return None;
                        },
                    };
                    let g4 = match hex_val_exec(v[cur + 11]) {
                        Some(x) => x,
                        None => {
                            return None;
                        },
                    };
                    let wval: u32 = (g1 as u32) * 4096 + (g2 as u32) * 256 + (g3 as u32) * 16 + (
                    g4 as u32);
                    if wval >= 0xDC00 && wval < 0xE000 {
                        let code: u32 = 0x10000 + (val - 0xD800) * 1024 + (wval - 0xDC00);
                        let c2 = match char_from_u32(code) {
                            Some(x) => x,
                            None => {
                                proof {
                                    assert(false);
                                }
                                return None;
                            },
                        };
                        let ghost out_pre = out@;
                        let ghost cur_pre = cur as int;
                        out.push(c2);
                        cur = cur + 12;
                        proof {
                            match parse_string_body(v@, cur as int) {
                                Some((rest, j)) => {
                                    assert(out@ + rest =~= out_pre + (seq![((0x10000 + (hex_val(
                                        v@[cur_pre + 2],
                                    ) * 4096 + hex_val(v@[cur_pre + 3]) * 256 + hex_val(
                                        v@[cur_pre + 4],
                                    ) * 16 + hex_val(v@[cur_pre + 5]) - 0xD800) * 1024 + (hex_val(
                                        v@[cur_pre + 8],
                                    ) * 4096 + hex_val(v@[cur_pre + 9]) * 256 + hex_val(
                                        v@[cur_pre + 10],
                                    ) * 16 + hex_val(v@[cur_pre + 11]) - 0xDC00)) as u32) as char]
                                        + rest));
                                },
                                None => {},
                            }
                        }
                    } else {
                        return None;
                    }
                } else {
                    return None;
                }
            } else {
                return None;
            }
        } else if is_ctl_exec(c) {
            return None;
        } else {
            let ghost out_pre = out@;
            let ghost cur_pre = cur as int;
            out.push(c);
            cur = cur + 1;
            proof {
                match parse_string_body(v@, cur as int) {
                    Some((rest, j)) => {
                        assert(out@ + rest =~= out_pre + (seq![v@[cur_pre]] + rest));
                    },
                    None => {},
                }
            }
        }
    }
}

fn lit_null_at(v: &Vec<char>, i: usize) -> (r: bool)
    requires
        i <= v.len(),
    ensures
        r == match_lit(v@, i as int, seq!['n', 'u', 'l', 'l']),
{
    if v.len() - i >= 4 && v[i] == 'n' && v[i + 1] == 'u' && v[i + 2] == 'l' && v[i + 3] == 'l' {
        proof {
            assert(v@.subrange(i as int, i as int + 4) =~= seq!['n', 'u', 'l', 'l']);
        }
        true
    } else {
        proof {
            if match_lit(v@, i as int, seq!['n', 'u', 'l', 'l']) {
                assert forall|k: int| 0 <= k < 4 implies #[trigger] v@.subrange(
                    i as int,
                    i as int + 4,
                )[k] == v@[i as int + k] by {}
            }
        }
        false
    }
}

fn key_is_id(key: &Vec<char>) -> (r: bool)
    ensures
        r == (key@ == seq!['i', 'd']),
{
    if key.len() == 2 && key[0] == 'i' && key[1] == 'd' {
        proof {
            assert(key@ =~= seq!['i', 'd']);
        }
        true
    } else {
        proof {
            if key@ == seq!['i', 'd'] {
                assert(key@.len() == 2);
                assert(key@[0] == 'i');
                assert(key@[1] == 'd');
            }
        }
        false
    }
}

fn key_is_title(key: &Vec<char>) -> (r: bool)
    ensures
        r == (key@ == seq!['t', 'i', 't', 'l', 'e']),
{
    if key.len() == 5 && key[0] == 't' && key[1] == 'i' && key[2] == 't' && key[3] == 'l' && key[4]
        == 'e' {
        proof {
            assert(key@ =~= seq!['t', 'i', 't', 'l', 'e']);
        }
        true
    } else {
        proof {
            if key@ == seq!['t', 'i', 't', 'l', 'e'] {
                assert(key@.len() == 5);
                assert forall|k: int| 0 <= k < 5 implies key@[k] == seq![
                    't',
                    'i',
                    't',
                    'l',
                    'e',
                ][k] by {}
            }
        }
        false
    }
}

fn key_is_description(key: &Vec<char>) -> (r: bool)
    ensures
        r == (key@ == seq!['d', 'e', 's', 'c', 'r', 'i', 'p', 't', 'i', 'o', 'n']),
{
    if key.len() == 11 && key[0] == 'd' && key[1] == 'e' && key[2] == 's' && key[3] == 'c'
        && key[4] == 'r' && key[5] == 'i' && key[6] == 'p' && key[7] == 't' && key[8] == 'i'
        && key[9] == 'o' && key[10] == 'n' {
        proof {
            assert(key@ =~= seq!['d', 'e', 's', 'c', 'r', 'i', 'p', 't', 'i', 'o', 'n']);
        }
        true
    } else {
        proof {
            if key@ == seq!['d', 'e', 's', 'c', 'r', 'i', 'p', 't', 'i', 'o', 'n'] {
                assert(key@.len() == 11);
                assert forall|k: int| 0 <= k < 11 implies key@[k] == seq![
                    'd',
                    'e',
                    's',
                    'c',
                    'r',
                    'i',
                    'p',
                    't',
                    'i',
                    'o',
                    'n',
                ][k] by {}
            }
        }
        false
    }
}

fn key_is_done(key: &Vec<char>) -> (r: bool)
    ensures
        r == (key@ == seq!['d', 'o', 'n', 'e']),
{
    if key.len() == 4 && key[0] == 'd' && key[1] == 'o' && key[2] == 'n' && key[3] == 'e' {
        proof {
            assert(key@ =~= seq!['d', 'o', 'n', 'e']);
        }
        true
    } else {
        proof {
            if key@ == seq!['d', 'o', 'n', 'e'] {
                assert(key@.len() == 4);
                assert forall|k: int| 0 <= k < 4 implies key@[k] == seq!['d', 'o', 'n', 'e'][k] by {}
            }
        }
        false
    }
}

fn run_end_exec(v: &Vec<char>, i: usize) -> (r: usize)
    requires
        i <= v.len(),
    ensures
        i <= r <= v.len(),
        r as int == digit_run_end(v@, i as int),
{
    let mut j: usize = i;
    while j < v.len() && is_digit_exec(v[j])
        invariant
            i <= j <= v.len(),
            digit_run_end(v@, i as int) == digit_run_end(v@, j as int),
        decreases v.len() - j,
    {
        j = j + 1;
    }
    j
}

fn skip_number_exec(v: &Vec<char>, i: usize) -> (r: Option<usize>)
    requires
        i <= v.len(),
    ensures
        match r {
            Some(j) => skip_number(v@, i as int) == Some(j as int) && i < j <= v.len(),
            None => skip_number(v@, i as int) is None,
        },
{
    let a = if i < v.len() && v[i] == '-' {
        i + 1
    } else {
        i
    };
    let j = run_end_exec(v, a);
    proof {
        lemma_digit_run_end_props(v@, a as int);
    }
    if j == a {
        return None;
    }
    if v[a] == '0' && j > a + 1 {
        return None;
    }
    let k = if j < v.len() && v[j] == '.' {
        let f = run_end_exec(v, j + 1);
        if f == j + 1 {
            return None;
        }
        f
    } else {
        j
    };
    proof {
        assert(k as int == skip_frac(v@, j as int));
    }
    let e = if k < v.len() && (v[k] == 'e' || v[k] == 'E') {
        let x = if k + 1 < v.len() && (v[k + 1] == '+' || v[k + 1] == '-') {
            k + 2
        } else {
            k + 1
        };
        let g = run_end_exec(v, x);
        if g == x {
            return None;
        }
        g
    } else {
        k
    };
    proof {
        assert(e as int == skip_exp(v@, k as int));
    }
    Some(e)
}

fn skip_value_exec(v: &Vec<char>, i: usize, d: usize) -> (r: Option<usize>)
    requires
        i <= v.len(),
    ensures
        match r {
            Some(j) => skip_value(v@, i as int, d as nat) == Some(j as int) && i < j <= v.len(),
            None => skip_value(v@, i as int, d as nat) is None,
        },
    decreases d,
{
    if d == 0 {
        return None;
    }
    if i >= v.len() {
        return None;
    }
    let c = v[i];
    if c == '"' {
        match parse_string_exec(v, i + 1) {
            Some(p) => Some(p.1),
            None => None,
        }
    } else if c == '[' {
        let m = skip_ws_exec(v, i + 1);
        if m < v.len() && v[m] == ']' {
            Some(m + 1)
        } else {
            match skip_value_exec(v, m, d - 1) {
                Some(j) => skip_elems_exec(v, j, d - 1),
                None => None,
            }
        }
    } else if c == '{' {
        let m = skip_ws_exec(v, i + 1);
        if m < v.len() && v[m] == '}' {
            Some(m + 1)
        } else {
            skip_member_exec(v, m, d - 1)
        }
    } else if lit_true_at(v, i) {
        Some(i + 4)
    } else if lit_false_at(v, i) {
        Some(i + 5)
    } else if lit_null_at(v, i) {
        Some(i + 4)
    } else {
        skip_number_exec(v, i)
    }
}

fn skip_elems_exec(v: &Vec<char>, i: usize, d: usize) -> (r: Option<usize>)
    requires
        i <= v.len(),
    ensures
        match r {
            Some(j) => skip_elems(v@, i as int, d as nat) == Some(j as int) && i < j <= v.len(),
            None => skip_elems(v@, i as int, d as nat) is None,
        },
    decreases d,
{
    if d == 0 {
        return None;
    }
    let m = skip_ws_exec(v, i);
    if m < v.len() && v[m] == ']' {
        Some(m + 1)
    } else if m < v.len() && v[m] == ',' {
        let w = skip_ws_exec(v, m + 1);
        match skip_value_exec(v, w, d - 1) {
            Some(j) => skip_elems_exec(v, j, d - 1),
            None => None,
        }
    } else {
        None
    }
}

fn skip_member_exec(v: &Vec<char>, i: usize, d: usize) -> (r: Option<usize>)
    requires
        i <= v.len(),
    ensures
        match r {
            Some(j) => skip_member(v@, i as int, d as nat) == Some(j as int) && i < j <= v.len(),
            None => skip_member(v@, i as int, d as nat) is None,
        },
    decreases d,
{
    if d == 0 {
        return None;
    }
    if !(i < v.len() && v[i] == '"') {
        return None;
    }
    let j = match parse_string_exec(v, i + 1) {
        Some(p) => p.1,
        None => {
            return None;
        },
    };
    let k = match expect_char_exec(v, j, ':') {
        Some(x) => x,
        None => {
            return None;
        },
    };
    let w = skip_ws_exec(v, k);
    let e = match skip_value_exec(v, w, d - 1) {
        Some(x) => x,
        None => {
            return None;
        },
    };
    let m = skip_ws_exec(v, e);
    if m < v.len() && v[m] == '}' {
        Some(m + 1)
    } else if m < v.len() && v[m] == ',' {
        let n = skip_ws_exec(v, m + 1);
        skip_member_exec(v, n, d - 1)
    } else {
        None
    }
}

enum MemberE {
    Id(u32),
    Title(Vec<char>),
    Description(Vec<char>),
    Done(bool),
    Other,
}

impl View for MemberE {
    type V = Member;

    closed spec fn view(&self) -> Member {
        match self {
            MemberE::Id(n) => Member::Id(*n),
            MemberE::Title(t) => Member::Title(t@),
            MemberE::Description(t) => Member::Description(t@),
            MemberE::Done(b) => Member::Done(*b),
            MemberE::Other => Member::Other,
        }
    }
}

fn parse_member_exec(v: &Vec<char>, i: usize) -> (r: Option<(MemberE, usize)>)
    requires
        i <= v.len(),
    ensures
        match r {
            Some((m, j)) => parse_member(v@, i as int) == Some((m@, j as int)) && i < j <= v.len(),
            None => parse_member(v@, i as int) is None,
        },
{
    proof {
        reveal(parse_member);
    }
    let m = skip_ws_exec(v, i);
    if !(m < v.len() && v[m] == '"') {
        return None;
    }
    let (key, j) = match parse_string_exec(v, m + 1) {
        Some(x) => x,
        None => {
            return None;
        },
    };
    let k = match expect_char_exec(v, j, ':') {
        Some(x) => x,
        None => {
            return None;
        },
    };
    let w = skip_ws_exec(v, k);
    if key_is_id(&key) {
        match parse_u32_exec(v, w) {
            Some((n, e)) => Some((MemberE::Id(n), e)),
            None => None,
        }
    } else if key_is_title(&key) {
        if w < v.len() && v[w] == '"' {
            match parse_string_exec(v, w + 1) {
                Some((t, e)) => Some((MemberE::Title(t), e)),
                None => None,
            }
        } else {
            None
        }
    } else if key_is_description(&key) {
        if w < v.len() && v[w] == '"' {
            match parse_string_exec(v, w + 1) {
                Some((t, e)) => Some((MemberE::Description(t), e)),
                None => None,
            }
        } else {
            None
        }
    } else if key_is_done(&key) {
        if lit_true_at(v, w) {
            Some((MemberE::Done(true), w + 4))
        } else if lit_false_at(v, w) {
            Some((MemberE::Done(false), w + 5))
        } else {
            None
        }
    } else {
        match skip_value_exec(v, w, v.len()) {
            Some(e) => Some((MemberE::Other, e)),
            None => None,
        }
    }
}

spec fn opt_chars(o: Option<Vec<char>>) -> Option<Seq<char>> {
    match o {
        Some(t) => Some(t@),
        None => None,
    }
}

#[verifier::rlimit(100)]
#[verifier::spinoff_prover]
fn parse_task_exec(v: &Vec<char>, i: usize) -> (r: Option<(TODO, usize)>)
    requires
        i <= v.len(),
    ensures
        match r {
            Some((t, j)) => parse_task(v@, i as int) == Some((t@, j as int)) && i < j <= v.len(),
            None => parse_task(v@, i as int) is None,
        },
{
    proof {
        reveal(parse_task);
    }
    let i1 = match expect_char_exec(v, i, '{') {
        Some(x) => x,
        None => {
            return None;
        },
    };
    let mut id_v: Option<u32> = None;
    let mut title_v: Option<Vec<char>> = None;
    let mut descr_v: Option<Vec<char>> = None;
    let mut done_v: Option<bool> = None;
    let mut cur: usize = i1;
    loop
        invariant
            i < cur <= v.len(),
            parse_task(v@, i as int) == parse_members(
                v@,
                cur as int,
                id_v,
                opt_chars(title_v),
                opt_chars(descr_v),
                done_v,
            ),
        decreases v.len() - cur,
    {
        let (m, j) = match parse_member_exec(v, cur) {
            Some(x) => x,
            None => {
                return None;
            },
        };
        match m {
            MemberE::Id(n) => {
                if id_v.is_some() {
                    return None;
                }
                id_v = Some(n);
            },
            MemberE::Title(t) => {
                if title_v.is_some() {
                    return None;
                }
                title_v = Some(t);
            },
            MemberE::Description(t) => {
                if descr_v.is_some() {
                    return None;
                }
                descr_v = Some(t);
            },
            MemberE::Done(b) => {
                if done_v.is_some() {
                    return None;
                }
                done_v = Some(b);
            },
            MemberE::Other => {},
        }
        let k = skip_ws_exec(v, j);
        if k < v.len() && v[k] == ',' {
            cur = k + 1;
        } else if k < v.len() && v[k] == '}' {
            let n = match id_v {
                Some(x) => x,
                None => {
                    return None;
                },
            };
            let tt = match title_v {
                Some(x) => x,
                None => {
                    return None;
                },
            };
            let dd = match descr_v {
                Some(x) => x,
                None => {
                    return None;
                },
            };
            let bb = match done_v {
                Some(x) => x,
                None => {
                    return None;
                },
            };
            let t = TODO {
                id: n,
                title: chars_to_string(tt),
                description: chars_to_string(dd),
                done: bb,
            };
            return Some((t, k + 1));
        } else {
            return None;
        }
    }
}

/// Parses a whole file as a JSON array of task records, exactly as
/// [`spec_parse`] states.
pub fn parse_tasks_exec(s: &str) -> (r: Option<Vec<TODO>>)
    ensures
        match r {
            Some(list) => spec_parse(s@) == Some(views_of(list@)),
            None => spec_parse(s@) is None,
        },
{
    let v = str_chars(s);
    let i1 = match expect_char_exec(&v, 0, '[') {
        Some(x) => x,
        None => {
            return None;
        },
    };
    let j = skip_ws_exec(&v, i1);
    let mut out: Vec<TODO> = Vec::new();
    if j < v.len() && v[j] == ']' {
        let e = skip_ws_exec(&v, j + 1);
        if e == v.len() {
            proof {
                assert(views_of(out@) =~= Seq::<TaskView>::empty());
            }
            return Some(out);
        } else {
            return None;
        }
    }
    let (t, k) = match parse_task_exec(&v, j) {
        Some(x) => x,
        None => {
            return None;
        },
    };
    let ghost tv = t@;
    out.push(t);
    let mut cur: usize = k;
    proof {
        assert(views_of(out@) =~= seq![tv]);
    }
    loop
        invariant
            cur <= v.len(),
            v@ == s@,
            match parse_more(v@, cur as int) {
                Some((ts, m)) => parse_tasks(v@, 0) == Some((views_of(out@) + ts, m)),
                None => parse_tasks(v@, 0) is None,
            },
        decreases v.len() - cur,
    {
        let j2 = skip_ws_exec(&v, cur);
        if j2 < v.len() && v[j2] == ']' {
            let e = skip_ws_exec(&v, j2 + 1);
            proof {
                assert(views_of(out@) + Seq::<TaskView>::empty() =~= views_of(out@));
            }
            if e == v.len() {
                return Some(out);
            } else {
                return None;
            }
        } else if j2 < v.len() && v[j2] == ',' {
            let (t2, k2) = match parse_task_exec(&v, j2 + 1) {
                Some(x) => x,
                None => {
                    return None;
                },
            };
            let ghost out_pre = out@;
            let ghost t2v = t2@;
            out.push(t2);
            cur = k2;
            proof {
                match parse_more(v@, cur as int) {
                    Some((ts, m)) => {
                        assert(views_of(out@) + ts =~= views_of(out_pre) + (seq![t2v] + ts));
                    },
                    None => {},
                }
            }
        } else {
            return None;
        }
    }
}

// ---------------------------------------------------------------------------
// Executable rendering
// ---------------------------------------------------------------------------

fn hex_digit_exec(n: u32) -> (c: char)
    requires
        n < 16,
    ensures
        c == hex_digit(n as int),
{
    if n == 0 {
        '0'
    } else if n == 1 {
        '1'
    } else if n == 2 {
        '2'
    } else if n == 3 {
        '3'
    } else if n == 4 {
        '4'
    } else if n == 5 {
        '5'
    } else if n == 6 {
        '6'
    } else if n == 7 {
        '7'
    } else if n == 8 {
        '8'
    } else if n == 9 {
        '9'
    } else if n == 10 {
        'a'
    } else if n == 11 {
        'b'
    } else if n == 12 {
        'c'
    } else if n == 13 {
        'd'
    } else if n == 14 {
        'e'
    } else {
        'f'
    }
}

fn push_dec_digits(out: &mut Vec<char>, n: u32)
    ensures
        final(out)@ == old(out)@ + dec_digits(n as nat),
    decreases n,
{
    if n < 10 {
        out.push(hex_digit_exec(n));
        proof {
            assert(out@ =~= old(out)@ + dec_digits(n as nat));
        }
    } else {
        let ghost pre = out@;
        push_dec_digits(out, n / 10);
        out.push(hex_digit_exec(n % 10));
        proof {
            assert(out@ =~= pre + dec_digits(n as nat));
        }
    }
}

fn push_esc_char(out: &mut Vec<char>, c: char)
    ensures
        final(out)@ == old(out)@ + esc_char(c),
{
    if c == '"' {
        out.push('\\');
        out.push('"');
    } else if c == '\\' {
        out.push('\\');
        out.push('\\');
    } else if c == '\u{8}' {
        out.push('\\');
        out.push('b');
    } else if c == '\t' {
        out.push('\\');
        out.push('t');
    } else if c == '\n' {
        out.push('\\');
        out.push('n');
    } else if c == '\u{c}' {
        out.push('\\');
        out.push('f');
    } else if c == '\r' {
        out.push('\\');
        out.push('r');
    } else if (c as u32) < 0x20 {
        out.push('\\');
        out.push('u');
        out.push('0');
        out.push('0');
        out.push(hex_digit_exec((c as u32) / 16));
        out.push(hex_digit_exec((c as u32) % 16));
    } else {
        out.push(c);
    }
    proof {
        assert(out@ =~= old(out)@ + esc_char(c));
    }
}

proof fn lemma_esc_string_push(s: Seq<char>, c: char)
    ensures
        esc_string(s.push(c)) == esc_string(s) + esc_char(c),
    decreases s.len(),
{
    if s.len() == 0 {
        assert(s.push(c)[0] == c);
        assert(s.push(c).drop_first() =~= Seq::<char>::empty());
        assert(esc_string(Seq::<char>::empty()) == Seq::<char>::empty());
        assert(esc_string(s.push(c)) == esc_char(c) + esc_string(Seq::<char>::empty()));
        assert(esc_char(c) + Seq::<char>::empty() =~= esc_char(c));
        assert(esc_string(s) + esc_char(c) =~= esc_char(c));
    } else {
        assert(s.push(c).drop_first() =~= s.drop_first().push(c));
        lemma_esc_string_push(s.drop_first(), c);
        assert(s.push(c)[0] == s[0]);
        assert(esc_char(s[0]) + (esc_string(s.drop_first()) + esc_char(c)) =~= (esc_char(s[0])
            + esc_string(s.drop_first())) + esc_char(c));
    }
}

fn push_render_string(out: &mut Vec<char>, s: &str)
    ensures
        final(out)@ == old(out)@ + render_string(s@),
{
    let cs = str_chars(s);
    out.push('"');
    let n = cs.len();
    let mut k: usize = 0;
    while k < n
        invariant
            k <= n == cs.len(),
            cs@ == s@,
            out@ == old(out)@ + seq!['"'] + esc_string(cs@.take(k as int)),
        decreases n - k,
    {
        let ghost pre = cs@.take(k as int);
        push_esc_char(out, cs[k]);
        proof {
            lemma_esc_string_push(pre, cs@[k as int]);
            assert(cs@.take(k as int + 1) =~= pre.push(cs@[k as int]));
        }
        k = k + 1;
    }
    out.push('"');
    proof {
        assert(cs@.take(n as int) =~= s@);
        assert(out@ =~= old(out)@ + render_string(s@));
    }
}

fn push_one(out: &mut Vec<char>, c: char)
    ensures
        final(out)@ == old(out)@ + seq![c],
{
    out.push(c);
    proof {
        assert(out@ =~= old(out)@ + seq![c]);
    }
}

fn push_lit_id(out: &mut Vec<char>)
    ensures
        final(out)@ == old(out)@ + lit_id(),
{
    out.push('"');
    out.push('i');
    out.push('d');
    out.push('"');
    proof {
        assert(out@ =~= old(out)@ + lit_id());
    }
}

fn push_lit_title(out: &mut Vec<char>)
    ensures
        final(out)@ == old(out)@ + lit_title(),
{
    out.push('"');
    out.push('t');
    out.push('i');
    out.push('t');
    out.push('l');
    out.push('e');
    out.push('"');
    proof {
        assert(out@ =~= old(out)@ + lit_title());
    }
}

fn push_lit_description(out: &mut Vec<char>)
    ensures
        final(out)@ == old(out)@ + lit_description(),
{
    out.push('"');
    out.push('d');
    out.push('e');
    out.push('s');
    out.push('c');
    out.push('r');
    out.push('i');
    out.push('p');
    out.push('t');
    out.push('i');
    out.push('o');
    out.push('n');
    out.push('"');
    proof {
        assert(out@ =~= old(out)@ + lit_description());
    }
}

fn push_lit_done(out: &mut Vec<char>)
    ensures
        final(out)@ == old(out)@ + lit_done(),
{
    out.push('"');
    out.push('d');
    out.push('o');
    out.push('n');
    out.push('e');
    out.push('"');
    proof {
        assert(out@ =~= old(out)@ + lit_done());
    }
}

fn push_render_bool(out: &mut Vec<char>, b: bool)
    ensures
        final(out)@ == old(out)@ + render_bool(b),
{
    if b {
        out.push('t');
        out.push('r');
        out.push('u');
        out.push('e');
    } else {
        out.push('f');
        out.push('a');
        out.push('l');
        out.push('s');
        out.push('e');
    }
    proof {
        assert(out@ =~= old(out)@ + render_bool(b));
    }
}

#[verifier::rlimit(100)]
#[verifier::spinoff_prover]
fn push_render_task(out: &mut Vec<char>, t: &TODO)
    ensures
        final(out)@ == old(out)@ + render_task(t@),
{
    let ghost a0 = out@;
    push_one(out, '{');
    push_lit_id(out);
    push_one(out, ':');
    push_dec_digits(out, t.id);
    push_one(out, ',');
    push_lit_title(out);
    push_one(out, ':');
    push_render_string(out, t.title.as_str());
    push_one(out, ',');
    push_lit_description(out);
    push_one(out, ':');
    push_render_string(out, t.description.as_str());
    push_one(out, ',');
    push_lit_done(out);
    push_one(out, ':');
    push_render_bool(out, t.done);
    push_one(out, '}');
    proof {
        reveal(render_task);
        assert(out@ =~= a0 + render_task(t@));
    }
}


proof fn lemma_render_inner_push(s: Seq<TaskView>, t: TaskView)
    ensures
        render_tasks_inner(s.push(t)) == if s.len() == 0 {
            render_task(t)
        } else {
            render_tasks_inner(s) + seq![','] + render_task(t)
        },
    decreases s.len(),
{
    if s.len() == 0 {
        assert(s.push(t)[0] == t);
    } else if s.len() == 1 {
        assert(s.push(t)[0] == s[0]);
        assert(s.push(t).drop_first() =~= seq![t]);
        assert(render_tasks_inner(seq![t]) == render_task(t));
    } else {
        assert(s.push(t)[0] == s[0]);
        assert(s.push(t).drop_first() =~= s.drop_first().push(t));
        lemma_render_inner_push(s.drop_first(), t);
        assert(render_task(s[0]) + seq![','] + (render_tasks_inner(s.drop_first()) + seq![',']
            + render_task(t)) =~= (render_task(s[0]) + seq![','] + render_tasks_inner(
            s.drop_first(),
        )) + seq![','] + render_task(t));
    }
}

/// Renders the task records as the JSON array text that [`render_tasks`]
/// states.
pub fn render_tasks_exec(list: &Vec<TODO>) -> (r: String)
    ensures
        r@ == render_tasks(views_of(list@)),
{
    let mut out: Vec<char> = Vec::new();
    out.push('[');
    let n = list.len();
    let mut k: usize = 0;
    while k < n
        invariant
            k <= n == list@.len(),
            out@ == seq!['['] + render_tasks_inner(views_of(list@).take(k as int)),
        decreases n - k,
    {
        let ghost pre = views_of(list@).take(k as int);
        if k > 0 {
            out.push(',');
        }
        push_render_task(&mut out, &list[k]);
        proof {
            lemma_render_inner_push(pre, list@[k as int]@);
            assert(views_of(list@).take(k as int + 1) =~= pre.push(list@[k as int]@));
            assert(out@ =~= seq!['['] + render_tasks_inner(views_of(list@).take(k as int + 1)));
        }
        k = k + 1;
    }
    out.push(']');
    proof {
        assert(views_of(list@).take(n as int) =~= views_of(list@));
        assert(out@ =~= render_tasks(views_of(list@)));
    }
    chars_to_string(out)
}

// ---------------------------------------------------------------------------
// The round trip: parsing a rendered store gives the store back
// ---------------------------------------------------------------------------

proof fn lemma_lit_char(s: Seq<char>, i: int, lit: Seq<char>, k: int)
    requires
        match_lit(s, i, lit),
        0 <= k < lit.len(),
    ensures
        s[i + k] == lit[k],
{
    assert(s.subrange(i, i + lit.len())[k] == s[i + k]);
}

proof fn lemma_lit_split(s: Seq<char>, i: int, a: Seq<char>, b: Seq<char>)
    requires
        match_lit(s, i, a + b),
    ensures
        match_lit(s, i, a),
        match_lit(s, i + a.len(), b),
{
    assert(s.subrange(i, i + a.len()) =~= a) by {
        assert forall|k: int| 0 <= k < a.len() implies #[trigger] s.subrange(i, i + a.len())[k]
            == a[k] by {
            assert(s.subrange(i, i + a.len())[k] == s[i + k]);
            assert(s.subrange(i, i + (a + b).len())[k] == s[i + k]);
        }
    }
    assert(s.subrange(i + a.len(), i + a.len() + b.len()) =~= b) by {
        assert forall|k: int| 0 <= k < b.len() implies #[trigger] s.subrange(
            i + a.len(),
            i + a.len() + b.len(),
        )[k] == b[k] by {
            assert(s.subrange(i + a.len(), i + a.len() + b.len())[k] == s[i + a.len() + k]);
            assert(s.subrange(i, i + (a + b).len())[a.len() + k] == s[i + a.len() + k]);
        }
    }
}

proof fn lemma_skip_ws_none(s: Seq<char>, i: int)
    requires
        0 <= i <= s.len(),
        i == s.len() || !is_ws(s[i]),
    ensures
        skip_ws(s, i) == i,
{
}

proof fn lemma_hex_val_digit(n: int)
    requires
        0 <= n < 16,
    ensures
        hex_val(hex_digit(n)) == n,
        !is_ws(hex_digit(n)),
        hex_digit(n) != '"',
{
}

proof fn lemma_esc_plain(s: Seq<char>)
    requires
        forall|k: int| 0 <= k < s.len() ==> s[k] != '"' && s[k] != '\\' && (s[k] as u32) >= 0x20,
    ensures
        esc_string(s) == s,
    decreases s.len(),
{
    if s.len() > 0 {
        lemma_esc_plain(s.drop_first());
        assert(esc_char(s[0]) == seq![s[0]]);
        assert(seq![s[0]] + s.drop_first() =~= s);
    }
}

/// Parsing the escaped body of a rendered string, up to and including the
/// closing quote, recovers exactly the original text.
proof fn lemma_parse_string_of_render(s: Seq<char>, text: Seq<char>, i: int)
    requires
        match_lit(s, i, esc_string(text) + seq!['"']),
    ensures
        parse_string_body(s, i) == Some((text, i + esc_string(text).len() + 1)),
    decreases text.len(),
{
    if text.len() == 0 {
        lemma_lit_char(s, i, esc_string(text) + seq!['"'], 0);
        assert(s[i] == '"');
        assert(parse_string_body(s, i) == Some((Seq::<char>::empty(), i + 1)));
        assert(text =~= Seq::<char>::empty());
    } else {
        let c = text[0];
        let e = esc_char(c);
        let rest = text.drop_first();
        assert(esc_string(text) == e + esc_string(rest));
        assert(esc_string(text) + seq!['"'] =~= e + (esc_string(rest) + seq!['"']));
        lemma_lit_split(s, i, e, esc_string(rest) + seq!['"']);
        let i2 = i + e.len();
        lemma_parse_string_of_render(s, rest, i2);
        if c == '"' || c == '\\' {
            lemma_lit_char(s, i, e, 0);
            lemma_lit_char(s, i, e, 1);
            assert(s[i] == '\\');
            assert(parse_string_body(s, i) == Some((seq![unesc(s[i + 1])] + rest, i2
                + esc_string(rest).len() + 1)));
            assert(seq![c] + rest =~= text);
        } else if c == '\u{8}' || c == '\t' || c == '\n' || c == '\u{c}' || c == '\r' {
            lemma_lit_char(s, i, e, 0);
            lemma_lit_char(s, i, e, 1);
            assert(s[i] == '\\');
            assert(unesc(s[i + 1]) == c);
            assert(parse_string_body(s, i) == Some((seq![unesc(s[i + 1])] + rest, i2
                + esc_string(rest).len() + 1)));
            assert(seq![c] + rest =~= text);
        } else if (c as u32) < 0x20 {
            let u = c as u32;
            let hi = (u as int) / 16;
            let lo = (u as int) % 16;
            lemma_lit_char(s, i, e, 0);
            lemma_lit_char(s, i, e, 1);
            lemma_lit_char(s, i, e, 2);
            lemma_lit_char(s, i, e, 3);
            lemma_lit_char(s, i, e, 4);
            lemma_lit_char(s, i, e, 5);
            assert(s[i] == '\\' && s[i + 1] == 'u' && s[i + 2] == '0' && s[i + 3] == '0');
            assert(s[i + 4] == hex_digit(hi) && s[i + 5] == hex_digit(lo));
            lemma_hex_val_digit(0);
            lemma_hex_val_digit(hi);
            lemma_hex_val_digit(lo);
            assert(hex_val(s[i + 2]) == 0 && hex_val(s[i + 3]) == 0);
            let v = hex_val(s[i + 2]) * 4096 + hex_val(s[i + 3]) * 256 + hex_val(s[i + 4]) * 16
                + hex_val(s[i + 5]);
            assert(v == u as int);
            vstd::utf8::char_u32_cast(c, u);
            assert((v as u32) as char == c);
            assert(parse_string_body(s, i) == Some((seq![(v as u32) as char] + rest, i2
                + esc_string(rest).len() + 1)));
            assert(seq![c] + rest =~= text);
        } else {
            lemma_lit_char(s, i, e, 0);
            assert(s[i] == c);
            assert(parse_string_body(s, i) == Some((seq![s[i]] + rest, i2 + esc_string(
                rest,
            ).len() + 1)));
            assert(seq![c] + rest =~= text);
        }
    }
}

proof fn lemma_dec_digits_digits(n: nat)
    ensures
        dec_digits(n).len() >= 1,
        forall|k: int| 0 <= k < dec_digits(n).len() ==> is_digit(#[trigger] dec_digits(n)[k]),
        forall|k: int| 0 <= k < dec_digits(n).len() ==> !is_ws(#[trigger] dec_digits(n)[k]),
        n >= 1 ==> dec_digits(n)[0] != '0',
    decreases n,
{
    if n < 10 {
        lemma_hex_val_digit(n as int);
    } else {
        lemma_dec_digits_digits(n / 10);
        lemma_hex_val_digit((n % 10) as int);
        assert forall|k: int| 0 <= k < dec_digits(n).len() implies is_digit(
            #[trigger] dec_digits(n)[k],
        ) && !is_ws(dec_digits(n)[k]) by {
            if k < dec_digits(n / 10).len() {
                assert(dec_digits(n)[k] == dec_digits(n / 10)[k]);
            } else {
                assert(dec_digits(n)[k] == hex_digit((n % 10) as int));
            }
        }
        assert(dec_digits(n)[0] == dec_digits(n / 10)[0]);
    }
}

proof fn lemma_run_end_of(s: Seq<char>, i: int, j: int)
    requires
        0 <= i <= j <= s.len(),
        forall|k: int| i <= k < j ==> is_digit(s[k]),
        j == s.len() || !is_digit(s[j]),
    ensures
        digit_run_end(s, i) == j,
    decreases j - i,
{
    if i < j {
        lemma_run_end_of(s, i + 1, j);
    }
}

proof fn lemma_run_val_of_digits(s: Seq<char>, n: nat, i: int)
    requires
        match_lit(s, i, dec_digits(n)),
    ensures
        run_val(s, i, i + dec_digits(n).len()) == n,
    decreases n,
{
    let l = dec_digits(n).len() as int;
    if n < 10 {
        lemma_lit_char(s, i, dec_digits(n), 0);
        assert(s[i] == hex_digit(n as int));
        assert(run_val(s, i, i + 1) == run_val(s, i, i) * 10 + (s[i] as int - 48));
    } else {
        assert(dec_digits(n) == dec_digits(n / 10) + seq![hex_digit((n % 10) as int)]);
        lemma_lit_split(s, i, dec_digits(n / 10), seq![hex_digit((n % 10) as int)]);
        lemma_run_val_of_digits(s, n / 10, i);
        lemma_lit_char(s, i + dec_digits(n / 10).len(), seq![hex_digit((n % 10) as int)], 0);
        assert(s[i + l - 1] == hex_digit((n % 10) as int));
        assert(run_val(s, i, i + l) == run_val(s, i, i + l - 1) * 10 + (s[i + l - 1] as int - 48));
    }
}

/// Parsing the rendered decimal digits of `n`, with no digit following,
/// recovers exactly `n`.
proof fn lemma_parse_u32_of_render(s: Seq<char>, n: u32, i: int)
    requires
        match_lit(s, i, dec_digits(n as nat)),
        i + dec_digits(n as nat).len() == s.len() || !is_digit(s[i + dec_digits(n as nat).len()]),
    ensures
        parse_u32(s, i) == Some((n, i + dec_digits(n as nat).len())),
{
    let l = dec_digits(n as nat).len() as int;
    lemma_dec_digits_digits(n as nat);
    assert forall|k: int| i <= k < i + l implies is_digit(s[k]) by {
        lemma_lit_char(s, i, dec_digits(n as nat), k - i);
    }
    lemma_run_end_of(s, i, i + l);
    lemma_run_val_of_digits(s, n as nat, i);
    lemma_lit_char(s, i, dec_digits(n as nat), 0);
    if n == 0 {
        assert(l == 1);
    } else {
        assert(s[i] != '0');
    }
}

proof fn lemma_parse_bool_of_render(s: Seq<char>, b: bool, i: int)
    requires
        match_lit(s, i, render_bool(b)),
    ensures
        b ==> match_lit(s, i, seq!['t', 'r', 'u', 'e']),
        !b ==> !match_lit(s, i, seq!['t', 'r', 'u', 'e']) && match_lit(
            s,
            i,
            seq!['f', 'a', 'l', 's', 'e'],
        ),
{
    lemma_lit_char(s, i, render_bool(b), 0);
    if !b {
        if match_lit(s, i, seq!['t', 'r', 'u', 'e']) {
            lemma_lit_char(s, i, seq!['t', 'r', 'u', 'e'], 0);
        }
    }
}

#[verifier::rlimit(100)]
#[verifier::spinoff_prover]
proof fn lemma_member_id_of_render(s: Seq<char>, n: u32, a: int)
    requires
        match_lit(s, a, lit_id()),
        match_lit(s, a + 4, seq![':']),
        match_lit(s, a + 5, dec_digits(n as nat)),
        a + 5 + dec_digits(n as nat).len() < s.len(),
        !is_digit(s[a + 5 + dec_digits(n as nat).len()]),
    ensures
        parse_member(s, a) == Some((Member::Id(n), a + 5 + dec_digits(n as nat).len())),
{
    reveal(parse_member);
    lemma_esc_plain(seq!['i', 'd']);
    assert(lit_id() =~= seq!['"'] + (esc_string(seq!['i', 'd']) + seq!['"']));
    lemma_lit_split(s, a, seq!['"'], esc_string(seq!['i', 'd']) + seq!['"']);
    lemma_lit_char(s, a, seq!['"'], 0);
    lemma_skip_ws_none(s, a);
    lemma_parse_string_of_render(s, seq!['i', 'd'], a + 1);
    lemma_lit_char(s, a + 4, seq![':'], 0);
    lemma_skip_ws_none(s, a + 4);
    lemma_dec_digits_digits(n as nat);
    lemma_lit_char(s, a + 5, dec_digits(n as nat), 0);
    lemma_skip_ws_none(s, a + 5);
    lemma_parse_u32_of_render(s, n, a + 5);
}

#[verifier::rlimit(100)]
#[verifier::spinoff_prover]
proof fn lemma_member_title_of_render(s: Seq<char>, text: Seq<char>, a: int)
    requires
        match_lit(s, a, lit_title()),
        match_lit(s, a + 7, seq![':']),
        match_lit(s, a + 8, render_string(text)),
    ensures
        parse_member(s, a) == Some((Member::Title(text), a + 8 + render_string(text).len())),
{
    reveal(parse_member);
    lemma_esc_plain(seq!['t', 'i', 't', 'l', 'e']);
    assert(lit_title() =~= seq!['"'] + (esc_string(seq!['t', 'i', 't', 'l', 'e']) + seq!['"']));
    lemma_lit_split(s, a, seq!['"'], esc_string(seq!['t', 'i', 't', 'l', 'e']) + seq!['"']);
    lemma_lit_char(s, a, seq!['"'], 0);
    lemma_skip_ws_none(s, a);
    lemma_parse_string_of_render(s, seq!['t', 'i', 't', 'l', 'e'], a + 1);
    lemma_lit_char(s, a + 7, seq![':'], 0);
    lemma_skip_ws_none(s, a + 7);
    let w = a + 8;
    assert(render_string(text) =~= seq!['"'] + (esc_string(text) + seq!['"']));
    lemma_lit_split(s, w, seq!['"'], esc_string(text) + seq!['"']);
    lemma_lit_char(s, w, seq!['"'], 0);
    lemma_skip_ws_none(s, w);
    lemma_parse_string_of_render(s, text, w + 1);
    assert(seq!['t', 'i', 't', 'l', 'e'] != seq!['i', 'd']);
}

#[verifier::rlimit(100)]
#[verifier::spinoff_prover]
proof fn lemma_member_description_of_render(s: Seq<char>, text: Seq<char>, a: int)
    requires
        match_lit(s, a, lit_description()),
        match_lit(s, a + 13, seq![':']),
        match_lit(s, a + 14, render_string(text)),
    ensures
        parse_member(s, a) == Some(
            (Member::Description(text), a + 14 + render_string(text).len()),
        ),
{
    reveal(parse_member);
    lemma_esc_plain(seq!['d', 'e', 's', 'c', 'r', 'i', 'p', 't', 'i', 'o', 'n']);
    assert(lit_description() =~= seq!['"'] + (esc_string(
        seq!['d', 'e', 's', 'c', 'r', 'i', 'p', 't', 'i', 'o', 'n'],
    ) + seq!['"']));
    lemma_lit_split(s, a, seq!['"'], esc_string(
        seq!['d', 'e', 's', 'c', 'r', 'i', 'p', 't', 'i', 'o', 'n'],
    ) + seq!['"']);
    lemma_lit_char(s, a, seq!['"'], 0);
    lemma_skip_ws_none(s, a);
    lemma_parse_string_of_render(
        s,
        seq!['d', 'e', 's', 'c', 'r', 'i', 'p', 't', 'i', 'o', 'n'],
        a + 1,
    );
    lemma_lit_char(s, a + 13, seq![':'], 0);
    lemma_skip_ws_none(s, a + 13);
    let w = a + 14;
    assert(render_string(text) =~= seq!['"'] + (esc_string(text) + seq!['"']));
    lemma_lit_split(s, w, seq!['"'], esc_string(text) + seq!['"']);
    lemma_lit_char(s, w, seq!['"'], 0);
    lemma_skip_ws_none(s, w);
    lemma_parse_string_of_render(s, text, w + 1);
    assert(seq!['d', 'e', 's', 'c', 'r', 'i', 'p', 't', 'i', 'o', 'n'] != seq!['i', 'd']);
    assert(seq!['d', 'e', 's', 'c', 'r', 'i', 'p', 't', 'i', 'o', 'n'] != seq![
        't',
        'i',
        't',
        'l',
        'e',
    ]);
}

#[verifier::rlimit(100)]
#[verifier::spinoff_prover]
proof fn lemma_member_done_of_render(s: Seq<char>, b: bool, a: int)
    requires
        match_lit(s, a, lit_done()),
        match_lit(s, a + 6, seq![':']),
        match_lit(s, a + 7, render_bool(b)),
    ensures
        parse_member(s, a) == Some((Member::Done(b), a + 7 + render_bool(b).len())),
{
    reveal(parse_member);
    lemma_esc_plain(seq!['d', 'o', 'n', 'e']);
    assert(lit_done() =~= seq!['"'] + (esc_string(seq!['d', 'o', 'n', 'e']) + seq!['"']));
    lemma_lit_split(s, a, seq!['"'], esc_string(seq!['d', 'o', 'n', 'e']) + seq!['"']);
    lemma_lit_char(s, a, seq!['"'], 0);
    lemma_skip_ws_none(s, a);
    lemma_parse_string_of_render(s, seq!['d', 'o', 'n', 'e'], a + 1);
    lemma_lit_char(s, a + 6, seq![':'], 0);
    lemma_skip_ws_none(s, a + 6);
    lemma_lit_char(s, a + 7, render_bool(b), 0);
    lemma_skip_ws_none(s, a + 7);
    lemma_parse_bool_of_render(s, b, a + 7);
    assert(seq!['d', 'o', 'n', 'e'] != seq!['i', 'd']);
    assert(seq!['d', 'o', 'n', 'e'] != seq!['t', 'i', 't', 'l', 'e']);
    assert(seq!['d', 'o', 'n', 'e'] != seq!['d', 'e', 's', 'c', 'r', 'i', 'p', 't', 'i', 'o', 'n']);
}

/// Parsing a rendered task record recovers exactly the record.
#[verifier::rlimit(100)]
#[verifier::spinoff_prover]
proof fn lemma_parse_task_of_render(s: Seq<char>, t: TaskView, i: int)
    requires
        match_lit(s, i, render_task(t)),
    ensures
        parse_task(s, i) == Some((t, i + render_task(t).len())),
{
    reveal(render_task);
    reveal(parse_task);
    let p1 = seq!['{'];
    let p2 = lit_id();
    let p3 = seq![':'];
    let p4 = dec_digits(t.id as nat);
    let p5 = seq![','];
    let p6 = lit_title();
    let p7 = seq![':'];
    let p8 = render_string(t.title);
    let p9 = seq![','];
    let p10 = lit_description();
    let p11 = seq![':'];
    let p12 = render_string(t.description);
    let p13 = seq![','];
    let p14 = lit_done();
    let p15 = seq![':'];
    let p16 = render_bool(t.done);
    let p17 = seq!['}'];
    let q16 = p16 + p17;
    let q15 = p15 + q16;
    let q14 = p14 + q15;
    let q13 = p13 + q14;
    let q12 = p12 + q13;
    let q11 = p11 + q12;
    let q10 = p10 + q11;
    let q9 = p9 + q10;
    let q8 = p8 + q9;
    let q7 = p7 + q8;
    let q6 = p6 + q7;
    let q5 = p5 + q6;
    let q4 = p4 + q5;
    let q3 = p3 + q4;
    let q2 = p2 + q3;
    assert(render_task(t) =~= p1 + q2);
    lemma_lit_split(s, i, p1, q2);
    let i1 = i + 1;
    lemma_lit_split(s, i1, p2, q3);
    let i2 = i1 + 4;
    lemma_lit_split(s, i2, p3, q4);
    let i3 = i2 + 1;
    lemma_lit_split(s, i3, p4, q5);
    let i4 = i3 + p4.len() as int;
    lemma_lit_split(s, i4, p5, q6);
    let i5 = i4 + 1;
    lemma_lit_split(s, i5, p6, q7);
    let i6 = i5 + 7;
    lemma_lit_split(s, i6, p7, q8);
    let i7 = i6 + 1;
    lemma_lit_split(s, i7, p8, q9);
    let i8 = i7 + p8.len() as int;
    lemma_lit_split(s, i8, p9, q10);
    let i9 = i8 + 1;
    lemma_lit_split(s, i9, p10, q11);
    let i10 = i9 + 13;
    lemma_lit_split(s, i10, p11, q12);
    let i11 = i10 + 1;
    lemma_lit_split(s, i11, p12, q13);
    let i12 = i11 + p12.len() as int;
    lemma_lit_split(s, i12, p13, q14);
    let i13 = i12 + 1;
    lemma_lit_split(s, i13, p14, q15);
    let i14 = i13 + 6;
    lemma_lit_split(s, i14, p15, q16);
    let i15 = i14 + 1;
    lemma_lit_split(s, i15, p16, p17);
    let i16 = i15 + p16.len() as int;
    // the opening brace
    lemma_lit_char(s, i, p1, 0);
    lemma_skip_ws_none(s, i);
    assert(expect_char(s, i, '{') == Some(i1));
    // the four members, with a comma after each of the first three
    lemma_lit_char(s, i4, p5, 0);
    lemma_member_id_of_render(s, t.id, i1);
    assert(parse_member(s, i1) == Some((Member::Id(t.id), i4)));
    lemma_member_title_of_render(s, t.title, i5);
    assert(parse_member(s, i5) == Some((Member::Title(t.title), i8)));
    lemma_member_description_of_render(s, t.description, i9);
    assert(parse_member(s, i9) == Some((Member::Description(t.description), i12)));
    lemma_member_done_of_render(s, t.done, i13);
    assert(parse_member(s, i13) == Some((Member::Done(t.done), i16)));
    // the separators and the closing brace
    lemma_skip_ws_none(s, i4);
    lemma_lit_char(s, i8, p9, 0);
    lemma_skip_ws_none(s, i8);
    lemma_lit_char(s, i12, p13, 0);
    lemma_skip_ws_none(s, i12);
    lemma_lit_char(s, i16, p17, 0);
    lemma_skip_ws_none(s, i16);
    // the member walk
    assert(parse_members(s, i13, Some(t.id), Some(t.title), Some(t.description), None) == Some(
        (TaskView { id: t.id, title: t.title, description: t.description, done: t.done }, i16 + 1),
    ));
    assert(parse_members(s, i9, Some(t.id), Some(t.title), None, None) == Some(
        (TaskView { id: t.id, title: t.title, description: t.description, done: t.done }, i16 + 1),
    ));
    assert(parse_members(s, i5, Some(t.id), None, None, None) == Some(
        (TaskView { id: t.id, title: t.title, description: t.description, done: t.done }, i16 + 1),
    ));
    assert(parse_members(s, i1, None, None, None, None) == Some(
        (TaskView { id: t.id, title: t.title, description: t.description, done: t.done }, i16 + 1),
    ));
    assert(parse_task(s, i) == Some(
        (TaskView { id: t.id, title: t.title, description: t.description, done: t.done }, i16 + 1),
    ));
    assert(i16 + 1 == i + render_task(t).len());
}

/// The rendered text that follows a completed record in the array: either
/// the closing bracket alone, or a comma, the next record, and what follows
/// that one.
pub open spec fn render_tail(ts: Seq<TaskView>) -> Seq<char>
    decreases ts.len(),
{
    if ts.len() == 0 {
        seq![']']
    } else {
        seq![','] + render_task(ts[0]) + render_tail(ts.drop_first())
    }
}

proof fn lemma_inner_tail(ts: Seq<TaskView>)
    ensures
        render_tasks_inner(ts) + seq![']'] == if ts.len() == 0 {
            seq![']']
        } else {
            render_task(ts[0]) + render_tail(ts.drop_first())
        },
    decreases ts.len(),
{
    if ts.len() == 0 {
        assert(render_tasks_inner(ts) + seq![']'] =~= seq![']']);
    } else if ts.len() == 1 {
        assert(render_tail(ts.drop_first()) == seq![']']);
        assert(render_tasks_inner(ts) + seq![']'] =~= render_task(ts[0]) + seq![']']);
    } else {
        lemma_inner_tail(ts.drop_first());
        assert(render_tasks_inner(ts) + seq![']'] =~= render_task(ts[0]) + (seq![','] + (
        render_tasks_inner(ts.drop_first()) + seq![']'])));
        assert(seq![','] + (render_tasks_inner(ts.drop_first()) + seq![']']) =~= render_tail(
            ts.drop_first(),
        ));
    }
}

proof fn lemma_parse_more_of_tail(s: Seq<char>, ts: Seq<TaskView>, i: int)
    requires
        match_lit(s, i, render_tail(ts)),
    ensures
        parse_more(s, i) == Some((ts, i + render_tail(ts).len())),
    decreases ts.len(),
{
    if ts.len() == 0 {
        lemma_lit_char(s, i, render_tail(ts), 0);
        lemma_skip_ws_none(s, i);
        assert(parse_more(s, i) == Some((Seq::<TaskView>::empty(), i + 1)));
        assert(ts =~= Seq::<TaskView>::empty());
    } else {
        let rest = ts.drop_first();
        assert(render_tail(ts) =~= seq![','] + (render_task(ts[0]) + render_tail(rest)));
        lemma_lit_split(s, i, seq![','], render_task(ts[0]) + render_tail(rest));
        lemma_lit_split(s, i + 1, render_task(ts[0]), render_tail(rest));
        lemma_lit_char(s, i, seq![','], 0);
        lemma_skip_ws_none(s, i);
        lemma_parse_task_of_render(s, ts[0], i + 1);
        let k = i + 1 + render_task(ts[0]).len() as int;
        lemma_parse_more_of_tail(s, rest, k);
        assert(seq![ts[0]] + rest =~= ts);
        assert(parse_more(s, i) == Some((ts, k + render_tail(rest).len() as int)));
    }
}

/// The round trip: parsing the exact text that saving produces yields back
/// the saved task sequence, whatever tasks it holds.
pub proof fn lemma_render_parse_round_trip(ts: Seq<TaskView>)
    ensures
        spec_parse(render_tasks(ts)) == Some(ts),
{
    let s = render_tasks(ts);
    lemma_inner_tail(ts);
    assert(match_lit(s, 0, s)) by {
        assert(s.subrange(0, s.len() as int) =~= s);
    }
    if ts.len() == 0 {
        assert(s =~= seq!['['] + seq![']']);
        lemma_lit_split(s, 0, seq!['['], seq![']']);
        lemma_lit_char(s, 0, seq!['['], 0);
        lemma_lit_char(s, 1, seq![']'], 0);
        lemma_skip_ws_none(s, 0);
        lemma_skip_ws_none(s, 1);
        assert(parse_tasks(s, 0) == Some((Seq::<TaskView>::empty(), 2int)));
        lemma_skip_ws_none(s, 2);
        assert(ts =~= Seq::<TaskView>::empty());
    } else {
        let rest = ts.drop_first();
        assert(s =~= seq!['['] + (render_task(ts[0]) + render_tail(rest)));
        lemma_lit_split(s, 0, seq!['['], render_task(ts[0]) + render_tail(rest));
        lemma_lit_split(s, 1, render_task(ts[0]), render_tail(rest));
        lemma_lit_char(s, 0, seq!['['], 0);
        lemma_skip_ws_none(s, 0);
        reveal(render_task);
        assert(render_task(ts[0])[0] == '{');
        lemma_lit_char(s, 1, render_task(ts[0]), 0);
        lemma_skip_ws_none(s, 1);
        lemma_parse_task_of_render(s, ts[0], 1);
        let k = 1 + render_task(ts[0]).len() as int;
        lemma_parse_more_of_tail(s, rest, k);
        assert(seq![ts[0]] + rest =~= ts);
        assert(parse_tasks(s, 0) == Some((ts, s.len() as int)));
        lemma_skip_ws_none(s, s.len() as int);
    }
}

} // verus!
