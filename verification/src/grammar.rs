//! The meaning of Adnot text: what the parser gives for each input, stated as
//! functions on the sequence of characters, a position in it and a column count.
//!
//! Each function takes the input `s`, the index `pos` of the next unread character
//! and the column `col` of the reader, and tells how parsing goes on from there:
//! the value read with the new position and column, or an error message with the
//! column at which it is reported, or `Abort` where the input lies outside what the
//! parser handles.
//!
//! The column counts each character read and each attempt to read past the end;
//! a line break sets it back to 0. The row is never advanced.
//!
//! The lists, sums and maps check that each step moved forward within the input
//! before going on, which makes the recursion visibly well founded. These checks
//! always pass: skipping never goes back and a value read always takes at least one
//! character (`lemma_skip_ws_bounds` and `lemma_value_done` in `laws`), so `Abort`
//! comes only from numbers.

use vstd::prelude::*;
use crate::chars::{
    char_debug_text, alphabetic, alphanumeric, white_space,
    decimal_text, digit_value,
};
use crate::value::{has_key, insert_entry, value_text, ValueModel};

verus! {

/// How parsing goes on from a position.
pub enum Step<A> {
    /// `value` was read; the next unread character is at `pos` and the column is `col`.
    Done { value: A, pos: int, col: int },
    /// Parsing fails with `message`, reported at column `col`.
    Fail { message: Seq<char>, col: int },
    /// The input lies outside what the parser handles: a decimal point after a
    /// decimal number (a floating-point literal), or an integer that does not fit in
    /// an `i64`.
    Abort,
}

/// The column after reading `c` at column `col`.
pub open spec fn next_col(c: char, col: int) -> int {
    if c == '\n' {
        0
    } else {
        col + 1
    }
}

/// The character at `pos`, if there is one.
pub open spec fn peek(s: Seq<char>, pos: int) -> Option<char> {
    if 0 <= pos < s.len() {
        Some(s[pos])
    } else {
        None
    }
}

/// Reading one character: the character (none at the end of the input), the new
/// position and the new column. Reading at the end leaves the position and still
/// advances the column.
pub open spec fn read(s: Seq<char>, pos: int, col: int) -> (Option<char>, int, int) {
    if 0 <= pos < s.len() {
        (Some(s[pos]), pos + 1, next_col(s[pos], col))
    } else {
        (None, pos, col + 1)
    }
}

/// The characters that end a bare word or a number besides white space.
pub open spec fn special(c: char) -> bool {
    c == '[' || c == ']' || c == '(' || c == ')' || c == '{' || c == '}' || c == '#'
}

/// The base that the letter after a leading `0` selects, if it selects one.
pub open spec fn radix_of(c: char) -> Option<nat> {
    if c == 'X' || c == 'x' {
        Some(16)
    } else if c == 'Z' || c == 'z' {
        Some(12)
    } else if c == 'D' || c == 'd' {
        Some(10)
    } else if c == 'O' || c == 'o' {
        Some(8)
    } else if c == 'B' || c == 'b' {
        Some(2)
    } else {
        None
    }
}

/// The character that a backslash followed by `c` stands for, if that is an escape.
pub open spec fn escaped(c: char) -> Option<char> {
    if c == 'n' {
        Some('\n')
    } else if c == 't' {
        Some('\t')
    } else if c == 'r' {
        Some('\r')
    } else if c == 'f' {
        Some('\x0c')
    } else if c == '\\' {
        Some('\\')
    } else if c == '"' {
        Some('"')
    } else {
        None
    }
}

pub open spec fn msg_unexpected_character(c: Option<char>) -> Seq<char> {
    "Unexpected character "@ + match c {
        Some(x) => "Some("@ + char_debug_text(x) + ")"@,
        None => "None"@,
    }
}

pub open spec fn msg_trailing(c: char) -> Seq<char> {
    "Unexpected "@ + seq![c] + ", expected end of input"@
}

pub open spec fn msg_base_float(base: nat) -> Seq<char> {
    "Base-"@ + decimal_text(base) + " floats are not supported"@
}

pub open spec fn msg_number_char(c: char) -> Seq<char> {
    "Invalid character in number: "@ + seq![c]
}

pub open spec fn msg_string_char(c: char) -> Seq<char> {
    "Invalid character in string: "@ + seq![c]
}

pub open spec fn msg_invalid_escape(c: char) -> Seq<char> {
    "Invalid escape: \\"@ + seq![c]
}

pub open spec fn msg_eof_in_string() -> Seq<char> {
    "Unexpected end-of-file when parsing string literal"@
}

pub open spec fn msg_tag_char(c: char) -> Seq<char> {
    "Unexpected tag character: "@ + seq![c]
}

pub open spec fn msg_eof_in_tag() -> Seq<char> {
    "Unexpected end of input while parsing tag"@
}

pub open spec fn msg_key_not_string(v: ValueModel) -> Seq<char> {
    "Expected a string key, found "@ + value_text(v)
}

pub open spec fn msg_repeated_key(k: Seq<char>) -> Seq<char> {
    "Repeated key in map: "@ + k
}

/// Skipping white space and comments. A comment runs from `#` through the next line
/// break; `in_comment` says that one is open. Reaching the end inside a comment
/// reads past the end once.
pub open spec fn skip_ws(s: Seq<char>, pos: int, col: int, in_comment: bool) -> (int, int)
    decreases s.len() - pos,
{
    if pos < 0 || pos >= s.len() {
        if in_comment {
            (pos, col + 1)
        } else {
            (pos, col)
        }
    } else if in_comment {
        if s[pos] == '\n' {
            skip_ws(s, pos + 1, 0, false)
        } else {
            skip_ws(s, pos + 1, col + 1, true)
        }
    } else if white_space(s[pos]) {
        skip_ws(s, pos + 1, next_col(s[pos], col), false)
    } else if s[pos] == '#' {
        skip_ws(s, pos + 1, col + 1, true)
    } else {
        (pos, col)
    }
}

/// Skipping one comment, from its `#` through the line break that ends it, or
/// through the end of the input (which is then read past once).
pub open spec fn skip_comment(s: Seq<char>, pos: int, col: int) -> (int, int)
    decreases s.len() - pos,
{
    if pos < 0 || pos >= s.len() {
        (pos, col + 1)
    } else if s[pos] == '\n' {
        (pos + 1, 0)
    } else {
        skip_comment(s, pos + 1, col + 1)
    }
}

/// The escape after a backslash in a string literal.
pub open spec fn escape(s: Seq<char>, pos: int, col: int) -> Step<char> {
    if 0 <= pos < s.len() {
        let c = s[pos];
        let c1 = next_col(c, col);
        match escaped(c) {
            Some(e) => Step::Done { value: e, pos: pos + 1, col: c1 },
            None => Step::Fail { message: msg_invalid_escape(c), col: c1 },
        }
    } else {
        Step::Fail { message: msg_eof_in_string(), col: col + 1 }
    }
}

/// The rest of a string literal after its opening quote, with `buf` read so far. The
/// literal ends at the closing quote, or at the end of the input.
pub open spec fn string_literal(s: Seq<char>, pos: int, col: int, buf: Seq<char>) -> Step<Seq<char>>
    decreases s.len() - pos,
{
    if pos < 0 || pos >= s.len() {
        Step::Done { value: buf, pos, col: col + 1 }
    } else {
        let c = s[pos];
        let c1 = next_col(c, col);
        if c == '"' {
            Step::Done { value: buf, pos: pos + 1, col: c1 }
        } else if c == '\\' {
            match escape(s, pos + 1, c1) {
                Step::Done { value: e, pos: p2, col: c2 } => string_literal(s, p2, c2, buf.push(e)),
                Step::Fail { message, col } => Step::Fail { message, col },
                Step::Abort => Step::Abort,
            }
        } else {
            string_literal(s, pos + 1, c1, buf.push(c))
        }
    }
}

/// The rest of a bare word, with `buf` read so far.
pub open spec fn bare_word(s: Seq<char>, pos: int, col: int, buf: Seq<char>) -> Step<Seq<char>>
    decreases s.len() - pos,
{
    if pos < 0 || pos >= s.len() {
        Step::Done { value: buf, pos, col }
    } else {
        let c = s[pos];
        if alphanumeric(c) || c == '_' {
            bare_word(s, pos + 1, next_col(c, col), buf.push(c))
        } else if white_space(c) || special(c) {
            Step::Done { value: buf, pos, col }
        } else {
            Step::Fail { message: msg_string_char(c), col }
        }
    }
}

/// The rest of a number in base `base`, with the value `num` read so far.
pub open spec fn number(s: Seq<char>, pos: int, col: int, num: int, base: nat) -> Step<i64>
    decreases s.len() - pos,
{
    if pos < 0 || pos >= s.len() {
        Step::Done { value: num as i64, pos, col }
    } else {
        let c = s[pos];
        if digit_value(c) < base {
            let next = num * base + digit_value(c);
            if next > i64::MAX {
                Step::Abort
            } else {
                number(s, pos + 1, next_col(c, col), next, base)
            }
        } else if white_space(c) || special(c) {
            Step::Done { value: num as i64, pos, col }
        } else if c == '.' {
            if base == 10 {
                Step::Abort
            } else {
                Step::Fail { message: msg_base_float(base), col }
            }
        } else if c == '_' {
            number(s, pos + 1, next_col(c, col), num, base)
        } else {
            Step::Fail { message: msg_number_char(c), col }
        }
    }
}

/// A string step as a string value.
pub open spec fn as_string(st: Step<Seq<char>>) -> Step<ValueModel> {
    match st {
        Step::Done { value, pos, col } => Step::Done { value: ValueModel::String(value), pos, col },
        Step::Fail { message, col } => Step::Fail { message, col },
        Step::Abort => Step::Abort,
    }
}

/// A number step as an integer value.
pub open spec fn as_int(st: Step<i64>) -> Step<ValueModel> {
    match st {
        Step::Done { value, pos, col } => Step::Done { value: ValueModel::Int(value), pos, col },
        Step::Fail { message, col } => Step::Fail { message, col },
        Step::Abort => Step::Abort,
    }
}

/// A value, with white space before it already skipped.
pub open spec fn value(s: Seq<char>, pos: int, col: int) -> Step<ValueModel>
    decreases s.len() - pos, 0int,
{
    if pos < 0 || pos > s.len() {
        Step::Abort
    } else if pos == s.len() {
        Step::Fail { message: msg_unexpected_character(None), col: col + 1 }
    } else {
        let c = s[pos];
        let p1 = pos + 1;
        let c1 = next_col(c, col);
        if c == '[' {
            list(s, p1, c1, Seq::empty())
        } else if c == '(' {
            tag(s, p1, c1)
        } else if c == '{' {
            map_entries(s, p1, c1, Seq::empty())
        } else if c == '"' {
            as_string(string_literal(s, p1, c1, Seq::empty()))
        } else if c == '0' {
            if p1 < s.len() && radix_of(s[p1]) is Some {
                as_int(number(s, p1 + 1, next_col(s[p1], c1), 0, radix_of(s[p1])->0))
            } else {
                as_int(number(s, p1, c1, 0, 10))
            }
        } else if '0' <= c && c <= '9' {
            as_int(number(s, p1, c1, digit_value(c) as int, 10))
        } else if alphabetic(c) {
            as_string(bare_word(s, p1, c1, seq![c]))
        } else {
            Step::Fail { message: msg_unexpected_character(Some(c)), col: c1 }
        }
    }
}

/// The rest of a list after its `[`, with `items` read so far.
pub open spec fn list(s: Seq<char>, pos: int, col: int, items: Seq<ValueModel>) -> Step<ValueModel>
    decreases s.len() - pos, 1int,
{
    if pos < 0 || pos > s.len() {
        Step::Abort
    } else {
        let (p1, c1) = skip_ws(s, pos, col, false);
        if !(pos <= p1 <= s.len()) {
            Step::Abort
        } else if p1 < s.len() && s[p1] == ']' {
            Step::Done { value: ValueModel::List(items), pos: p1 + 1, col: c1 + 1 }
        } else {
            match value(s, p1, c1) {
                Step::Done { value: v, pos: p2, col: c2 } => if p1 < p2 <= s.len() {
                    list(s, p2, c2, items.push(v))
                } else {
                    Step::Abort
                },
                Step::Fail { message, col } => Step::Fail { message, col },
                Step::Abort => Step::Abort,
            }
        }
    }
}

/// The rest of a sum after its tag, with `items` read so far.
pub open spec fn tag_items(
    s: Seq<char>,
    pos: int,
    col: int,
    name: Seq<char>,
    items: Seq<ValueModel>,
) -> Step<ValueModel>
    decreases s.len() - pos, 1int,
{
    if pos < 0 || pos > s.len() {
        Step::Abort
    } else {
        let (p1, c1) = skip_ws(s, pos, col, false);
        if !(pos <= p1 <= s.len()) {
            Step::Abort
        } else if p1 < s.len() && s[p1] == ')' {
            Step::Done { value: ValueModel::Sum(name, items), pos: p1 + 1, col: c1 + 1 }
        } else {
            match value(s, p1, c1) {
                Step::Done { value: v, pos: p2, col: c2 } => if p1 < p2 <= s.len() {
                    tag_items(s, p2, c2, name, items.push(v))
                } else {
                    Step::Abort
                },
                Step::Fail { message, col } => Step::Fail { message, col },
                Step::Abort => Step::Abort,
            }
        }
    }
}

/// The rest of a sum after its `(`: the tag, then the payload values.
pub open spec fn tag(s: Seq<char>, pos: int, col: int) -> Step<ValueModel>
    decreases s.len() - pos, 2int,
{
    if pos < 0 || pos > s.len() {
        Step::Abort
    } else {
        let (p1, c1) = skip_ws(s, pos, col, false);
        if !(pos <= p1 <= s.len()) {
            Step::Abort
        } else if p1 == s.len() {
            Step::Fail { message: msg_eof_in_tag(), col: c1 + 1 }
        } else {
            let c = s[p1];
            let p2 = p1 + 1;
            let c2 = next_col(c, c1);
            let name = if c == '"' {
                string_literal(s, p2, c2, Seq::empty())
            } else if alphabetic(c) {
                bare_word(s, p2, c2, seq![c])
            } else {
                Step::Fail { message: msg_tag_char(c), col: c2 }
            };
            match name {
                Step::Done { value: t, pos: p3, col: c3 } => if p2 <= p3 <= s.len() {
                    tag_items(s, p3, c3, t, Seq::empty())
                } else {
                    Step::Abort
                },
                Step::Fail { message, col } => Step::Fail { message, col },
                Step::Abort => Step::Abort,
            }
        }
    }
}

/// The rest of a map after its `{`, with `entries` read so far (keys ascending).
pub open spec fn map_entries(
    s: Seq<char>,
    pos: int,
    col: int,
    entries: Seq<(Seq<char>, ValueModel)>,
) -> Step<ValueModel>
    decreases s.len() - pos, 1int,
{
    if pos < 0 || pos > s.len() {
        Step::Abort
    } else {
        let (p1, c1) = skip_ws(s, pos, col, false);
        if !(pos <= p1 <= s.len()) {
            Step::Abort
        } else if p1 < s.len() && s[p1] == '}' {
            Step::Done { value: ValueModel::Mapping(entries), pos: p1 + 1, col: c1 + 1 }
        } else {
            match value(s, p1, c1) {
                Step::Done { value: k, pos: p2, col: c2 } => if !(p1 < p2 <= s.len()) {
                    Step::Abort
                } else {
                    match k {
                        ValueModel::String(key) => {
                            let (p3, c3) = skip_ws(s, p2, c2, false);
                            if !(p2 <= p3 <= s.len()) {
                                Step::Abort
                            } else {
                                match value(s, p3, c3) {
                                    Step::Done { value: v, pos: p4, col: c4 } => if !(p3 < p4
                                        <= s.len()) {
                                        Step::Abort
                                    } else if has_key(entries, key) {
                                        Step::Fail { message: msg_repeated_key(key), col: c4 }
                                    } else {
                                        map_entries(s, p4, c4, insert_entry(entries, key, v))
                                    },
                                    Step::Fail { message, col } => Step::Fail { message, col },
                                    Step::Abort => Step::Abort,
                                }
                            }
                        },
                        _ => Step::Fail { message: msg_key_not_string(k), col: c2 },
                    }
                },
                Step::Fail { message, col } => Step::Fail { message, col },
                Step::Abort => Step::Abort,
            }
        }
    }
}

/// A whole document: one value, with white space and comments around it, and
/// nothing else.
pub open spec fn document(s: Seq<char>) -> Step<ValueModel> {
    let (p1, c1) = skip_ws(s, 0, 0, false);
    match value(s, p1, c1) {
        Step::Done { value: v, pos: p2, col: c2 } => {
            let (p3, c3) = skip_ws(s, p2, c2, false);
            if 0 <= p3 < s.len() {
                Step::Fail { message: msg_trailing(s[p3]), col: next_col(s[p3], c3) }
            } else {
                Step::Done { value: v, pos: p3, col: c3 + 1 }
            }
        },
        Step::Fail { message, col } => Step::Fail { message, col },
        Step::Abort => Step::Abort,
    }
}

} // verus!
