//! Tokens read as what they spell (bare words, decimal and prefixed integers, quoted
//! strings), the items of lists, sums and maps read as they do on their own, and a
//! key given twice in a map is an error.

use vstd::prelude::*;
use crate::chars::{alphabetic, alphanumeric, digit_value, white_space};
use crate::grammar::{
    bare_word, document, list, map_entries, next_col, number, radix_of, skip_ws, special,
    string_literal, tag, tag_items, value, Step,
};
use crate::laws::{
    digits_value, document_open, escape_text, law_bare_word_stops, lemma_bare_word_done,
    lemma_digits_value_grows, lemma_ext_string, lemma_insert_contents, lemma_read_escaped,
    lemma_shift_skip_ws, lemma_shift_value, lemma_skip_ws_bounds, lemma_string_literal_done,
    lemma_value_done, list_open, map_open, numeral, tag_items_open, tag_open, value_open,
};
use crate::value::{has_key, insert_entry, keys_ascending, lemma_insert_keeps_ascending, ValueModel};

verus! {

/// `c` ends a bare word or a number: white space or one of `[ ] ( ) { } #`.
pub open spec fn ends_token(c: char) -> bool {
    white_space(c) || special(c)
}

/// A character that ends a token is none of the characters a token goes on with.
proof fn lemma_ends_token(c: char)
    requires
        ends_token(c),
    ensures
        !alphanumeric(c),
        c != '_',
        c != '.',
        digit_value(c) == 36,
        radix_of(c) is None,
{
}

/// A bare word is read as the string it spells: an alphabetic character, then
/// alphanumeric characters and `_`, up to the end of the input, white space or one of
/// `[ ] ( ) { } #`, wherever it stands and whatever its letters.
pub proof fn law_bare_word_value(s: Seq<char>, pos: int, col: int, end: int)
    requires
        0 <= pos < end <= s.len(),
        alphabetic(s[pos]),
        forall|i: int| pos < i < end ==> alphanumeric(#[trigger] s[i]) || s[i] == '_',
        end == s.len() || ends_token(s[end]),
    ensures
        value(s, pos, col) matches Step::Done { value: ValueModel::String(w), pos: p, .. } && w
            == s.subrange(pos, end) && p == end,
{
    let c = s[pos];
    law_bare_word_stops(s, pos + 1, next_col(c, col), seq![c], end);
    assert(seq![c] + s.subrange(pos + 1, end) =~= s.subrange(pos, end));
}

/// A document that is one bare word reads as the string it spells.
pub proof fn law_bare_word_document(w: Seq<char>)
    requires
        w.len() > 0,
        alphabetic(w[0]),
        forall|i: int| 0 < i < w.len() ==> alphanumeric(#[trigger] w[i]) || w[i] == '_',
    ensures
        document(w) matches Step::Done { value: ValueModel::String(x), .. } && x == w,
{
    assert(skip_ws(w, 0, 0, false) == (0int, 0int));
    law_bare_word_value(w, 0, 0, w.len() as int);
    assert(w.subrange(0, w.len() as int) =~= w);
}

/// A numeral in base `base` read up to a character that ends it gives the value of
/// its digits, when that fits in an `i64`.
proof fn lemma_number_reads(s: Seq<char>, pos: int, col: int, num: int, base: nat, end: int)
    requires
        0 <= pos <= end <= s.len(),
        2 <= base <= 36,
        0 <= num,
        numeral(s.subrange(pos, end), base),
        end == s.len() || ends_token(s[end]),
        digits_value(num, s.subrange(pos, end), base) <= i64::MAX,
    ensures
        number(s, pos, col, num, base) matches Step::Done { value: n, pos: p, .. } && n as int
            == digits_value(num, s.subrange(pos, end), base) && p == end,
    decreases end - pos,
{
    let t = s.subrange(pos, end);
    if pos < end {
        let c = s[pos];
        let rest = s.subrange(pos + 1, end);
        assert(t[0] == c);
        assert(t.drop_first() =~= rest);
        assert forall|i: int| 0 <= i < rest.len() implies digit_value(#[trigger] rest[i]) < base
            || rest[i] == '_' by {
            assert(rest[i] == t[i + 1]);
        }
        assert(digit_value(c) < base || c == '_');
        if digit_value(c) < base {
            let next = num * base + digit_value(c);
            assert(0 <= next) by (nonlinear_arith)
                requires
                    0 <= num,
                    0 <= base,
                    next == num * base + digit_value(c),
            ;
            lemma_digits_value_grows(next, rest, base);
            lemma_number_reads(s, pos + 1, next_col(c, col), next, base, end);
        } else {
            lemma_number_reads(s, pos + 1, next_col(c, col), num, base, end);
        }
    } else {
        assert(t =~= Seq::<char>::empty());
        if end < s.len() {
            lemma_ends_token(s[end]);
        }
    }
}

/// A run of decimal digits, with `_` among them, read where a value starts, is the
/// integer those digits spell in base 10, whatever its first digit, `0` included.
pub proof fn law_decimal_value(s: Seq<char>, pos: int, col: int, end: int)
    requires
        0 <= pos < end <= s.len(),
        '0' <= s[pos] <= '9',
        numeral(s.subrange(pos, end), 10),
        end == s.len() || ends_token(s[end]),
        digits_value(0, s.subrange(pos, end), 10) <= i64::MAX,
    ensures
        value(s, pos, col) matches Step::Done { value: ValueModel::Int(n), pos: p, .. } && n as int
            == digits_value(0, s.subrange(pos, end), 10) && p == end,
{
    let t = s.subrange(pos, end);
    let c = s[pos];
    let rest = s.subrange(pos + 1, end);
    assert(t[0] == c);
    assert(t.drop_first() =~= rest);
    assert forall|i: int| 0 <= i < rest.len() implies digit_value(#[trigger] rest[i]) < 10
        || rest[i] == '_' by {
        assert(rest[i] == t[i + 1]);
    }
    assert(digits_value(0, t, 10) == digits_value(digit_value(c) as int, rest, 10));
    if c == '0' {
        if pos + 1 < end {
            assert(s[pos + 1] == t[1]);
            assert(digit_value(s[pos + 1]) < 10 || s[pos + 1] == '_');
        } else if pos + 1 < s.len() {
            lemma_ends_token(s[pos + 1]);
        }
        lemma_number_reads(s, pos + 1, next_col(c, col), 0, 10, end);
    } else {
        lemma_number_reads(s, pos + 1, next_col(c, col), digit_value(c) as int, 10, end);
    }
}

/// A document that is one run of decimal digits, with `_` among them, reads as the
/// integer those digits spell in base 10.
pub proof fn law_decimal_document(t: Seq<char>)
    requires
        t.len() > 0,
        '0' <= t[0] <= '9',
        numeral(t, 10),
        digits_value(0, t, 10) <= i64::MAX,
    ensures
        document(t) matches Step::Done { value: ValueModel::Int(n), .. } && n as int
            == digits_value(0, t, 10),
{
    assert(skip_ws(t, 0, 0, false) == (0int, 0int));
    assert(t.subrange(0, t.len() as int) =~= t);
    law_decimal_value(t, 0, 0, t.len() as int);
}

/// Skipping that stops inside `s` stops at the same place whatever follows `s`.
proof fn lemma_skip_stop(s: Seq<char>, w: Seq<char>, pos: int, col: int, in_comment: bool)
    requires
        0 <= pos <= s.len(),
        skip_ws(s, pos, col, in_comment).0 < s.len(),
    ensures
        skip_ws(s + w, pos, col, in_comment) == skip_ws(s, pos, col, in_comment),
    decreases s.len() - pos,
{
    let t = s + w;
    if pos < s.len() {
        assert(t[pos] == s[pos]);
        let c = s[pos];
        if in_comment {
            if c == '\n' {
                lemma_skip_stop(s, w, pos + 1, 0, false);
            } else {
                lemma_skip_stop(s, w, pos + 1, col + 1, true);
            }
        } else if white_space(c) {
            lemma_skip_stop(s, w, pos + 1, next_col(c, col), false);
        } else if c == '#' {
            lemma_skip_stop(s, w, pos + 1, col + 1, true);
        }
    }
}

/// A bare word reads the same before a character that ends it.
proof fn lemma_cont_bare_word(s: Seq<char>, w: Seq<char>, pos: int, col: int, buf: Seq<char>)
    requires
        0 <= pos <= s.len(),
        w.len() > 0,
        ends_token(w[0]),
    ensures
        bare_word(s + w, pos, col, buf) == bare_word(s, pos, col, buf),
    decreases s.len() - pos,
{
    let t = s + w;
    if pos < s.len() {
        assert(t[pos] == s[pos]);
        let c = s[pos];
        if alphanumeric(c) || c == '_' {
            lemma_cont_bare_word(s, w, pos + 1, next_col(c, col), buf.push(c));
        }
    } else {
        assert(t[pos] == w[0]);
        lemma_ends_token(w[0]);
    }
}

/// A number reads the same before a character that ends it.
proof fn lemma_cont_number(s: Seq<char>, w: Seq<char>, pos: int, col: int, num: int, base: nat)
    requires
        0 <= pos <= s.len(),
        w.len() > 0,
        ends_token(w[0]),
        base <= 36,
    ensures
        number(s + w, pos, col, num, base) == number(s, pos, col, num, base),
    decreases s.len() - pos,
{
    let t = s + w;
    if pos < s.len() {
        assert(t[pos] == s[pos]);
        let c = s[pos];
        if digit_value(c) < base {
            lemma_cont_number(s, w, pos + 1, next_col(c, col), num * base + digit_value(c), base);
        } else if c == '_' && !white_space(c) && !special(c) {
            lemma_cont_number(s, w, pos + 1, next_col(c, col), num, base);
        }
    } else {
        assert(t[pos] == w[0]);
        lemma_ends_token(w[0]);
    }
}

/// A value read from `s` that does not end inside an open string reads the same
/// before a character that ends a token.
proof fn lemma_cont_value(s: Seq<char>, w: Seq<char>, pos: int, col: int)
    requires
        0 <= pos < s.len(),
        w.len() > 0,
        ends_token(w[0]),
        value(s, pos, col) is Done,
        !value_open(s, pos, col),
    ensures
        value(s + w, pos, col) == value(s, pos, col),
    decreases s.len() - pos, 0int,
{
    let t = s + w;
    assert(t[pos] == s[pos]);
    let c = s[pos];
    let p1 = pos + 1;
    let c1 = next_col(c, col);
    if c == '[' {
        lemma_cont_list(s, w, p1, c1, Seq::empty());
    } else if c == '(' {
        lemma_cont_tag(s, w, p1, c1);
    } else if c == '{' {
        lemma_cont_map(s, w, p1, c1, Seq::empty());
    } else if c == '"' {
        lemma_ext_string(s, w, p1, c1, Seq::empty());
    } else if c == '0' {
        if p1 < s.len() {
            assert(t[p1] == s[p1]);
        } else {
            assert(t[p1] == w[0]);
            lemma_ends_token(w[0]);
        }
        if p1 < s.len() && radix_of(s[p1]) is Some {
            lemma_cont_number(s, w, p1 + 1, next_col(s[p1], c1), 0, radix_of(s[p1])->0);
        } else {
            lemma_cont_number(s, w, p1, c1, 0, 10);
        }
    } else if '0' <= c && c <= '9' {
        lemma_cont_number(s, w, p1, c1, digit_value(c) as int, 10);
    } else if alphabetic(c) {
        lemma_cont_bare_word(s, w, p1, c1, seq![c]);
    }
}

proof fn lemma_cont_list(s: Seq<char>, w: Seq<char>, pos: int, col: int, items: Seq<ValueModel>)
    requires
        0 <= pos <= s.len(),
        w.len() > 0,
        ends_token(w[0]),
        list(s, pos, col, items) is Done,
        !list_open(s, pos, col, items),
    ensures
        list(s + w, pos, col, items) == list(s, pos, col, items),
    decreases s.len() - pos, 1int,
{
    let t = s + w;
    lemma_skip_ws_bounds(s, pos, col, false);
    let (p1, c1) = skip_ws(s, pos, col, false);
    if p1 < s.len() {
        lemma_skip_stop(s, w, pos, col, false);
        assert(t[p1] == s[p1]);
        if s[p1] != ']' {
            lemma_value_done(s, p1, c1);
            lemma_cont_value(s, w, p1, c1);
            if let Step::Done { value: v, pos: p2, col: c2 } = value(s, p1, c1) {
                lemma_cont_list(s, w, p2, c2, items.push(v));
            }
        }
    }
}

proof fn lemma_cont_tag_items(
    s: Seq<char>,
    w: Seq<char>,
    pos: int,
    col: int,
    name: Seq<char>,
    items: Seq<ValueModel>,
)
    requires
        0 <= pos <= s.len(),
        w.len() > 0,
        ends_token(w[0]),
        tag_items(s, pos, col, name, items) is Done,
        !tag_items_open(s, pos, col, name, items),
    ensures
        tag_items(s + w, pos, col, name, items) == tag_items(s, pos, col, name, items),
    decreases s.len() - pos, 1int,
{
    let t = s + w;
    lemma_skip_ws_bounds(s, pos, col, false);
    let (p1, c1) = skip_ws(s, pos, col, false);
    if p1 < s.len() {
        lemma_skip_stop(s, w, pos, col, false);
        assert(t[p1] == s[p1]);
        if s[p1] != ')' {
            lemma_value_done(s, p1, c1);
            lemma_cont_value(s, w, p1, c1);
            if let Step::Done { value: v, pos: p2, col: c2 } = value(s, p1, c1) {
                lemma_cont_tag_items(s, w, p2, c2, name, items.push(v));
            }
        }
    }
}

proof fn lemma_cont_tag(s: Seq<char>, w: Seq<char>, pos: int, col: int)
    requires
        0 <= pos <= s.len(),
        w.len() > 0,
        ends_token(w[0]),
        tag(s, pos, col) is Done,
        !tag_open(s, pos, col),
    ensures
        tag(s + w, pos, col) == tag(s, pos, col),
    decreases s.len() - pos, 2int,
{
    let t = s + w;
    lemma_skip_ws_bounds(s, pos, col, false);
    let (p1, c1) = skip_ws(s, pos, col, false);
    if p1 < s.len() {
        lemma_skip_stop(s, w, pos, col, false);
        assert(t[p1] == s[p1]);
        let c = s[p1];
        let p2 = p1 + 1;
        let c2 = next_col(c, c1);
        if c == '"' {
            lemma_ext_string(s, w, p2, c2, Seq::empty());
            lemma_string_literal_done(s, p2, c2, Seq::empty());
            if let Step::Done { value: n, pos: p3, col: c3 } = string_literal(s, p2, c2, Seq::empty()) {
                lemma_cont_tag_items(s, w, p3, c3, n, Seq::empty());
            }
        } else if alphabetic(c) {
            lemma_cont_bare_word(s, w, p2, c2, seq![c]);
            lemma_bare_word_done(s, p2, c2, seq![c]);
            if let Step::Done { value: n, pos: p3, col: c3 } = bare_word(s, p2, c2, seq![c]) {
                lemma_cont_tag_items(s, w, p3, c3, n, Seq::empty());
            }
        }
    }
}

#[verifier::spinoff_prover]
#[verifier::rlimit(40)]
proof fn lemma_cont_map(
    s: Seq<char>,
    w: Seq<char>,
    pos: int,
    col: int,
    entries: Seq<(Seq<char>, ValueModel)>,
)
    requires
        0 <= pos <= s.len(),
        w.len() > 0,
        ends_token(w[0]),
        map_entries(s, pos, col, entries) is Done,
        !map_open(s, pos, col, entries),
    ensures
        map_entries(s + w, pos, col, entries) == map_entries(s, pos, col, entries),
    decreases s.len() - pos, 1int,
{
    let t = s + w;
    lemma_skip_ws_bounds(s, pos, col, false);
    let (p1, c1) = skip_ws(s, pos, col, false);
    if p1 < s.len() {
        lemma_skip_stop(s, w, pos, col, false);
        assert(t[p1] == s[p1]);
        if s[p1] != '}' {
            lemma_value_done(s, p1, c1);
            lemma_cont_value(s, w, p1, c1);
            if let Step::Done { value: k, pos: p2, col: c2 } = value(s, p1, c1) {
                if let ValueModel::String(key) = k {
                    lemma_skip_ws_bounds(s, p2, c2, false);
                    let (p3, c3) = skip_ws(s, p2, c2, false);
                    if p3 < s.len() {
                        lemma_skip_stop(s, w, p2, c2, false);
                        lemma_value_done(s, p3, c3);
                        lemma_cont_value(s, w, p3, c3);
                        if let Step::Done { value: v, pos: p4, col: c4 } = value(s, p3, c3) {
                            if !has_key(entries, key) {
                                lemma_cont_map(s, w, p4, c4, insert_entry(entries, key, v));
                            }
                        }
                    }
                }
            }
        }
    }
}

/// An integer written with a base prefix, `0x` or `0X` (16), `0z` or `0Z` (12), `0d`
/// or `0D` (10), `0o` or `0O` (8), `0b` or `0B` (2), then digits of that base with `_`
/// among them, is the integer those digits spell in that base.
pub proof fn law_prefixed_value(s: Seq<char>, pos: int, col: int, end: int, base: nat)
    requires
        0 <= pos,
        pos + 2 <= end <= s.len(),
        s[pos] == '0',
        ({
            ||| (s[pos + 1] == 'x' || s[pos + 1] == 'X') && base == 16
            ||| (s[pos + 1] == 'z' || s[pos + 1] == 'Z') && base == 12
            ||| (s[pos + 1] == 'd' || s[pos + 1] == 'D') && base == 10
            ||| (s[pos + 1] == 'o' || s[pos + 1] == 'O') && base == 8
            ||| (s[pos + 1] == 'b' || s[pos + 1] == 'B') && base == 2
        }),
        numeral(s.subrange(pos + 2, end), base),
        end == s.len() || ends_token(s[end]),
        digits_value(0, s.subrange(pos + 2, end), base) <= i64::MAX,
    ensures
        value(s, pos, col) matches Step::Done { value: ValueModel::Int(n), pos: p, .. } && n as int
            == digits_value(0, s.subrange(pos + 2, end), base) && p == end,
{
    let c1 = next_col(s[pos], col);
    assert(radix_of(s[pos + 1]) == Some(base));
    lemma_number_reads(s, pos + 2, next_col(s[pos + 1], c1), 0, base, end);
}

/// A quoted string, with a backslash before each `\` and `"` in it, read where a value
/// starts, is the string of its characters without those backslashes.
pub proof fn law_quoted_value(s: Seq<char>, pos: int, col: int, x: Seq<char>)
    requires
        0 <= pos,
        pos + 1 + escape_text(x).len() < s.len(),
        s[pos] == '"',
        s.subrange(pos + 1, pos + 1 + escape_text(x).len()) == escape_text(x),
        s[pos + 1 + escape_text(x).len()] == '"',
    ensures
        value(s, pos, col) matches Step::Done { value: ValueModel::String(w), pos: p, .. } && w == x
            && p == pos + escape_text(x).len() + 2,
{
    lemma_read_escaped(s, pos + 1, next_col('"', col), Seq::empty(), x);
    assert(Seq::<char>::empty() + x =~= x);
}

/// `t` is a document that reads as `v` and does not end inside an open string.
pub open spec fn reads_as(t: Seq<char>, v: ValueModel) -> bool {
    &&& document(t) matches Step::Done { value: x, .. } && x == v
    &&& !document_open(t)
}

/// `sep` can follow each of the texts `ts` to part them: a white space character,
/// and a line break unless no text holds a `#` (a comment at the end of a text would
/// run on through any other separator).
pub open spec fn parts(sep: char, ts: Seq<Seq<char>>) -> bool {
    &&& white_space(sep)
    &&& sep == '\n' || forall|i: int| 0 <= i < ts.len() ==> !(#[trigger] ts[i]).contains('#')
}

/// The texts `ts` one after another, each followed by `sep`.
pub open spec fn lines(ts: Seq<Seq<char>>, sep: char) -> Seq<char>
    decreases ts.len(),
{
    if ts.len() == 0 {
        Seq::empty()
    } else {
        lines(ts.drop_last(), sep) + ts.last() + seq![sep]
    }
}

/// The lines of the first `j` texts begin the lines of all of them.
proof fn lemma_lines_take(ts: Seq<Seq<char>>, sep: char, j: int)
    requires
        0 <= j <= ts.len(),
    ensures
        lines(ts.take(j), sep).len() <= lines(ts, sep).len(),
        lines(ts, sep).subrange(0, lines(ts.take(j), sep).len() as int) == lines(ts.take(j), sep),
    decreases ts.len(),
{
    if j == ts.len() {
        assert(ts.take(j) =~= ts);
        assert(lines(ts, sep).subrange(0, lines(ts, sep).len() as int) =~= lines(ts, sep));
    } else {
        let dl = ts.drop_last();
        lemma_lines_take(dl, sep, j);
        assert(dl.take(j) =~= ts.take(j));
        assert(lines(ts, sep).subrange(0, lines(ts.take(j), sep).len() as int) =~= lines(
            dl,
            sep,
        ).subrange(0, lines(ts.take(j), sep).len() as int));
    }
}

/// Where the `i`-th text starts in `lines(ts, sep)`.
pub open spec fn line_start(ts: Seq<Seq<char>>, sep: char, i: int) -> int {
    lines(ts.take(i), sep).len() as int
}

/// The `i`-th text stands at its start, followed by `sep`, and the next one starts
/// right after that.
proof fn lemma_line_at(p: Seq<char>, ts: Seq<Seq<char>>, sep: char, close: char, i: int)
    requires
        0 <= i < ts.len(),
    ensures
        ({
            let x = p + lines(ts, sep) + seq![close];
            let off = p.len() + line_start(ts, sep, i);
            &&& 0 <= off
            &&& off + ts[i].len() < x.len()
            &&& x.subrange(off, off + ts[i].len()) == ts[i]
            &&& x[off + ts[i].len()] == sep
            &&& p.len() + line_start(ts, sep, i + 1) == off + ts[i].len() + 1
        }),
{
    let x = p + lines(ts, sep) + seq![close];
    let a = lines(ts.take(i), sep);
    let b = lines(ts.take(i + 1), sep);
    assert(ts.take(i + 1).drop_last() =~= ts.take(i));
    assert(b == a + ts[i] + seq![sep]);
    lemma_lines_take(ts, sep, i + 1);
    let off = p.len() + a.len() as int;
    let la = a.len() as int;
    let lt = ts[i].len() as int;
    assert forall|m: int| 0 <= m < ts[i].len() implies x.subrange(off, off + lt)[m]
        == ts[i][m] by {
        assert(x[off + m] == lines(ts, sep)[la + m]);
        assert(lines(ts, sep)[la + m] == b[la + m]);
    }
    assert(x.subrange(off, off + lt) =~= ts[i]);
    assert(x[off + lt] == lines(ts, sep)[la + lt]);
    assert(lines(ts, sep)[la + lt] == b[la + lt]);
}

/// The lines of all the texts end where the last line starts.
proof fn lemma_line_end(ts: Seq<Seq<char>>, sep: char)
    ensures
        line_start(ts, sep, ts.len() as int) == lines(ts, sep).len(),
        line_start(ts, sep, 0) == 0,
{
    assert(ts.take(ts.len() as int) =~= ts);
    assert(ts.take(0) =~= Seq::<Seq<char>>::empty());
}

/// Skipping from within the tail of `t`, which is only white space and comments, goes
/// through the separator after `t` and on as from just after it.
proof fn lemma_skip_through(
    x: Seq<char>,
    off: int,
    t: Seq<char>,
    sep: char,
    j: int,
    ct: int,
    cx: int,
    in_comment: bool,
) -> (c: int)
    requires
        0 <= off,
        off + t.len() < x.len(),
        x.subrange(off, off + t.len()) == t,
        x[off + t.len()] == sep,
        white_space(sep),
        sep == '\n' || !t.contains('#'),
        in_comment ==> sep == '\n',
        0 <= j <= t.len(),
        skip_ws(t, j, ct, in_comment).0 == t.len(),
    ensures
        skip_ws(x, off + j, cx, in_comment) == skip_ws(x, off + t.len() + 1, c, false),
    decreases t.len() - j,
{
    if j < t.len() {
        assert(x[off + j] == x.subrange(off, off + t.len())[j]);
        let c = t[j];
        if in_comment {
            if c == '\n' {
                lemma_skip_through(x, off, t, sep, j + 1, 0, 0, false)
            } else {
                lemma_skip_through(x, off, t, sep, j + 1, ct + 1, cx + 1, true)
            }
        } else if white_space(c) {
            lemma_skip_through(x, off, t, sep, j + 1, next_col(c, ct), next_col(c, cx), false)
        } else if c == '#' {
            assert(t.contains('#')) by {
                assert(t[j] == '#');
            }
            lemma_skip_through(x, off, t, sep, j + 1, ct + 1, cx + 1, true)
        } else {
            0
        }
    } else if in_comment {
        0
    } else {
        next_col(sep, cx)
    }
}

/// A text that reads as `v` on its own, followed by a separator: from its start,
/// skipping, reading a value and skipping again reads `v` and goes on as from just
/// after the separator.
proof fn lemma_line_item(
    x: Seq<char>,
    off: int,
    t: Seq<char>,
    sep: char,
    v: ValueModel,
    cx: int,
) -> (r: (int, int, int, int, int))
    requires
        0 <= off,
        off + t.len() < x.len(),
        x.subrange(off, off + t.len()) == t,
        x[off + t.len()] == sep,
        white_space(sep),
        sep == '\n' || !t.contains('#'),
        reads_as(t, v),
    ensures
        skip_ws(x, off, cx, false) == (r.0, r.1),
        off <= r.0 < r.2 <= off + t.len(),
        value(x, r.0, r.1) == (Step::Done { value: v, pos: r.2, col: r.3 }),
        x[r.0] != ']' && x[r.0] != ')' && x[r.0] != '}',
        skip_ws(x, r.2, r.3, false) == skip_ws(x, off + t.len() + 1, r.4, false),
{
    let a = x.take(off);
    let b = x.skip(off + t.len());
    assert(x =~= a + (t + b));
    assert(b[0] == sep);
    assert(ends_token(b[0]));
    lemma_skip_ws_bounds(t, 0, 0, false);
    let (p1, c1) = skip_ws(t, 0, 0, false);
    lemma_value_done(t, p1, c1);
    let (q, cq) = match value(t, p1, c1) {
        Step::Done { pos, col, .. } => (pos, col),
        _ => (0, 0),
    };
    lemma_skip_ws_bounds(t, q, cq, false);
    lemma_skip_stop(t, b, 0, 0, false);
    lemma_shift_skip_ws(a, t + b, 0, 0, cx, false);
    let (r0, r1) = skip_ws(x, off, cx, false);
    lemma_cont_value(t, b, p1, c1);
    lemma_shift_value(a, t + b, p1, c1, r1 - c1);
    let r3 = match value(x, r0, r1) {
        Step::Done { col, .. } => col,
        _ => 0,
    };
    let r4 = lemma_skip_through(x, off, t, sep, q, cq, r3, false);
    assert(x[r0] == t[p1]);
    (r0, r1, off + q, r3, r4)
}

/// Each text read as its value in turn, from the `i`-th on, the rest of the list
/// holds all the values.
proof fn lemma_list_lines(
    p: Seq<char>,
    ts: Seq<Seq<char>>,
    sep: char,
    vs: Seq<ValueModel>,
    i: int,
    col: int,
)
    requires
        ts.len() == vs.len(),
        forall|j: int| 0 <= j < ts.len() ==> reads_as(#[trigger] ts[j], vs[j]),
        parts(sep, ts),
        0 <= i <= ts.len(),
    ensures
        list(p + lines(ts, sep) + seq![']'], p.len() + line_start(ts, sep, i), col, vs.take(i)) matches Step::Done {
            value: ValueModel::List(items),
            pos: q,
            ..
        } && items == vs && q == (p + lines(ts, sep) + seq![']']).len(),
    decreases ts.len() - i,
{
    let x = p + lines(ts, sep) + seq![']'];
    let off = p.len() + line_start(ts, sep, i);
    if i == ts.len() {
        lemma_line_end(ts, sep);
        assert(x[off] == ']');
        assert(skip_ws(x, off, col, false) == (off, col));
        assert(vs.take(i) =~= vs);
    } else {
        lemma_line_at(p, ts, sep, ']', i);
        let r = lemma_line_item(x, off, ts[i], sep, vs[i], col);
        let next = off + ts[i].len() + 1;
        lemma_skip_ws_bounds(x, next, r.4, false);
        let items = vs.take(i).push(vs[i]);
        assert(list(x, r.2, r.3, items) == list(x, next, r.4, items));
        assert(list(x, off, col, vs.take(i)) == list(x, r.2, r.3, items));
        assert(items =~= vs.take(i + 1));
        lemma_list_lines(p, ts, sep, vs, i + 1, r.4);
    }
}

/// A list whose items are each followed by a separator (any white space character;
/// a line break where an item holds a `#`) reads as the list of the values that those
/// items read as on their own, whatever they are, lists included.
pub proof fn law_list_items(ts: Seq<Seq<char>>, sep: char, vs: Seq<ValueModel>)
    requires
        ts.len() == vs.len(),
        forall|i: int| 0 <= i < ts.len() ==> reads_as(#[trigger] ts[i], vs[i]),
        parts(sep, ts),
    ensures
        document(seq!['['] + lines(ts, sep) + seq![']']) matches Step::Done {
            value: ValueModel::List(items),
            ..
        } && items == vs,
{
    let x = seq!['['] + lines(ts, sep) + seq![']'];
    lemma_line_end(ts, sep);
    assert(x[0] == '[');
    assert(skip_ws(x, 0, 0, false) == (0int, 0int));
    assert(vs.take(0) =~= Seq::<ValueModel>::empty());
    lemma_list_lines(seq!['['], ts, sep, vs, 0, 1);
    assert(value(x, 0, 0) == list(x, 1, 1, Seq::empty()));
}

/// Each text read as its value in turn, from the `i`-th on, the rest of the sum
/// holds all the values.
proof fn lemma_tag_lines(
    p: Seq<char>,
    name: Seq<char>,
    ts: Seq<Seq<char>>,
    sep: char,
    vs: Seq<ValueModel>,
    i: int,
    col: int,
)
    requires
        ts.len() == vs.len(),
        forall|j: int| 0 <= j < ts.len() ==> reads_as(#[trigger] ts[j], vs[j]),
        parts(sep, ts),
        0 <= i <= ts.len(),
    ensures
        tag_items(p + lines(ts, sep) + seq![')'], p.len() + line_start(ts, sep, i), col, name, vs.take(i)) matches Step::Done {
            value: ValueModel::Sum(n, items),
            pos: q,
            ..
        } && n == name && items == vs && q == (p + lines(ts, sep) + seq![')']).len(),
    decreases ts.len() - i,
{
    let x = p + lines(ts, sep) + seq![')'];
    let off = p.len() + line_start(ts, sep, i);
    if i == ts.len() {
        lemma_line_end(ts, sep);
        assert(x[off] == ')');
        assert(skip_ws(x, off, col, false) == (off, col));
        assert(vs.take(i) =~= vs);
    } else {
        lemma_line_at(p, ts, sep, ')', i);
        let r = lemma_line_item(x, off, ts[i], sep, vs[i], col);
        let next = off + ts[i].len() + 1;
        lemma_skip_ws_bounds(x, next, r.4, false);
        let items = vs.take(i).push(vs[i]);
        assert(tag_items(x, r.2, r.3, name, items) == tag_items(x, next, r.4, name, items));
        assert(tag_items(x, off, col, name, vs.take(i)) == tag_items(x, r.2, r.3, name, items));
        assert(items =~= vs.take(i + 1));
        lemma_tag_lines(p, name, ts, sep, vs, i + 1, r.4);
    }
}

/// A sum whose tag is a bare word right after `(`, and whose payload items are each
/// preceded by a separator (any white space character; a line break where an item
/// holds a `#`), reads as that tag with the values that the items read as on their
/// own, whatever the letters of the tag.
pub proof fn law_sum_items(name: Seq<char>, ts: Seq<Seq<char>>, sep: char, vs: Seq<ValueModel>)
    requires
        name.len() > 0,
        alphabetic(name[0]),
        forall|i: int| 0 < i < name.len() ==> alphanumeric(#[trigger] name[i]) || name[i] == '_',
        ts.len() == vs.len(),
        forall|i: int| 0 <= i < ts.len() ==> reads_as(#[trigger] ts[i], vs[i]),
        parts(sep, ts),
    ensures
        document(seq!['('] + name + seq![sep] + lines(ts, sep) + seq![')']) matches Step::Done {
            value: ValueModel::Sum(n, items),
            ..
        } && n == name && items == vs,
{
    let p = seq!['('] + name + seq![sep];
    let x = p + lines(ts, sep) + seq![')'];
    let k = name.len() as int;
    lemma_line_end(ts, sep);
    assert(x[0] == '(');
    assert(skip_ws(x, 0, 0, false) == (0int, 0int));
    let c = name[0];
    assert(x[1] == c);
    assert(skip_ws(x, 1, 1, false) == (1int, 1int));
    let c2 = next_col(c, 1);
    assert forall|i: int| 2 <= i < 1 + k implies alphanumeric(#[trigger] x[i]) || x[i] == '_' by {
        assert(x[i] == name[i - 1]);
    }
    assert(x[1 + k] == sep);
    law_bare_word_stops(x, 2, c2, seq![c], 1 + k);
    assert(seq![c] + x.subrange(2, 1 + k) =~= name);
    let c3 = match bare_word(x, 2, c2, seq![c]) {
        Step::Done { col, .. } => col,
        _ => 0,
    };
    let c4 = next_col(sep, c3);
    lemma_skip_ws_bounds(x, 2 + k, c4, false);
    assert(skip_ws(x, 1 + k, c3, false) == skip_ws(x, 2 + k, c4, false));
    assert(tag_items(x, 1 + k, c3, name, Seq::empty()) == tag_items(x, 2 + k, c4, name, Seq::empty()));
    assert(vs.take(0) =~= Seq::<ValueModel>::empty());
    lemma_tag_lines(p, name, ts, sep, vs, 0, c4);
    assert(value(x, 0, 0) == tag(x, 1, 1));
}

/// A sum whose tag is a quoted string right after `(`, and whose payload items are
/// each preceded by a separator (any white space character; a line break where an
/// item holds a `#`), reads as the tag's characters, backslashes taken out, with the
/// values that the items read as on their own.
pub proof fn law_sum_quoted_tag(name: Seq<char>, ts: Seq<Seq<char>>, sep: char, vs: Seq<ValueModel>)
    requires
        ts.len() == vs.len(),
        forall|i: int| 0 <= i < ts.len() ==> reads_as(#[trigger] ts[i], vs[i]),
        parts(sep, ts),
    ensures
        document(seq!['(', '"'] + escape_text(name) + seq!['"', sep] + lines(ts, sep) + seq![')']) matches Step::Done {
            value: ValueModel::Sum(n, items),
            ..
        } && n == name && items == vs,
{
    let e = escape_text(name);
    let p = seq!['(', '"'] + e + seq!['"', sep];
    let x = p + lines(ts, sep) + seq![')'];
    let k = e.len() as int;
    lemma_line_end(ts, sep);
    assert(x[0] == '(');
    assert(skip_ws(x, 0, 0, false) == (0int, 0int));
    assert(x[1] == '"');
    assert(skip_ws(x, 1, 1, false) == (1int, 1int));
    assert(x.subrange(2, 2 + k) =~= e) by {
        assert forall|i: int| 0 <= i < k implies x.subrange(2, 2 + k)[i] == e[i] by {
            assert(x[2 + i] == e[i]);
        }
    }
    assert(x[2 + k] == '"');
    lemma_read_escaped(x, 2, next_col('"', 1), Seq::empty(), name);
    assert(Seq::<char>::empty() + name =~= name);
    let c3 = match string_literal(x, 2, next_col('"', 1), Seq::empty()) {
        Step::Done { col, .. } => col,
        _ => 0,
    };
    assert(x[3 + k] == sep);
    let c4 = next_col(sep, c3);
    lemma_skip_ws_bounds(x, 4 + k, c4, false);
    assert(skip_ws(x, 3 + k, c3, false) == skip_ws(x, 4 + k, c4, false));
    assert(tag_items(x, 3 + k, c3, name, Seq::empty()) == tag_items(x, 4 + k, c4, name, Seq::empty()));
    assert(vs.take(0) =~= Seq::<ValueModel>::empty());
    lemma_tag_lines(p, name, ts, sep, vs, 0, c4);
    assert(value(x, 0, 0) == tag(x, 1, 1));
}

/// The key texts and value texts of a map, in turn: key, value, key, value, ...
pub open spec fn entry_lines(kts: Seq<Seq<char>>, vts: Seq<Seq<char>>) -> Seq<Seq<char>> {
    Seq::new(2 * kts.len(), |j: int| if j % 2 == 0 { kts[j / 2] } else { vts[j / 2] })
}

/// `e` is the `i`-th entry given, for some `i` below `m`.
pub open spec fn among(ks: Seq<Seq<char>>, vs: Seq<ValueModel>, m: int, e: (Seq<char>, ValueModel)) -> bool {
    exists|i: int| 0 <= i < m && e == (#[trigger] ks[i], vs[i])
}

/// Reading the `m`-th key and value, each followed by the separator, inserts that
/// entry and goes on as from just after the value's separator.
#[verifier::spinoff_prover]
proof fn lemma_map_step(
    p: Seq<char>,
    kts: Seq<Seq<char>>,
    ks: Seq<Seq<char>>,
    vts: Seq<Seq<char>>,
    vs: Seq<ValueModel>,
    sep: char,
    m: int,
    col: int,
    es: Seq<(Seq<char>, ValueModel)>,
) -> (c: int)
    requires
        kts.len() == ks.len(),
        vts.len() == ks.len(),
        vs.len() == ks.len(),
        0 <= m < ks.len(),
        reads_as(kts[m], ValueModel::String(ks[m])),
        reads_as(vts[m], vs[m]),
        parts(sep, entry_lines(kts, vts)),
        !has_key(es, ks[m]),
    ensures
        ({
            let et = entry_lines(kts, vts);
            let x = p + lines(et, sep) + seq!['}'];
            map_entries(x, p.len() + line_start(et, sep, 2 * m), col, es) == map_entries(
                x,
                p.len() + line_start(et, sep, 2 * m + 2),
                c,
                insert_entry(es, ks[m], vs[m]),
            )
        }),
{
    let et = entry_lines(kts, vts);
    let x = p + lines(et, sep) + seq!['}'];
    let off = p.len() + line_start(et, sep, 2 * m);
    assert((2 * m) % 2 == 0 && (2 * m) / 2 == m);
    assert((2 * m + 1) % 2 == 1 && (2 * m + 1) / 2 == m);
    assert(et[2 * m] == kts[m]);
    assert(et[2 * m + 1] == vts[m]);
    lemma_line_at(p, et, sep, '}', 2 * m);
    lemma_line_at(p, et, sep, '}', 2 * m + 1);
    let k = ks[m];
    let v = vs[m];
    let r = lemma_line_item(x, off, kts[m], sep, ValueModel::String(k), col);
    let off2 = off + kts[m].len() + 1;
    let r2 = lemma_line_item(x, off2, vts[m], sep, v, r.4);
    let off3 = off2 + vts[m].len() + 1;
    lemma_skip_ws_bounds(x, off3, r2.4, false);
    let es2 = insert_entry(es, k, v);
    assert(map_entries(x, r2.2, r2.3, es2) == map_entries(x, off3, r2.4, es2));
    assert(map_entries(x, off, col, es) == map_entries(x, r2.2, r2.3, es2));
    r2.4
}

/// Each key and value text read in turn, from the `m`-th entry on, the rest of the
/// map holds exactly the entries given.
#[verifier::spinoff_prover]
proof fn lemma_map_lines(
    p: Seq<char>,
    kts: Seq<Seq<char>>,
    ks: Seq<Seq<char>>,
    vts: Seq<Seq<char>>,
    vs: Seq<ValueModel>,
    sep: char,
    m: int,
    col: int,
    es: Seq<(Seq<char>, ValueModel)>,
)
    requires
        kts.len() == ks.len(),
        vts.len() == ks.len(),
        vs.len() == ks.len(),
        forall|i: int| 0 <= i < ks.len() ==> reads_as(#[trigger] kts[i], ValueModel::String(ks[i])),
        forall|i: int| 0 <= i < ks.len() ==> reads_as(#[trigger] vts[i], vs[i]),
        forall|i: int, j: int| 0 <= i < j < ks.len() ==> #[trigger] ks[i] != #[trigger] ks[j],
        parts(sep, entry_lines(kts, vts)),
        0 <= m <= ks.len(),
        es.len() == m,
        keys_ascending(es),
        forall|e: (Seq<char>, ValueModel)| #[trigger] es.contains(e) <==> among(ks, vs, m, e),
    ensures
        ({
            let x = p + lines(entry_lines(kts, vts), sep) + seq!['}'];
            map_entries(x, p.len() + line_start(entry_lines(kts, vts), sep, 2 * m), col, es) matches Step::Done {
                value: ValueModel::Mapping(r),
                pos: q,
                ..
            } && q == x.len() && r.len() == ks.len() && keys_ascending(r) && forall|e: (Seq<char>, ValueModel)|
                #[trigger] r.contains(e) <==> among(ks, vs, ks.len() as int, e)
        }),
    decreases ks.len() - m,
{
    let et = entry_lines(kts, vts);
    let x = p + lines(et, sep) + seq!['}'];
    let off = p.len() + line_start(et, sep, 2 * m);
    if m == ks.len() {
        lemma_line_end(et, sep);
        assert(x[off] == '}');
        assert(skip_ws(x, off, col, false) == (off, col));
    } else {
        let k = ks[m];
        let v = vs[m];
        assert(!has_key(es, k)) by {
            if has_key(es, k) {
                let i = choose|i: int| 0 <= i < es.len() && #[trigger] es[i].0 == k;
                assert(es.contains(es[i]));
                let j = choose|j: int| 0 <= j < m && es[i] == (#[trigger] ks[j], vs[j]);
                assert(ks[j] != ks[m]);
            }
        }
        let es2 = insert_entry(es, k, v);
        lemma_insert_keeps_ascending(es, k, v);
        lemma_insert_contents(es, k, v);
        assert forall|e: (Seq<char>, ValueModel)| #[trigger] es2.contains(e) <==> among(ks, vs, m + 1, e) by {
            if among(ks, vs, m + 1, e) {
                let j = choose|j: int| 0 <= j < m + 1 && e == (#[trigger] ks[j], vs[j]);
                if j < m {
                    assert(among(ks, vs, m, e));
                }
            }
            if es.contains(e) {
                let j = choose|j: int| 0 <= j < m && e == (#[trigger] ks[j], vs[j]);
                assert(0 <= j < m + 1 && e == (ks[j], vs[j]));
            }
            if e == (k, v) {
                assert(0 <= m < m + 1 && e == (ks[m], vs[m]));
            }
        }
        let c = lemma_map_step(p, kts, ks, vts, vs, sep, m, col, es);
        lemma_map_lines(p, kts, ks, vts, vs, sep, m + 1, c, es2);
    }
}

/// A map whose keys and values are written in turn, key then value, each followed by
/// a separator (any white space character; a line break where a text holds a `#`),
/// with keys that are all different, reads as the map holding exactly those entries:
/// each key with the value its text reads as on its own, whatever that value is, maps
/// included.
pub proof fn law_map_entries(
    kts: Seq<Seq<char>>,
    ks: Seq<Seq<char>>,
    vts: Seq<Seq<char>>,
    vs: Seq<ValueModel>,
    sep: char,
)
    requires
        kts.len() == ks.len(),
        vts.len() == ks.len(),
        vs.len() == ks.len(),
        forall|i: int| 0 <= i < ks.len() ==> reads_as(#[trigger] kts[i], ValueModel::String(ks[i])),
        forall|i: int| 0 <= i < ks.len() ==> reads_as(#[trigger] vts[i], vs[i]),
        forall|i: int, j: int| 0 <= i < j < ks.len() ==> #[trigger] ks[i] != #[trigger] ks[j],
        parts(sep, entry_lines(kts, vts)),
    ensures
        document(seq!['{'] + lines(entry_lines(kts, vts), sep) + seq!['}']) matches Step::Done {
            value: ValueModel::Mapping(r),
            ..
        } && r.len() == ks.len() && forall|e: (Seq<char>, ValueModel)|
            #[trigger] r.contains(e) <==> among(ks, vs, ks.len() as int, e),
{
    let et = entry_lines(kts, vts);
    let x = seq!['{'] + lines(et, sep) + seq!['}'];
    lemma_line_end(et, sep);
    assert(x[0] == '{');
    assert(skip_ws(x, 0, 0, false) == (0int, 0int));
    let es = Seq::<(Seq<char>, ValueModel)>::empty();
    assert forall|e: (Seq<char>, ValueModel)| #[trigger] es.contains(e) <==> among(ks, vs, 0, e) by {}
    lemma_map_lines(seq!['{'], kts, ks, vts, vs, sep, 0, 1, es);
    assert(value(x, 0, 0) == map_entries(x, 1, 1, es));
}

/// Reading the entries from the `m`-th up to the `stop`-th, whose keys are all
/// different, inserts them and goes on as from just after the last of them.
#[verifier::spinoff_prover]
proof fn lemma_map_upto(
    p: Seq<char>,
    kts: Seq<Seq<char>>,
    ks: Seq<Seq<char>>,
    vts: Seq<Seq<char>>,
    vs: Seq<ValueModel>,
    sep: char,
    m: int,
    stop: int,
    col: int,
    es: Seq<(Seq<char>, ValueModel)>,
) -> (r: (int, Seq<(Seq<char>, ValueModel)>))
    requires
        kts.len() == ks.len(),
        vts.len() == ks.len(),
        vs.len() == ks.len(),
        forall|i: int| 0 <= i < ks.len() ==> reads_as(#[trigger] kts[i], ValueModel::String(ks[i])),
        forall|i: int| 0 <= i < ks.len() ==> reads_as(#[trigger] vts[i], vs[i]),
        forall|i: int, j: int| 0 <= i < j < stop ==> #[trigger] ks[i] != #[trigger] ks[j],
        parts(sep, entry_lines(kts, vts)),
        0 <= m <= stop <= ks.len(),
        keys_ascending(es),
        forall|e: (Seq<char>, ValueModel)| #[trigger] es.contains(e) <==> among(ks, vs, m, e),
    ensures
        ({
            let et = entry_lines(kts, vts);
            let x = p + lines(et, sep) + seq!['}'];
            map_entries(x, p.len() + line_start(et, sep, 2 * m), col, es) == map_entries(
                x,
                p.len() + line_start(et, sep, 2 * stop),
                r.0,
                r.1,
            )
        }),
        keys_ascending(r.1),
        forall|e: (Seq<char>, ValueModel)| #[trigger] r.1.contains(e) <==> among(ks, vs, stop, e),
    decreases stop - m,
{
    if m == stop {
        (col, es)
    } else {
        let k = ks[m];
        let v = vs[m];
        assert(!has_key(es, k)) by {
            if has_key(es, k) {
                let i = choose|i: int| 0 <= i < es.len() && #[trigger] es[i].0 == k;
                assert(es.contains(es[i]));
                let j = choose|j: int| 0 <= j < m && es[i] == (#[trigger] ks[j], vs[j]);
                assert(ks[j] != ks[m]);
            }
        }
        let es2 = insert_entry(es, k, v);
        lemma_insert_keeps_ascending(es, k, v);
        lemma_insert_contents(es, k, v);
        assert forall|e: (Seq<char>, ValueModel)| #[trigger] es2.contains(e) <==> among(ks, vs, m + 1, e) by {
            if among(ks, vs, m + 1, e) {
                let j = choose|j: int| 0 <= j < m + 1 && e == (#[trigger] ks[j], vs[j]);
                if j < m {
                    assert(among(ks, vs, m, e));
                }
            }
            if es.contains(e) {
                let j = choose|j: int| 0 <= j < m && e == (#[trigger] ks[j], vs[j]);
                assert(0 <= j < m + 1 && e == (ks[j], vs[j]));
            }
            if e == (k, v) {
                assert(0 <= m < m + 1 && e == (ks[m], vs[m]));
            }
        }
        let c = lemma_map_step(p, kts, ks, vts, vs, sep, m, col, es);
        lemma_map_upto(p, kts, ks, vts, vs, sep, m + 1, stop, c, es2)
    }
}

/// Reading a key that the map already holds, with its value, fails with the message
/// that names the key.
#[verifier::spinoff_prover]
proof fn lemma_map_repeat(
    p: Seq<char>,
    kts: Seq<Seq<char>>,
    ks: Seq<Seq<char>>,
    vts: Seq<Seq<char>>,
    vs: Seq<ValueModel>,
    sep: char,
    m: int,
    col: int,
    es: Seq<(Seq<char>, ValueModel)>,
)
    requires
        kts.len() == ks.len(),
        vts.len() == ks.len(),
        vs.len() == ks.len(),
        0 <= m < ks.len(),
        reads_as(kts[m], ValueModel::String(ks[m])),
        reads_as(vts[m], vs[m]),
        parts(sep, entry_lines(kts, vts)),
        has_key(es, ks[m]),
    ensures
        ({
            let et = entry_lines(kts, vts);
            let x = p + lines(et, sep) + seq!['}'];
            map_entries(x, p.len() + line_start(et, sep, 2 * m), col, es) matches Step::Fail {
                message,
                ..
            } && message == "Repeated key in map: "@ + ks[m]
        }),
{
    let et = entry_lines(kts, vts);
    let x = p + lines(et, sep) + seq!['}'];
    let off = p.len() + line_start(et, sep, 2 * m);
    assert((2 * m) % 2 == 0 && (2 * m) / 2 == m);
    assert((2 * m + 1) % 2 == 1 && (2 * m + 1) / 2 == m);
    assert(et[2 * m] == kts[m]);
    assert(et[2 * m + 1] == vts[m]);
    lemma_line_at(p, et, sep, '}', 2 * m);
    lemma_line_at(p, et, sep, '}', 2 * m + 1);
    let r = lemma_line_item(x, off, kts[m], sep, ValueModel::String(ks[m]), col);
    let off2 = off + kts[m].len() + 1;
    let r2 = lemma_line_item(x, off2, vts[m], sep, vs[m], r.4);
}

/// A map in which a key comes again is an error that names that key: with the keys
/// and values written in turn as for `law_map_entries`, and the `m`-th key the first
/// that was already given, reading fails with "Repeated key in map: " and that key.
pub proof fn law_repeated_key(
    kts: Seq<Seq<char>>,
    ks: Seq<Seq<char>>,
    vts: Seq<Seq<char>>,
    vs: Seq<ValueModel>,
    sep: char,
    m: int,
)
    requires
        kts.len() == ks.len(),
        vts.len() == ks.len(),
        vs.len() == ks.len(),
        forall|i: int| 0 <= i < ks.len() ==> reads_as(#[trigger] kts[i], ValueModel::String(ks[i])),
        forall|i: int| 0 <= i < ks.len() ==> reads_as(#[trigger] vts[i], vs[i]),
        parts(sep, entry_lines(kts, vts)),
        0 <= m < ks.len(),
        forall|i: int, j: int| 0 <= i < j < m ==> #[trigger] ks[i] != #[trigger] ks[j],
        exists|i: int| 0 <= i < m && #[trigger] ks[i] == ks[m],
    ensures
        document(seq!['{'] + lines(entry_lines(kts, vts), sep) + seq!['}']) matches Step::Fail {
            message,
            ..
        } && message == "Repeated key in map: "@ + ks[m],
{
    let et = entry_lines(kts, vts);
    let p = seq!['{'];
    let x = p + lines(et, sep) + seq!['}'];
    lemma_line_end(et, sep);
    assert(x[0] == '{');
    assert(skip_ws(x, 0, 0, false) == (0int, 0int));
    let es = Seq::<(Seq<char>, ValueModel)>::empty();
    assert forall|e: (Seq<char>, ValueModel)| #[trigger] es.contains(e) <==> among(ks, vs, 0, e) by {}
    let r = lemma_map_upto(p, kts, ks, vts, vs, sep, 0, m, 1, es);
    let i = choose|i: int| 0 <= i < m && #[trigger] ks[i] == ks[m];
    assert(among(ks, vs, m, (ks[i], vs[i])));
    assert(r.1.contains((ks[i], vs[i])));
    let j = choose|j: int| 0 <= j < r.1.len() && r.1[j] == (ks[i], vs[i]);
    assert(r.1[j].0 == ks[m]);
    assert(has_key(r.1, ks[m]));
    lemma_map_repeat(p, kts, ks, vts, vs, sep, m, r.0, r.1);
    assert(value(x, 0, 0) == map_entries(x, 1, 1, es));
}

} // verus!
