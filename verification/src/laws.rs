//! Properties of Adnot parsing that hold for every input.

use vstd::prelude::*;
use crate::chars::{alphabetic, alphanumeric, chars_less, digit_value, white_space};
use crate::grammar::{
    bare_word, document, escaped, list, map_entries, msg_tag_char, msg_unexpected_character, next_col, number, radix_of,
    skip_ws, special, string_literal, tag, tag_items, value, Step,
};
use crate::value::{
    has_key, insert_entry, insertion_index, keys_ascending, lemma_chars_less_irreflexive,
    lemma_chars_less_transitive, lemma_insert_keeps_ascending, lemma_insertion_index_facts,
    well_formed, ValueModel,
};

verus! {

/// Skipping white space stays within the input and never goes back.
pub(crate) proof fn lemma_skip_ws_bounds(s: Seq<char>, pos: int, col: int, in_comment: bool)
    requires
        0 <= pos <= s.len(),
    ensures
        pos <= skip_ws(s, pos, col, in_comment).0 <= s.len(),
    decreases s.len() - pos,
{
    if pos < s.len() {
        if in_comment {
            if s[pos] == '\n' {
                lemma_skip_ws_bounds(s, pos + 1, 0, false);
            } else {
                lemma_skip_ws_bounds(s, pos + 1, col + 1, true);
            }
        } else if white_space(s[pos]) {
            lemma_skip_ws_bounds(s, pos + 1, next_col(s[pos], col), false);
        } else if s[pos] == '#' {
            lemma_skip_ws_bounds(s, pos + 1, col + 1, true);
        }
    }
}

/// A string literal that is read stays within the input.
pub(crate) proof fn lemma_string_literal_done(s: Seq<char>, pos: int, col: int, buf: Seq<char>)
    requires
        0 <= pos <= s.len(),
    ensures
        string_literal(s, pos, col, buf) matches Step::Done { pos: p, .. } ==> pos <= p <= s.len(),
    decreases s.len() - pos,
{
    if pos < s.len() {
        let c = s[pos];
        let c1 = next_col(c, col);
        if c == '\\' {
            if pos + 1 < s.len() {
                let e = s[pos + 1];
                if let Some(x) = escaped(e) {
                    lemma_string_literal_done(s, pos + 2, next_col(e, c1), buf.push(x));
                }
            }
        } else if c != '"' {
            lemma_string_literal_done(s, pos + 1, c1, buf.push(c));
        }
    }
}

/// A bare word that is read stays within the input.
pub(crate) proof fn lemma_bare_word_done(s: Seq<char>, pos: int, col: int, buf: Seq<char>)
    requires
        0 <= pos <= s.len(),
    ensures
        bare_word(s, pos, col, buf) matches Step::Done { pos: p, .. } ==> pos <= p <= s.len(),
    decreases s.len() - pos,
{
    if pos < s.len() {
        let c = s[pos];
        if alphanumeric(c) || c == '_' {
            lemma_bare_word_done(s, pos + 1, next_col(c, col), buf.push(c));
        }
    }
}

/// A number that is read stays within the input.
proof fn lemma_number_done(s: Seq<char>, pos: int, col: int, num: int, base: nat)
    requires
        0 <= pos <= s.len(),
    ensures
        number(s, pos, col, num, base) matches Step::Done { pos: p, .. } ==> pos <= p <= s.len(),
    decreases s.len() - pos,
{
    if pos < s.len() {
        let c = s[pos];
        if digit_value(c) < base {
            lemma_number_done(s, pos + 1, next_col(c, col), num * base + digit_value(c), base);
        } else if c == '_' {
            lemma_number_done(s, pos + 1, next_col(c, col), num, base);
        }
    }
}

/// A value that is read takes at least one character, stays within the input,
/// and is well formed.
pub(crate) proof fn lemma_value_done(s: Seq<char>, pos: int, col: int)
    ensures
        value(s, pos, col) matches Step::Done { value: v, pos: p, .. } ==> pos < p <= s.len()
            && well_formed(v),
    decreases s.len() - pos, 0int,
{
    if 0 <= pos < s.len() {
        let c = s[pos];
        let p1 = pos + 1;
        let c1 = next_col(c, col);
        if c == '[' {
            lemma_list_done(s, p1, c1, Seq::empty());
        } else if c == '(' {
            lemma_tag_done(s, p1, c1);
        } else if c == '{' {
            lemma_map_done(s, p1, c1, Seq::empty());
        } else if c == '"' {
            lemma_string_literal_done(s, p1, c1, Seq::empty());
        } else if c == '0' {
            if p1 < s.len() && radix_of(s[p1]) is Some {
                lemma_number_done(s, p1 + 1, next_col(s[p1], c1), 0, radix_of(s[p1])->0);
            } else {
                lemma_number_done(s, p1, c1, 0, 10);
            }
        } else if '0' <= c && c <= '9' {
            lemma_number_done(s, p1, c1, digit_value(c) as int, 10);
        } else {
            lemma_bare_word_done(s, p1, c1, seq![c]);
        }
    }
}

/// The rest of a list, with well-formed items so far, is well formed.
proof fn lemma_list_done(s: Seq<char>, pos: int, col: int, items: Seq<ValueModel>)
    requires
        forall|i: int| 0 <= i < items.len() ==> well_formed(#[trigger] items[i]),
    ensures
        list(s, pos, col, items) matches Step::Done { value: v, pos: p, .. } ==> pos < p
            <= s.len() && well_formed(v),
    decreases s.len() - pos, 1int,
{
    if 0 <= pos <= s.len() {
        lemma_skip_ws_bounds(s, pos, col, false);
        let (p1, c1) = skip_ws(s, pos, col, false);
        if !(p1 < s.len() && s[p1] == ']') {
            lemma_value_done(s, p1, c1);
            if let Step::Done { value: v, pos: p2, col: c2 } = value(s, p1, c1) {
                if p1 < p2 <= s.len() {
                    assert forall|i: int| 0 <= i < items.push(v).len() implies well_formed(
                        #[trigger] items.push(v)[i],
                    ) by {
                        if i < items.len() {
                            assert(items.push(v)[i] == items[i]);
                        }
                    }
                    lemma_list_done(s, p2, c2, items.push(v));
                }
            }
        }
    }
}

/// The rest of a sum, with well-formed items so far, is well formed.
proof fn lemma_tag_items_done(
    s: Seq<char>,
    pos: int,
    col: int,
    name: Seq<char>,
    items: Seq<ValueModel>,
)
    requires
        forall|i: int| 0 <= i < items.len() ==> well_formed(#[trigger] items[i]),
    ensures
        tag_items(s, pos, col, name, items) matches Step::Done { value: v, pos: p, .. } ==> pos
            < p <= s.len() && well_formed(v),
    decreases s.len() - pos, 1int,
{
    if 0 <= pos <= s.len() {
        lemma_skip_ws_bounds(s, pos, col, false);
        let (p1, c1) = skip_ws(s, pos, col, false);
        if !(p1 < s.len() && s[p1] == ')') {
            lemma_value_done(s, p1, c1);
            if let Step::Done { value: v, pos: p2, col: c2 } = value(s, p1, c1) {
                if p1 < p2 <= s.len() {
                    assert forall|i: int| 0 <= i < items.push(v).len() implies well_formed(
                        #[trigger] items.push(v)[i],
                    ) by {
                        if i < items.len() {
                            assert(items.push(v)[i] == items[i]);
                        }
                    }
                    lemma_tag_items_done(s, p2, c2, name, items.push(v));
                }
            }
        }
    }
}

/// A sum that is read is well formed.
proof fn lemma_tag_done(s: Seq<char>, pos: int, col: int)
    ensures
        tag(s, pos, col) matches Step::Done { value: v, pos: p, .. } ==> pos < p <= s.len()
            && well_formed(v),
    decreases s.len() - pos, 2int,
{
    if 0 <= pos <= s.len() {
        lemma_skip_ws_bounds(s, pos, col, false);
        let (p1, c1) = skip_ws(s, pos, col, false);
        if p1 < s.len() {
            let c = s[p1];
            let p2 = p1 + 1;
            let c2 = next_col(c, c1);
            lemma_string_literal_done(s, p2, c2, Seq::empty());
            lemma_bare_word_done(s, p2, c2, seq![c]);
            let name = if c == '"' {
                string_literal(s, p2, c2, Seq::empty())
            } else if alphabetic(c) {
                bare_word(s, p2, c2, seq![c])
            } else {
                Step::Fail { message: msg_tag_char(c), col: c2 }
            };
            if let Step::Done { value: t, pos: p3, col: c3 } = name {
                lemma_tag_items_done(s, p3, c3, t, Seq::empty());
            }
        }
    }
}

/// The rest of a map, with ascending keys and well-formed values so far, is well
/// formed.
proof fn lemma_map_done(
    s: Seq<char>,
    pos: int,
    col: int,
    entries: Seq<(Seq<char>, ValueModel)>,
)
    requires
        keys_ascending(entries),
        forall|i: int| 0 <= i < entries.len() ==> well_formed(#[trigger] entries[i].1),
    ensures
        map_entries(s, pos, col, entries) matches Step::Done { value: v, pos: p, .. } ==> pos < p
            <= s.len() && well_formed(v),
    decreases s.len() - pos, 1int,
{
    if 0 <= pos <= s.len() {
        lemma_skip_ws_bounds(s, pos, col, false);
        let (p1, c1) = skip_ws(s, pos, col, false);
        if !(p1 < s.len() && s[p1] == '}') {
            lemma_value_done(s, p1, c1);
            if let Step::Done { value: k, pos: p2, col: c2 } = value(s, p1, c1) {
                if p1 < p2 <= s.len() {
                    if let ValueModel::String(key) = k {
                        lemma_skip_ws_bounds(s, p2, c2, false);
                        let (p3, c3) = skip_ws(s, p2, c2, false);
                        lemma_value_done(s, p3, c3);
                        if let Step::Done { value: v, pos: p4, col: c4 } = value(s, p3, c3) {
                            if p3 < p4 <= s.len() && !has_key(entries, key) {
                                lemma_insert_keeps_ascending(entries, key, v);
                                let next = insert_entry(entries, key, v);
                                let i = insertion_index(entries, key);
                                lemma_insertion_index_facts(entries, key);
                                assert forall|j: int| 0 <= j < next.len() implies well_formed(
                                    #[trigger] next[j].1,
                                ) by {
                                    if j < i {
                                        assert(next[j] == entries[j]);
                                    } else if j > i {
                                        assert(next[j] == entries[j - 1]);
                                    }
                                }
                                lemma_map_done(s, p4, c4, next);
                            }
                        }
                    }
                }
            }
        }
    }
}

/// Every map in a parsed document has its keys in strictly ascending order, so no
/// key occurs twice in it: a repeated key is a parse error.
pub proof fn law_parsed_maps_have_distinct_keys(s: Seq<char>)
    ensures
        document(s) matches Step::Done { value: v, .. } ==> well_formed(v),
{
    lemma_skip_ws_bounds(s, 0, 0, false);
    let (p1, c1) = skip_ws(s, 0, 0, false);
    lemma_value_done(s, p1, c1);
}

/// The value of the digits of `t` in base `base`, continuing from `num`; each `_` is
/// passed over.
pub open spec fn digits_value(num: int, t: Seq<char>, base: nat) -> int
    decreases t.len(),
{
    if t.len() == 0 {
        num
    } else if t[0] == '_' {
        digits_value(num, t.drop_first(), base)
    } else {
        digits_value(num * base + digit_value(t[0]), t.drop_first(), base)
    }
}

/// Every character of `t` is a digit in base `base` or an `_`.
pub open spec fn numeral(t: Seq<char>, base: nat) -> bool {
    forall|i: int| 0 <= i < t.len() ==> digit_value(#[trigger] t[i]) < base || t[i] == '_'
}

/// `t` with every `_` taken out.
pub open spec fn without_underscores(t: Seq<char>) -> Seq<char>
    decreases t.len(),
{
    if t.len() == 0 {
        t
    } else if t[0] == '_' {
        without_underscores(t.drop_first())
    } else {
        seq![t[0]] + without_underscores(t.drop_first())
    }
}

/// More digits never make a value smaller.
pub(crate) proof fn lemma_digits_value_grows(num: int, t: Seq<char>, base: nat)
    requires
        0 <= num,
        1 <= base,
    ensures
        num <= digits_value(num, t, base),
    decreases t.len(),
{
    if t.len() > 0 {
        if t[0] == '_' {
            lemma_digits_value_grows(num, t.drop_first(), base);
        } else {
            assert(num <= num * base) by (nonlinear_arith)
                requires
                    0 <= num,
                    1 <= base,
            ;
            lemma_digits_value_grows(num * base + digit_value(t[0]), t.drop_first(), base);
        }
    }
}

/// A number read from `pos` is the longest run of digits and `_` there, ended by the
/// end of the input, white space or one of `[ ] ( ) { } #`; its value is that of its
/// digits.
pub proof fn law_number_token(s: Seq<char>, pos: int, col: int, num: int, base: nat)
    requires
        0 <= pos <= s.len(),
        base <= 36,
    ensures
        number(s, pos, col, num, base) matches Step::Done { value: v, pos: p, .. } ==> {
            &&& pos <= p <= s.len()
            &&& numeral(s.subrange(pos, p), base)
            &&& v == digits_value(num, s.subrange(pos, p), base) as i64
            &&& p == s.len() || white_space(s[p]) || special(s[p])
        },
    decreases s.len() - pos,
{
    if pos < s.len() {
        let c = s[pos];
        let next = if digit_value(c) < base {
            num * base + digit_value(c)
        } else {
            num
        };
        if digit_value(c) < base || (c == '_' && !white_space(c) && !special(c)) {
            if digit_value(c) < base && next > i64::MAX {
            } else {
                law_number_token(s, pos + 1, next_col(c, col), next, base);
                if let Step::Done { value: v, pos: p, .. } = number(s, pos, col, num, base) {
                    let t = s.subrange(pos, p);
                    assert(t.drop_first() =~= s.subrange(pos + 1, p));
                    assert(t[0] == c);
                    assert forall|i: int| 0 <= i < t.len() implies digit_value(#[trigger] t[i]) < base
                        || t[i] == '_' by {
                        if i > 0 {
                            assert(t[i] == s.subrange(pos + 1, p)[i - 1]);
                        }
                    }
                }
            }
        } else {
            if let Step::Done { value: v, pos: p, .. } = number(s, pos, col, num, base) {
                assert(s.subrange(pos, p) =~= Seq::<char>::empty());
                assert(digits_value(num, s.subrange(pos, p), base) == num);
            }
        }
    } else {
        assert(s.subrange(pos, pos) =~= Seq::<char>::empty());
        assert(digits_value(num, s.subrange(pos, pos), base) == num);
    }
}

/// Reading a numeral that runs to the end of the input aborts exactly when its value
/// does not fit in an `i64`, and otherwise gives that value.
proof fn lemma_numeral_to_end(s: Seq<char>, pos: int, col: int, num: int, base: nat)
    requires
        0 <= pos <= s.len(),
        0 <= num <= i64::MAX,
        2 <= base <= 36,
        numeral(s.skip(pos), base),
    ensures
        number(s, pos, col, num, base) is Done || number(s, pos, col, num, base) is Abort,
        number(s, pos, col, num, base) is Abort <==> digits_value(num, s.skip(pos), base) > i64::MAX,
        number(s, pos, col, num, base) matches Step::Done { value: v, .. } ==> v == digits_value(
            num,
            s.skip(pos),
            base,
        ),
    decreases s.len() - pos,
{
    let t = s.skip(pos);
    if pos < s.len() {
        let c = s[pos];
        assert(t[0] == c);
        assert(t.drop_first() =~= s.skip(pos + 1));
        assert forall|i: int| 0 <= i < s.skip(pos + 1).len() implies digit_value(
            #[trigger] s.skip(pos + 1)[i],
        ) < base || s.skip(pos + 1)[i] == '_' by {
            assert(s.skip(pos + 1)[i] == t[i + 1]);
        }
        if digit_value(c) < base {
            let next = num * base + digit_value(c);
            if next > i64::MAX {
                lemma_digits_value_grows(next, s.skip(pos + 1), base);
            } else {
                assert(0 <= next) by (nonlinear_arith)
                    requires
                        0 <= num,
                        0 <= base,
                        next == num * base + digit_value(c),
                ;
                lemma_numeral_to_end(s, pos + 1, next_col(c, col), next, base);
            }
        } else {
            assert(c == '_');
            lemma_numeral_to_end(s, pos + 1, next_col(c, col), num, base);
        }
    }
}

/// Passing over `_` leaves the value of digits unchanged.
proof fn lemma_digits_value_without_underscores(num: int, t: Seq<char>, base: nat)
    ensures
        digits_value(num, t, base) == digits_value(num, without_underscores(t), base),
        numeral(t, base) ==> numeral(without_underscores(t), base),
        forall|i: int| 0 <= i < without_underscores(t).len() ==> #[trigger] without_underscores(t)[i] != '_',
    decreases t.len(),
{
    if t.len() > 0 {
        let rest = t.drop_first();
        if t[0] != '_' {
            lemma_digits_value_without_underscores(num * base + digit_value(t[0]), rest, base);
            let w = without_underscores(t);
            assert(w.drop_first() =~= without_underscores(rest));
            assert(w[0] == t[0]);
        } else {
            lemma_digits_value_without_underscores(num, rest, base);
        }
        if numeral(t, base) {
            assert forall|i: int| 0 <= i < rest.len() implies digit_value(#[trigger] rest[i]) < base
                || rest[i] == '_' by {
                assert(rest[i] == t[i + 1]);
            }
        }
        let w = without_underscores(t);
        if t[0] != '_' {
            assert forall|i: int| 0 <= i < w.len() implies #[trigger] w[i] != '_' && (numeral(t, base) ==> digit_value(w[i]) < base) by {
                if i > 0 {
                    assert(w[i] == without_underscores(rest)[i - 1]);
                }
            }
        }
    }
}

/// An `_` in a numeral is ignored: a numeral read to the end of the input gives the
/// same value, or fails to fit in an `i64` alike, with its underscores taken out.
pub proof fn law_underscores_ignored(t: Seq<char>, base: nat, col: int, col2: int)
    requires
        2 <= base <= 36,
        numeral(t, base),
    ensures
        number(t, 0, col, 0, base) is Abort <==> number(without_underscores(t), 0, col2, 0, base) is Abort,
        number(t, 0, col, 0, base) matches Step::Done { value: v, .. } ==> number(
            without_underscores(t),
            0,
            col2,
            0,
            base,
        ) matches Step::Done { value: w, .. } && w == v,
{
    let u = without_underscores(t);
    assert(!white_space('_') && !special('_'));
    lemma_digits_value_without_underscores(0, t, base);
    assert(t.skip(0) =~= t);
    assert(u.skip(0) =~= u);
    lemma_numeral_to_end(t, 0, col, 0, base);
    lemma_numeral_to_end(u, 0, col2, 0, base);
    law_number_token(t, 0, col, 0, base);
    law_number_token(u, 0, col2, 0, base);
}

/// The prefix `0d` before a decimal numeral that starts with a non-zero digit changes
/// nothing: the value read, and where reading ends, are the same without it.
pub proof fn law_decimal_prefix_redundant(s: Seq<char>, pos: int, col: int)
    requires
        0 <= pos,
        pos + 2 < s.len(),
        s[pos] == '0',
        s[pos + 1] == 'd' || s[pos + 1] == 'D',
        '1' <= s[pos + 2] <= '9',
    ensures
        value(s, pos, col) == value(s, pos + 2, col + 2),
{
    let c = s[pos + 2];
    assert(number(s, pos + 2, col + 2, 0, 10) == number(s, pos + 3, col + 3, digit_value(c) as int, 10));
}

/// A bare word is the longest run of alphanumeric characters and `_` after its first
/// character, ended by the end of the input, white space or one of `[ ] ( ) { } #`.
pub proof fn law_bare_word_shape(s: Seq<char>, pos: int, col: int, buf: Seq<char>)
    requires
        0 <= pos <= s.len(),
    ensures
        bare_word(s, pos, col, buf) matches Step::Done { value: w, pos: p, .. } ==> {
            &&& pos <= p <= s.len()
            &&& w == buf + s.subrange(pos, p)
            &&& forall|i: int| pos <= i < p ==> alphanumeric(#[trigger] s[i]) || s[i] == '_'
            &&& p == s.len() || white_space(s[p]) || special(s[p])
        },
    decreases s.len() - pos,
{
    if pos < s.len() {
        let c = s[pos];
        if alphanumeric(c) || c == '_' {
            law_bare_word_shape(s, pos + 1, next_col(c, col), buf.push(c));
            if let Step::Done { value: w, pos: p, .. } = bare_word(s, pos, col, buf) {
                assert(buf.push(c) + s.subrange(pos + 1, p) =~= buf + s.subrange(pos, p));
            }
        } else if let Step::Done { value: w, pos: p, .. } = bare_word(s, pos, col, buf) {
            assert(buf + s.subrange(pos, p) =~= buf);
        }
    } else {
        assert(buf + s.subrange(pos, pos) =~= buf);
    }
}

/// A run of alphanumeric characters and `_` followed by the end of the input, white
/// space or one of `[ ] ( ) { } #` is read as a bare word that stops right there.
pub proof fn law_bare_word_stops(s: Seq<char>, pos: int, col: int, buf: Seq<char>, end: int)
    requires
        0 <= pos <= end <= s.len(),
        forall|i: int| pos <= i < end ==> alphanumeric(#[trigger] s[i]) || s[i] == '_',
        end == s.len() || white_space(s[end]) || special(s[end]),
    ensures
        bare_word(s, pos, col, buf) matches Step::Done { value: w, pos: p, .. } && w == buf
            + s.subrange(pos, end) && p == end,
    decreases end - pos,
{
    if pos < end {
        let c = s[pos];
        law_bare_word_stops(s, pos + 1, next_col(c, col), buf.push(c), end);
        assert(buf.push(c) + s.subrange(pos + 1, end) =~= buf + s.subrange(pos, end));
    } else {
        assert(buf + s.subrange(pos, end) =~= buf);
    }
}

/// A quoted string without backslashes reads back its characters as they stand.
pub proof fn law_plain_quoted_string(s: Seq<char>, pos: int, col: int, buf: Seq<char>, end: int)
    requires
        0 <= pos <= end < s.len(),
        s[end] == '"',
        forall|i: int| pos <= i < end ==> #[trigger] s[i] != '"' && s[i] != '\\',
    ensures
        string_literal(s, pos, col, buf) matches Step::Done { value: w, pos: p, .. } && w == buf
            + s.subrange(pos, end) && p == end + 1,
    decreases end - pos,
{
    if pos < end {
        let c = s[pos];
        law_plain_quoted_string(s, pos + 1, next_col(c, col), buf.push(c), end);
        assert(buf.push(c) + s.subrange(pos + 1, end) =~= buf + s.subrange(pos, end));
    } else {
        assert(buf + s.subrange(pos, end) =~= buf);
    }
}

/// Two columns that differ by the shift `d`, or agree (once a line break has been
/// read).
pub(crate) open spec fn col_rel(c: int, c2: int, d: int) -> bool {
    c2 == c + d || c2 == c
}

/// The step `b` is the step `a` read `k` characters further on and `d` columns
/// further right: the same value at a shifted position, the same message, or both
/// out of reach.
pub(crate) open spec fn step_rel<A>(a: Step<A>, b: Step<A>, k: int, d: int) -> bool {
    match a {
        Step::Done { value, pos, col } => b matches Step::Done { value: v2, pos: p2, col: c2 } && v2
            == value && p2 == pos + k && col_rel(col, c2, d),
        Step::Fail { message, col } => b matches Step::Fail { message: m2, col: c2 } && m2
            == message && col_rel(col, c2, d),
        Step::Abort => b is Abort,
    }
}

pub(crate) proof fn lemma_shift_skip_ws(w: Seq<char>, s: Seq<char>, pos: int, col: int, d: int, in_comment: bool)
    requires
        0 <= pos <= s.len(),
    ensures
        ({
            let (p, c) = skip_ws(s, pos, col, in_comment);
            let (p2, c2) = skip_ws(w + s, pos + w.len(), col + d, in_comment);
            p2 == p + w.len() && col_rel(c, c2, d)
        }),
    decreases s.len() - pos,
{
    let t = w + s;
    let k = w.len() as int;
    if pos < s.len() {
        assert(t[pos + k] == s[pos]);
        let c = s[pos];
        if in_comment {
            if c == '\n' {
                lemma_shift_skip_ws(w, s, pos + 1, 0, 0, false);
            } else {
                lemma_shift_skip_ws(w, s, pos + 1, col + 1, d, true);
            }
        } else if white_space(c) {
            if c == '\n' {
                lemma_shift_skip_ws(w, s, pos + 1, 0, 0, false);
            } else {
                lemma_shift_skip_ws(w, s, pos + 1, col + 1, d, false);
            }
        } else if c == '#' {
            lemma_shift_skip_ws(w, s, pos + 1, col + 1, d, true);
        }
    }
}

proof fn lemma_shift_string_literal(w: Seq<char>, s: Seq<char>, pos: int, col: int, d: int, buf: Seq<char>)
    requires
        0 <= pos <= s.len(),
    ensures
        step_rel(string_literal(s, pos, col, buf), string_literal(w + s, pos + w.len(), col + d, buf), w.len() as int, d),
    decreases s.len() - pos,
{
    let t = w + s;
    let k = w.len() as int;
    if pos < s.len() {
        assert(t[pos + k] == s[pos]);
        let c = s[pos];
        let d1 = if c == '\n' { 0 } else { d };
        let c1 = next_col(c, col);
        if c == '\\' {
            if pos + 1 < s.len() {
                assert(t[pos + 1 + k] == s[pos + 1]);
                let e = s[pos + 1];
                let d2 = if e == '\n' { 0 } else { d };
                if let Some(x) = escaped(e) {
                    lemma_shift_string_literal(w, s, pos + 2, next_col(e, c1), d2, buf.push(x));
                }
            }
        } else if c != '"' {
            lemma_shift_string_literal(w, s, pos + 1, c1, d1, buf.push(c));
        }
    }
}

proof fn lemma_shift_bare_word(w: Seq<char>, s: Seq<char>, pos: int, col: int, d: int, buf: Seq<char>)
    requires
        0 <= pos <= s.len(),
    ensures
        step_rel(bare_word(s, pos, col, buf), bare_word(w + s, pos + w.len(), col + d, buf), w.len() as int, d),
    decreases s.len() - pos,
{
    let t = w + s;
    let k = w.len() as int;
    if pos < s.len() {
        assert(t[pos + k] == s[pos]);
        let c = s[pos];
        let d1 = if c == '\n' { 0 } else { d };
        if alphanumeric(c) || c == '_' {
            lemma_shift_bare_word(w, s, pos + 1, next_col(c, col), d1, buf.push(c));
        }
    }
}

proof fn lemma_shift_number(w: Seq<char>, s: Seq<char>, pos: int, col: int, d: int, num: int, base: nat)
    requires
        0 <= pos <= s.len(),
    ensures
        step_rel(number(s, pos, col, num, base), number(w + s, pos + w.len(), col + d, num, base), w.len() as int, d),
    decreases s.len() - pos,
{
    let t = w + s;
    let k = w.len() as int;
    if pos < s.len() {
        assert(t[pos + k] == s[pos]);
        let c = s[pos];
        let d1 = if c == '\n' { 0 } else { d };
        if digit_value(c) < base {
            lemma_shift_number(w, s, pos + 1, next_col(c, col), d1, num * base + digit_value(c), base);
        } else if c == '_' {
            lemma_shift_number(w, s, pos + 1, next_col(c, col), d1, num, base);
        }
    }
}

pub(crate) proof fn lemma_shift_value(w: Seq<char>, s: Seq<char>, pos: int, col: int, d: int)
    requires
        0 <= pos,
    ensures
        step_rel(value(s, pos, col), value(w + s, pos + w.len(), col + d), w.len() as int, d),
    decreases s.len() - pos, 0int,
{
    let t = w + s;
    let k = w.len() as int;
    if pos < s.len() {
        assert(t[pos + k] == s[pos]);
        let c = s[pos];
        let p1 = pos + 1;
        let c1 = next_col(c, col);
        let d1 = next_col(c, col + d) - c1;
        if c == '[' {
            lemma_shift_list(w, s, p1, c1, d1, Seq::empty());
        } else if c == '(' {
            lemma_shift_tag(w, s, p1, c1, d1);
        } else if c == '{' {
            lemma_shift_map(w, s, p1, c1, d1, Seq::empty());
        } else if c == '"' {
            lemma_shift_string_literal(w, s, p1, c1, d1, Seq::empty());
        } else if c == '0' {
            if p1 < s.len() {
                assert(t[p1 + k] == s[p1]);
            }
            if p1 < s.len() && radix_of(s[p1]) is Some {
                let d2 = next_col(s[p1], c1 + d1) - next_col(s[p1], c1);
                lemma_shift_number(w, s, p1 + 1, next_col(s[p1], c1), d2, 0, radix_of(s[p1])->0);
            } else {
                lemma_shift_number(w, s, p1, c1, d1, 0, 10);
            }
        } else if '0' <= c && c <= '9' {
            lemma_shift_number(w, s, p1, c1, d1, digit_value(c) as int, 10);
        } else if alphabetic(c) {
            lemma_shift_bare_word(w, s, p1, c1, d1, seq![c]);
        }
    }
}

proof fn lemma_shift_list(w: Seq<char>, s: Seq<char>, pos: int, col: int, d: int, items: Seq<ValueModel>)
    requires
        0 <= pos,
    ensures
        step_rel(list(s, pos, col, items), list(w + s, pos + w.len(), col + d, items), w.len() as int, d),
    decreases s.len() - pos, 1int,
{
    let t = w + s;
    let k = w.len() as int;
    if pos <= s.len() {
        lemma_skip_ws_bounds(s, pos, col, false);
        lemma_shift_skip_ws(w, s, pos, col, d, false);
        let (p1, c1) = skip_ws(s, pos, col, false);
        let (q1, e1) = skip_ws(t, pos + k, col + d, false);
        if p1 < s.len() {
            assert(t[p1 + k] == s[p1]);
        }
        if !(p1 < s.len() && s[p1] == ']') {
            lemma_shift_value(w, s, p1, c1, e1 - c1);
            if let Step::Done { value: v, pos: p2, col: c2 } = value(s, p1, c1) {
                if let Step::Done { value: v2, pos: q2, col: e2 } = value(t, q1, e1) {
                    if p1 < p2 <= s.len() {
                        lemma_shift_list(w, s, p2, c2, e2 - c2, items.push(v));
                    }
                }
            }
        }
    }
}

proof fn lemma_shift_tag_items(
    w: Seq<char>,
    s: Seq<char>,
    pos: int,
    col: int,
    d: int,
    name: Seq<char>,
    items: Seq<ValueModel>,
)
    requires
        0 <= pos,
    ensures
        step_rel(tag_items(s, pos, col, name, items), tag_items(w + s, pos + w.len(), col + d, name, items), w.len() as int, d),
    decreases s.len() - pos, 1int,
{
    let t = w + s;
    let k = w.len() as int;
    if pos <= s.len() {
        lemma_skip_ws_bounds(s, pos, col, false);
        lemma_shift_skip_ws(w, s, pos, col, d, false);
        let (p1, c1) = skip_ws(s, pos, col, false);
        let (q1, e1) = skip_ws(t, pos + k, col + d, false);
        if p1 < s.len() {
            assert(t[p1 + k] == s[p1]);
        }
        if !(p1 < s.len() && s[p1] == ')') {
            lemma_shift_value(w, s, p1, c1, e1 - c1);
            if let Step::Done { value: v, pos: p2, col: c2 } = value(s, p1, c1) {
                if let Step::Done { value: v2, pos: q2, col: e2 } = value(t, q1, e1) {
                    if p1 < p2 <= s.len() {
                        lemma_shift_tag_items(w, s, p2, c2, e2 - c2, name, items.push(v));
                    }
                }
            }
        }
    }
}

proof fn lemma_shift_tag(w: Seq<char>, s: Seq<char>, pos: int, col: int, d: int)
    requires
        0 <= pos,
    ensures
        step_rel(tag(s, pos, col), tag(w + s, pos + w.len(), col + d), w.len() as int, d),
    decreases s.len() - pos, 2int,
{
    let t = w + s;
    let k = w.len() as int;
    if pos <= s.len() {
        lemma_skip_ws_bounds(s, pos, col, false);
        lemma_shift_skip_ws(w, s, pos, col, d, false);
        let (p1, c1) = skip_ws(s, pos, col, false);
        let (q1, e1) = skip_ws(t, pos + k, col + d, false);
        if p1 < s.len() {
            assert(t[p1 + k] == s[p1]);
            let c = s[p1];
            let p2 = p1 + 1;
            let c2 = next_col(c, c1);
            let e2 = next_col(c, e1);
            lemma_shift_string_literal(w, s, p2, c2, e2 - c2, Seq::empty());
            lemma_shift_bare_word(w, s, p2, c2, e2 - c2, seq![c]);
            lemma_string_literal_done(s, p2, c2, Seq::empty());
            lemma_bare_word_done(s, p2, c2, seq![c]);
            let name = if c == '"' {
                string_literal(s, p2, c2, Seq::empty())
            } else if alphabetic(c) {
                bare_word(s, p2, c2, seq![c])
            } else {
                Step::Fail { message: msg_tag_char(c), col: c2 }
            };
            let name2 = if c == '"' {
                string_literal(t, p2 + k, e2, Seq::empty())
            } else if alphabetic(c) {
                bare_word(t, p2 + k, e2, seq![c])
            } else {
                Step::Fail { message: msg_tag_char(c), col: e2 }
            };
            if let Step::Done { value: n, pos: p3, col: c3 } = name {
                if let Step::Done { value: n2, pos: q3, col: e3 } = name2 {
                    lemma_shift_tag_items(w, s, p3, c3, e3 - c3, n, Seq::empty());
                }
            }
        }
    }
}

#[verifier::spinoff_prover]
#[verifier::rlimit(40)]
proof fn lemma_shift_map(
    w: Seq<char>,
    s: Seq<char>,
    pos: int,
    col: int,
    d: int,
    entries: Seq<(Seq<char>, ValueModel)>,
)
    requires
        0 <= pos,
    ensures
        step_rel(map_entries(s, pos, col, entries), map_entries(w + s, pos + w.len(), col + d, entries), w.len() as int, d),
    decreases s.len() - pos, 1int,
{
    let t = w + s;
    let k = w.len() as int;
    if pos <= s.len() {
        lemma_skip_ws_bounds(s, pos, col, false);
        lemma_shift_skip_ws(w, s, pos, col, d, false);
        let (p1, c1) = skip_ws(s, pos, col, false);
        let (q1, e1) = skip_ws(t, pos + k, col + d, false);
        if p1 < s.len() {
            assert(t[p1 + k] == s[p1]);
        }
        if !(p1 < s.len() && s[p1] == '}') {
            lemma_shift_value(w, s, p1, c1, e1 - c1);
            if let Step::Done { value: key_value, pos: p2, col: c2 } = value(s, p1, c1) {
                if let Step::Done { value: kv2, pos: q2, col: e2 } = value(t, q1, e1) {
                    if p1 < p2 <= s.len() {
                        if let ValueModel::String(key) = key_value {
                            lemma_skip_ws_bounds(s, p2, c2, false);
                            lemma_shift_skip_ws(w, s, p2, c2, e2 - c2, false);
                            let (p3, c3) = skip_ws(s, p2, c2, false);
                            let (q3, e3) = skip_ws(t, q2, e2, false);
                            lemma_shift_value(w, s, p3, c3, e3 - c3);
                            if let Step::Done { value: v, pos: p4, col: c4 } = value(s, p3, c3) {
                                if let Step::Done { value: v2, pos: q4, col: e4 } = value(t, q3, e3) {
                                    if p3 < p4 <= s.len() && !has_key(entries, key) {
                                        lemma_shift_map(w, s, p4, c4, e4 - c4, insert_entry(entries, key, v));
                                    }
                                }
                            }
                        }
                    }
                }
            }
        }
    }
}

/// From index `i` on (inside a comment when `in_comment`), `w` is white space and
/// comments, each comment ended by a line break.
pub open spec fn blank_from(w: Seq<char>, i: int, in_comment: bool) -> bool
    decreases w.len() - i,
{
    if i < 0 || i >= w.len() {
        !in_comment
    } else if in_comment {
        blank_from(w, i + 1, w[i] != '\n')
    } else if white_space(w[i]) {
        blank_from(w, i + 1, false)
    } else if w[i] == '#' {
        blank_from(w, i + 1, true)
    } else {
        false
    }
}

/// `w` is white space and comments, each comment ended by a line break.
pub open spec fn blank(w: Seq<char>) -> bool {
    blank_from(w, 0, false)
}

/// The two outcomes are alike but for positions and columns: the same value, the
/// same error message, or both out of reach.
pub open spec fn same_outcome(a: Step<ValueModel>, b: Step<ValueModel>) -> bool {
    match a {
        Step::Done { value, .. } => b matches Step::Done { value: v2, .. } && v2 == value,
        Step::Fail { message, .. } => b matches Step::Fail { message: m2, .. } && m2 == message,
        Step::Abort => b is Abort,
    }
}

/// Skipping from inside a blank prefix goes through its end.
proof fn lemma_skip_blank(w: Seq<char>, s: Seq<char>, i: int, col: int, in_comment: bool) -> (cw: int)
    requires
        0 <= i <= w.len(),
        blank_from(w, i, in_comment),
    ensures
        skip_ws(w + s, i, col, in_comment) == skip_ws(w + s, w.len() as int, cw, false),
    decreases w.len() - i,
{
    let t = w + s;
    if i == w.len() {
        col
    } else {
        assert(t[i] == w[i]);
        let c = w[i];
        if in_comment {
            if c == '\n' {
                lemma_skip_blank(w, s, i + 1, 0, false)
            } else {
                lemma_skip_blank(w, s, i + 1, col + 1, true)
            }
        } else if white_space(c) {
            lemma_skip_blank(w, s, i + 1, next_col(c, col), false)
        } else {
            lemma_skip_blank(w, s, i + 1, col + 1, true)
        }
    }
}

/// White space and comments before a document change nothing but the columns that
/// errors report: the value read, or the error message, is the same.
pub proof fn law_blank_prefix(w: Seq<char>, s: Seq<char>)
    requires
        blank(w),
    ensures
        same_outcome(document(s), document(w + s)),
{
    let t = w + s;
    let k = w.len() as int;
    let cw = lemma_skip_blank(w, s, 0, 0, false);
    lemma_skip_ws_bounds(s, 0, 0, false);
    lemma_shift_skip_ws(w, s, 0, 0, cw, false);
    assert(0 + k == k);
    let (p1, c1) = skip_ws(s, 0, 0, false);
    let (q1, e1) = skip_ws(t, 0, 0, false);
    lemma_shift_value(w, s, p1, c1, e1 - c1);
    lemma_value_done(s, p1, c1);
    if let Step::Done { value: v, pos: p2, col: c2 } = value(s, p1, c1) {
        if let Step::Done { value: v2, pos: q2, col: e2 } = value(t, q1, e1) {
            lemma_skip_ws_bounds(s, p2, c2, false);
            lemma_shift_skip_ws(w, s, p2, c2, e2 - c2, false);
            let (p3, c3) = skip_ws(s, p2, c2, false);
            if p3 < s.len() {
                assert(t[p3 + k] == s[p3]);
            }
        }
    }
}

/// Two maps with keys ascending that hold the same entries are equal.
proof fn lemma_ascending_unique(a: Seq<(Seq<char>, ValueModel)>, b: Seq<(Seq<char>, ValueModel)>)
    requires
        keys_ascending(a),
        keys_ascending(b),
        forall|e: (Seq<char>, ValueModel)| a.contains(e) <==> b.contains(e),
    ensures
        a == b,
    decreases a.len(),
{
    if a.len() == 0 {
        if b.len() > 0 {
            assert(b.contains(b[0]));
        }
        assert(a =~= b);
    } else if b.len() == 0 {
        assert(a.contains(a[0]));
    } else {
        assert(a.contains(a[0]));
        assert(b.contains(b[0]));
        let i = choose|i: int| 0 <= i < b.len() && b[i] == a[0];
        let j = choose|j: int| 0 <= j < a.len() && a[j] == b[0];
        if i > 0 && j > 0 {
            assert(chars_less(b[0].0, b[i].0));
            assert(chars_less(a[0].0, a[j].0));
            lemma_chars_less_transitive(b[0].0, a[0].0, b[0].0);
            lemma_chars_less_irreflexive(b[0].0);
        } else if i > 0 {
            assert(a[0] == b[0]);
        }
        assert(a[0] == b[0]);
        let a1 = a.drop_first();
        let b1 = b.drop_first();
        assert forall|e: (Seq<char>, ValueModel)| a1.contains(e) <==> b1.contains(e) by {
            if a1.contains(e) {
                let x = choose|x: int| 0 <= x < a1.len() && a1[x] == e;
                assert(a.contains(e) && a[x + 1] == e);
                let y = choose|y: int| 0 <= y < b.len() && b[y] == e;
                if y == 0 {
                    assert(chars_less(a[0].0, a[x + 1].0));
                    lemma_chars_less_irreflexive(a[0].0);
                }
                assert(b1[y - 1] == e);
            }
            if b1.contains(e) {
                let x = choose|x: int| 0 <= x < b1.len() && b1[x] == e;
                assert(b.contains(e) && b[x + 1] == e);
                let y = choose|y: int| 0 <= y < a.len() && a[y] == e;
                if y == 0 {
                    assert(chars_less(b[0].0, b[x + 1].0));
                    lemma_chars_less_irreflexive(b[0].0);
                }
                assert(a1[y - 1] == e);
            }
        }
        assert forall|x: int, y: int| 0 <= x < y < a1.len() implies chars_less(#[trigger] a1[x].0, #[trigger] a1[y].0) by {
            assert(a1[x] == a[x + 1] && a1[y] == a[y + 1]);
        }
        assert forall|x: int, y: int| 0 <= x < y < b1.len() implies chars_less(#[trigger] b1[x].0, #[trigger] b1[y].0) by {
            assert(b1[x] == b[x + 1] && b1[y] == b[y + 1]);
        }
        lemma_ascending_unique(a1, b1);
        assert(a =~= seq![a[0]] + a1);
        assert(b =~= seq![b[0]] + b1);
    }
}

/// The entries of a map after an insertion are those before it and the new one.
pub(crate) proof fn lemma_insert_contents(es: Seq<(Seq<char>, ValueModel)>, k: Seq<char>, v: ValueModel)
    ensures
        forall|e: (Seq<char>, ValueModel)| #[trigger] insert_entry(es, k, v).contains(e) <==> (es.contains(e) || e == (k, v)),
{
    lemma_insertion_index_facts(es, k);
    let i = insertion_index(es, k);
    let r = insert_entry(es, k, v);
    assert forall|e: (Seq<char>, ValueModel)| #[trigger] r.contains(e) <==> (es.contains(e) || e == (k, v)) by {
        if r.contains(e) {
            let x = choose|x: int| 0 <= x < r.len() && r[x] == e;
            if x < i {
                assert(es[x] == e);
            } else if x > i {
                assert(es[x - 1] == e);
            }
        }
        if es.contains(e) {
            let x = choose|x: int| 0 <= x < es.len() && es[x] == e;
            if x < i {
                assert(r[x] == e);
            } else {
                assert(r[x + 1] == e);
            }
        }
        if e == (k, v) {
            assert(r[i] == e);
        }
    }
}

/// The order in which the entries of a map are read does not matter: inserting two
/// entries with different keys, neither present, gives the same map either way.
pub proof fn law_map_insert_order_irrelevant(
    es: Seq<(Seq<char>, ValueModel)>,
    k1: Seq<char>,
    v1: ValueModel,
    k2: Seq<char>,
    v2: ValueModel,
)
    requires
        keys_ascending(es),
        !has_key(es, k1),
        !has_key(es, k2),
        k1 != k2,
    ensures
        insert_entry(insert_entry(es, k1, v1), k2, v2) == insert_entry(insert_entry(es, k2, v2), k1, v1),
{
    let a1 = insert_entry(es, k1, v1);
    let b1 = insert_entry(es, k2, v2);
    lemma_insert_keeps_ascending(es, k1, v1);
    lemma_insert_keeps_ascending(es, k2, v2);
    lemma_insert_contents(es, k1, v1);
    lemma_insert_contents(es, k2, v2);
    assert(!has_key(a1, k2)) by {
        if has_key(a1, k2) {
            let x = choose|x: int| 0 <= x < a1.len() && #[trigger] a1[x].0 == k2;
            assert(a1.contains(a1[x]));
            if es.contains(a1[x]) {
                let y = choose|y: int| 0 <= y < es.len() && es[y] == a1[x];
                assert(es[y].0 == k2);
            }
        }
    }
    assert(!has_key(b1, k1)) by {
        if has_key(b1, k1) {
            let x = choose|x: int| 0 <= x < b1.len() && #[trigger] b1[x].0 == k1;
            assert(b1.contains(b1[x]));
            if es.contains(b1[x]) {
                let y = choose|y: int| 0 <= y < es.len() && es[y] == b1[x];
                assert(es[y].0 == k1);
            }
        }
    }
    lemma_insert_keeps_ascending(a1, k2, v2);
    lemma_insert_keeps_ascending(b1, k1, v1);
    lemma_insert_contents(a1, k2, v2);
    lemma_insert_contents(b1, k1, v1);
    lemma_ascending_unique(insert_entry(a1, k2, v2), insert_entry(b1, k1, v1));
}

/// `x` written inside a quoted string: a backslash before each `\` and each `"`.
pub open spec fn escape_text(x: Seq<char>) -> Seq<char>
    decreases x.len(),
{
    if x.len() == 0 {
        x
    } else {
        let c = x[0];
        let head = if c == '\\' || c == '"' {
            seq!['\\', c]
        } else {
            seq![c]
        };
        head + escape_text(x.drop_first())
    }
}

pub(crate) proof fn lemma_read_escaped(s: Seq<char>, pos: int, col: int, buf: Seq<char>, x: Seq<char>)
    requires
        0 <= pos,
        pos + escape_text(x).len() < s.len(),
        s.subrange(pos, pos + escape_text(x).len()) == escape_text(x),
        s[pos + escape_text(x).len()] == '"',
    ensures
        string_literal(s, pos, col, buf) matches Step::Done { value: w, pos: p, .. } && w == buf + x
            && p == pos + escape_text(x).len() + 1,
    decreases x.len(),
{
    let e = escape_text(x);
    if x.len() == 0 {
        assert(buf + x =~= buf);
    } else {
        let c = x[0];
        let rest = x.drop_first();
        let er = escape_text(rest);
        if c == '\\' || c == '"' {
            assert(e =~= seq!['\\', c] + er);
            assert(s[pos] == e[0]);
            assert(s[pos + 1] == e[1]);
            assert(s.subrange(pos + 2, pos + 2 + er.len()) =~= er) by {
                assert forall|i: int| 0 <= i < er.len() implies s.subrange(pos + 2, pos + 2 + er.len())[i] == er[i] by {
                    assert(s.subrange(pos, pos + e.len())[i + 2] == e[i + 2]);
                }
            }
            lemma_read_escaped(s, pos + 2, next_col(c, col + 1), buf.push(c), rest);
        } else {
            assert(e =~= seq![c] + er);
            assert(s[pos] == e[0]);
            assert(s.subrange(pos + 1, pos + 1 + er.len()) =~= er) by {
                assert forall|i: int| 0 <= i < er.len() implies s.subrange(pos + 1, pos + 1 + er.len())[i] == er[i] by {
                    assert(s.subrange(pos, pos + e.len())[i + 1] == e[i + 1]);
                }
            }
            lemma_read_escaped(s, pos + 1, next_col(c, col), buf.push(c), rest);
        }
        assert(buf.push(c) + rest =~= buf + x);
    }
}

/// Reading a quoted string undoes escaping: any `x`, written with a backslash before
/// each `\` and `"` and followed by the closing quote, reads back as `x`, and reading
/// stops right after that quote.
pub proof fn law_escaping_undone(x: Seq<char>, t: Seq<char>, col: int)
    ensures
        string_literal(escape_text(x) + seq!['"'] + t, 0, col, Seq::empty()) matches Step::Done {
            value: w,
            pos: p,
            ..
        } && w == x && p == escape_text(x).len() + 1,
{
    let e = escape_text(x);
    let s = e + seq!['"'] + t;
    assert(s.subrange(0, e.len() as int) =~= e);
    lemma_read_escaped(s, 0, col, Seq::empty(), x);
    assert(Seq::<char>::empty() + x =~= x);
}

/// From index `i` on (inside a comment when `in_comment`), `w` is white space and
/// comments; the last comment may run to the end.
pub open spec fn trailing_blank_from(w: Seq<char>, i: int, in_comment: bool) -> bool
    decreases w.len() - i,
{
    if i < 0 || i >= w.len() {
        true
    } else if in_comment {
        trailing_blank_from(w, i + 1, w[i] != '\n')
    } else if white_space(w[i]) {
        trailing_blank_from(w, i + 1, false)
    } else if w[i] == '#' {
        trailing_blank_from(w, i + 1, true)
    } else {
        false
    }
}

/// `w` is white space and comments; the last comment may run to the end.
pub open spec fn trailing_blank(w: Seq<char>) -> bool {
    trailing_blank_from(w, 0, false)
}

/// Reading `s` reaches the end of the input inside a quoted string, from `pos` just
/// after its opening quote.
pub open spec fn string_open(s: Seq<char>, pos: int) -> bool
    decreases s.len() - pos,
{
    if pos < 0 || pos >= s.len() {
        true
    } else if s[pos] == '"' {
        false
    } else if s[pos] == '\\' {
        if pos + 1 >= s.len() {
            true
        } else if escaped(s[pos + 1]) is Some {
            string_open(s, pos + 2)
        } else {
            false
        }
    } else {
        string_open(s, pos + 1)
    }
}

/// Reading a value from `pos` reaches the end of the input inside a quoted string.
pub open spec fn value_open(s: Seq<char>, pos: int, col: int) -> bool
    decreases s.len() - pos, 0int,
{
    if 0 <= pos < s.len() {
        let c = s[pos];
        let c1 = next_col(c, col);
        if c == '[' {
            list_open(s, pos + 1, c1, Seq::empty())
        } else if c == '(' {
            tag_open(s, pos + 1, c1)
        } else if c == '{' {
            map_open(s, pos + 1, c1, Seq::empty())
        } else if c == '"' {
            string_open(s, pos + 1)
        } else {
            false
        }
    } else {
        false
    }
}

/// Reading the rest of a list reaches the end of the input inside a quoted string.
pub open spec fn list_open(s: Seq<char>, pos: int, col: int, items: Seq<ValueModel>) -> bool
    decreases s.len() - pos, 1int,
{
    if 0 <= pos <= s.len() {
        let (p1, c1) = skip_ws(s, pos, col, false);
        if !(pos <= p1 < s.len()) || s[p1] == ']' {
            false
        } else {
            value_open(s, p1, c1) || match value(s, p1, c1) {
                Step::Done { value: v, pos: p2, col: c2 } => p1 < p2 <= s.len() && list_open(
                    s,
                    p2,
                    c2,
                    items.push(v),
                ),
                _ => false,
            }
        }
    } else {
        false
    }
}

/// Reading the rest of a sum reaches the end of the input inside a quoted string.
pub open spec fn tag_items_open(
    s: Seq<char>,
    pos: int,
    col: int,
    name: Seq<char>,
    items: Seq<ValueModel>,
) -> bool
    decreases s.len() - pos, 1int,
{
    if 0 <= pos <= s.len() {
        let (p1, c1) = skip_ws(s, pos, col, false);
        if !(pos <= p1 < s.len()) || s[p1] == ')' {
            false
        } else {
            value_open(s, p1, c1) || match value(s, p1, c1) {
                Step::Done { value: v, pos: p2, col: c2 } => p1 < p2 <= s.len() && tag_items_open(
                    s,
                    p2,
                    c2,
                    name,
                    items.push(v),
                ),
                _ => false,
            }
        }
    } else {
        false
    }
}

/// Reading a sum after its `(` reaches the end of the input inside a quoted string.
pub open spec fn tag_open(s: Seq<char>, pos: int, col: int) -> bool
    decreases s.len() - pos, 2int,
{
    if 0 <= pos <= s.len() {
        let (p1, c1) = skip_ws(s, pos, col, false);
        if !(pos <= p1 < s.len()) {
            false
        } else {
            let c = s[p1];
            let p2 = p1 + 1;
            let c2 = next_col(c, c1);
            let name = if c == '"' {
                string_literal(s, p2, c2, Seq::empty())
            } else if alphabetic(c) {
                bare_word(s, p2, c2, seq![c])
            } else {
                Step::Fail { message: msg_tag_char(c), col: c2 }
            };
            (c == '"' && string_open(s, p2)) || match name {
                Step::Done { value: t, pos: p3, col: c3 } => p2 <= p3 <= s.len() && tag_items_open(
                    s,
                    p3,
                    c3,
                    t,
                    Seq::empty(),
                ),
                _ => false,
            }
        }
    } else {
        false
    }
}

/// Reading the rest of a map reaches the end of the input inside a quoted string.
pub open spec fn map_open(
    s: Seq<char>,
    pos: int,
    col: int,
    entries: Seq<(Seq<char>, ValueModel)>,
) -> bool
    decreases s.len() - pos, 1int,
{
    if 0 <= pos <= s.len() {
        let (p1, c1) = skip_ws(s, pos, col, false);
        if !(pos <= p1 < s.len()) || s[p1] == '}' {
            false
        } else {
            value_open(s, p1, c1) || match value(s, p1, c1) {
                Step::Done { value: ValueModel::String(key), pos: p2, col: c2 } => {
                    let (p3, c3) = skip_ws(s, p2, c2, false);
                    p1 < p2 <= s.len() && p2 <= p3 <= s.len() && (value_open(s, p3, c3)
                        || match value(s, p3, c3) {
                        Step::Done { value: v, pos: p4, col: c4 } => p3 < p4 <= s.len()
                            && !has_key(entries, key) && map_open(
                            s,
                            p4,
                            c4,
                            insert_entry(entries, key, v),
                        ),
                        _ => false,
                    })
                },
                _ => false,
            }
        }
    } else {
        false
    }
}

/// Parsing the document `s` reaches its end inside a quoted string: a string that
/// is never closed.
pub open spec fn document_open(s: Seq<char>) -> bool {
    let (p1, c1) = skip_ws(s, 0, 0, false);
    value_open(s, p1, c1)
}

/// Trailing white space read from outside a comment can also be read from inside one.
proof fn lemma_trailing_blank_in_comment(w: Seq<char>, i: int)
    requires
        trailing_blank_from(w, i, false),
    ensures
        trailing_blank_from(w, i, true),
    decreases w.len() - i,
{
    if 0 <= i < w.len() && w[i] != '\n' {
        if white_space(w[i]) {
            lemma_trailing_blank_in_comment(w, i + 1);
        }
    }
}

/// Skipping from the start of trailing white space reaches the end of the input.
proof fn lemma_skip_trailing(s: Seq<char>, w: Seq<char>, i: int, col: int, in_comment: bool)
    requires
        0 <= i <= w.len(),
        trailing_blank_from(w, i, in_comment),
    ensures
        skip_ws(s + w, s.len() + i, col, in_comment).0 == s.len() + w.len(),
    decreases w.len() - i,
{
    let t = s + w;
    if i < w.len() {
        assert(t[s.len() + i] == w[i]);
        let c = w[i];
        if in_comment {
            if c == '\n' {
                lemma_skip_trailing(s, w, i + 1, 0, false);
            } else {
                lemma_skip_trailing(s, w, i + 1, col + 1, true);
            }
        } else if white_space(c) {
            lemma_skip_trailing(s, w, i + 1, next_col(c, col), false);
        } else {
            lemma_skip_trailing(s, w, i + 1, col + 1, true);
        }
    }
}

/// Before trailing white space, skipping goes as in `s`, or on through its end.
proof fn lemma_ext_skip_ws(s: Seq<char>, w: Seq<char>, pos: int, col: int, in_comment: bool)
    requires
        0 <= pos <= s.len(),
        trailing_blank(w),
    ensures
        ({
            let (p, c) = skip_ws(s, pos, col, in_comment);
            let (q, d) = skip_ws(s + w, pos, col, in_comment);
            &&& p < s.len() ==> q == p && d == c
            &&& p >= s.len() ==> q == s.len() + w.len()
        }),
    decreases s.len() - pos,
{
    let t = s + w;
    if pos < s.len() {
        assert(t[pos] == s[pos]);
        let c = s[pos];
        if in_comment {
            if c == '\n' {
                lemma_ext_skip_ws(s, w, pos + 1, 0, false);
            } else {
                lemma_ext_skip_ws(s, w, pos + 1, col + 1, true);
            }
        } else if white_space(c) {
            lemma_ext_skip_ws(s, w, pos + 1, next_col(c, col), false);
        } else if c == '#' {
            lemma_ext_skip_ws(s, w, pos + 1, col + 1, true);
        }
    } else {
        if in_comment {
            lemma_trailing_blank_in_comment(w, 0);
        }
        lemma_skip_trailing(s, w, 0, col, in_comment);
    }
}

/// What follows `s` in `s + w` ends a bare word or a number.
proof fn lemma_trailing_first(s: Seq<char>, w: Seq<char>)
    requires
        trailing_blank(w),
    ensures
        s.len() < (s + w).len() ==> {
            let c = (s + w)[s.len() as int];
            &&& white_space(c) || special(c)
            &&& !alphanumeric(c) && c != '_'
            &&& digit_value(c) == 36
            &&& radix_of(c) is None
        },
{
    if w.len() > 0 {
        assert((s + w)[s.len() as int] == w[0]);
    }
}

/// A closed string literal reads the same before trailing white space.
pub(crate) proof fn lemma_ext_string(s: Seq<char>, w: Seq<char>, pos: int, col: int, buf: Seq<char>)
    requires
        0 <= pos,
        !string_open(s, pos),
    ensures
        string_literal(s + w, pos, col, buf) == string_literal(s, pos, col, buf),
    decreases s.len() - pos,
{
    let t = s + w;
    assert(t[pos] == s[pos]);
    let c = s[pos];
    let c1 = next_col(c, col);
    if c == '\\' {
        assert(t[pos + 1] == s[pos + 1]);
        let e = s[pos + 1];
        if let Some(x) = escaped(e) {
            lemma_ext_string(s, w, pos + 2, next_col(e, c1), buf.push(x));
        }
    } else if c != '"' {
        lemma_ext_string(s, w, pos + 1, c1, buf.push(c));
    }
}

/// A bare word reads the same before trailing white space.
proof fn lemma_ext_bare_word(s: Seq<char>, w: Seq<char>, pos: int, col: int, buf: Seq<char>)
    requires
        0 <= pos <= s.len(),
        trailing_blank(w),
    ensures
        bare_word(s + w, pos, col, buf) == bare_word(s, pos, col, buf),
    decreases s.len() - pos,
{
    let t = s + w;
    if pos < s.len() {
        assert(t[pos] == s[pos]);
        let c = s[pos];
        if alphanumeric(c) || c == '_' {
            lemma_ext_bare_word(s, w, pos + 1, next_col(c, col), buf.push(c));
        }
    } else {
        lemma_trailing_first(s, w);
    }
}

/// A number reads the same before trailing white space.
proof fn lemma_ext_number(s: Seq<char>, w: Seq<char>, pos: int, col: int, num: int, base: nat)
    requires
        0 <= pos <= s.len(),
        trailing_blank(w),
        base <= 36,
    ensures
        number(s + w, pos, col, num, base) == number(s, pos, col, num, base),
    decreases s.len() - pos,
{
    let t = s + w;
    if pos < s.len() {
        assert(t[pos] == s[pos]);
        let c = s[pos];
        if digit_value(c) < base {
            lemma_ext_number(s, w, pos + 1, next_col(c, col), num * base + digit_value(c), base);
        } else if c == '_' && !white_space(c) && !special(c) {
            lemma_ext_number(s, w, pos + 1, next_col(c, col), num, base);
        }
    } else {
        lemma_trailing_first(s, w);
    }
}

/// The step `b` is the step `a`, but an error may be reported at another column.
spec fn ext_rel<A>(a: Step<A>, b: Step<A>) -> bool {
    match a {
        Step::Done { .. } => b == a,
        Step::Fail { message, .. } => b matches Step::Fail { message: m2, .. } && m2 == message,
        Step::Abort => b is Abort,
    }
}

proof fn lemma_ext_value(s: Seq<char>, w: Seq<char>, pos: int, col: int)
    requires
        0 <= pos < s.len(),
        trailing_blank(w),
        !value_open(s, pos, col),
    ensures
        ext_rel(value(s, pos, col), value(s + w, pos, col)),
    decreases s.len() - pos, 0int,
{
    let t = s + w;
    assert(t[pos] == s[pos]);
    let c = s[pos];
    let p1 = pos + 1;
    let c1 = next_col(c, col);
    if c == '[' {
        lemma_ext_list(s, w, p1, c1, Seq::empty());
    } else if c == '(' {
        lemma_ext_tag(s, w, p1, c1);
    } else if c == '{' {
        lemma_ext_map(s, w, p1, c1, Seq::empty());
    } else if c == '"' {
        lemma_ext_string(s, w, p1, c1, Seq::empty());
    } else if c == '0' {
        lemma_trailing_first(s, w);
        if p1 < s.len() {
            assert(t[p1] == s[p1]);
        }
        if p1 < s.len() && radix_of(s[p1]) is Some {
            lemma_ext_number(s, w, p1 + 1, next_col(s[p1], c1), 0, radix_of(s[p1])->0);
        } else {
            lemma_ext_number(s, w, p1, c1, 0, 10);
        }
    } else if '0' <= c && c <= '9' {
        lemma_ext_number(s, w, p1, c1, digit_value(c) as int, 10);
    } else if alphabetic(c) {
        lemma_ext_bare_word(s, w, p1, c1, seq![c]);
    }
}

proof fn lemma_ext_list(s: Seq<char>, w: Seq<char>, pos: int, col: int, items: Seq<ValueModel>)
    requires
        0 <= pos <= s.len(),
        trailing_blank(w),
        !list_open(s, pos, col, items),
    ensures
        ext_rel(list(s, pos, col, items), list(s + w, pos, col, items)),
    decreases s.len() - pos, 1int,
{
    let t = s + w;
    lemma_skip_ws_bounds(s, pos, col, false);
    lemma_skip_ws_bounds(t, pos, col, false);
    lemma_ext_skip_ws(s, w, pos, col, false);
    let (p1, c1) = skip_ws(s, pos, col, false);
    if p1 < s.len() {
        assert(t[p1] == s[p1]);
        if s[p1] != ']' {
            lemma_ext_value(s, w, p1, c1);
            lemma_value_done(s, p1, c1);
            if let Step::Done { value: v, pos: p2, col: c2 } = value(s, p1, c1) {
                lemma_ext_list(s, w, p2, c2, items.push(v));
            }
        }
    } else {
        let (q1, d1) = skip_ws(t, pos, col, false);
        assert(q1 == t.len());
        assert(value(s, p1, c1) == Step::<ValueModel>::Fail { message: msg_unexpected_character(None), col: c1 + 1 });
        assert(value(t, q1, d1) == Step::<ValueModel>::Fail { message: msg_unexpected_character(None), col: d1 + 1 });
    }
}

proof fn lemma_ext_tag_items(
    s: Seq<char>,
    w: Seq<char>,
    pos: int,
    col: int,
    name: Seq<char>,
    items: Seq<ValueModel>,
)
    requires
        0 <= pos <= s.len(),
        trailing_blank(w),
        !tag_items_open(s, pos, col, name, items),
    ensures
        ext_rel(tag_items(s, pos, col, name, items), tag_items(s + w, pos, col, name, items)),
    decreases s.len() - pos, 1int,
{
    let t = s + w;
    lemma_skip_ws_bounds(s, pos, col, false);
    lemma_skip_ws_bounds(t, pos, col, false);
    lemma_ext_skip_ws(s, w, pos, col, false);
    let (p1, c1) = skip_ws(s, pos, col, false);
    if p1 < s.len() {
        assert(t[p1] == s[p1]);
        if s[p1] != ')' {
            lemma_ext_value(s, w, p1, c1);
            lemma_value_done(s, p1, c1);
            if let Step::Done { value: v, pos: p2, col: c2 } = value(s, p1, c1) {
                lemma_ext_tag_items(s, w, p2, c2, name, items.push(v));
            }
        }
    } else {
        let (q1, d1) = skip_ws(t, pos, col, false);
        assert(q1 == t.len());
        assert(value(s, p1, c1) == Step::<ValueModel>::Fail { message: msg_unexpected_character(None), col: c1 + 1 });
        assert(value(t, q1, d1) == Step::<ValueModel>::Fail { message: msg_unexpected_character(None), col: d1 + 1 });
    }
}

proof fn lemma_ext_tag(s: Seq<char>, w: Seq<char>, pos: int, col: int)
    requires
        0 <= pos <= s.len(),
        trailing_blank(w),
        !tag_open(s, pos, col),
    ensures
        ext_rel(tag(s, pos, col), tag(s + w, pos, col)),
    decreases s.len() - pos, 2int,
{
    let t = s + w;
    lemma_skip_ws_bounds(s, pos, col, false);
    lemma_skip_ws_bounds(t, pos, col, false);
    lemma_ext_skip_ws(s, w, pos, col, false);
    let (p1, c1) = skip_ws(s, pos, col, false);
    if p1 < s.len() {
        assert(t[p1] == s[p1]);
        let c = s[p1];
        let p2 = p1 + 1;
        let c2 = next_col(c, c1);
        if c == '"' {
            lemma_ext_string(s, w, p2, c2, Seq::empty());
            lemma_string_literal_done(s, p2, c2, Seq::empty());
            if let Step::Done { value: n, pos: p3, col: c3 } = string_literal(s, p2, c2, Seq::empty()) {
                lemma_ext_tag_items(s, w, p3, c3, n, Seq::empty());
            }
        } else if alphabetic(c) {
            lemma_ext_bare_word(s, w, p2, c2, seq![c]);
            lemma_bare_word_done(s, p2, c2, seq![c]);
            if let Step::Done { value: n, pos: p3, col: c3 } = bare_word(s, p2, c2, seq![c]) {
                lemma_ext_tag_items(s, w, p3, c3, n, Seq::empty());
            }
        }
    }
}

#[verifier::spinoff_prover]
#[verifier::rlimit(40)]
proof fn lemma_ext_map(
    s: Seq<char>,
    w: Seq<char>,
    pos: int,
    col: int,
    entries: Seq<(Seq<char>, ValueModel)>,
)
    requires
        0 <= pos <= s.len(),
        trailing_blank(w),
        !map_open(s, pos, col, entries),
    ensures
        ext_rel(map_entries(s, pos, col, entries), map_entries(s + w, pos, col, entries)),
    decreases s.len() - pos, 1int,
{
    let t = s + w;
    lemma_skip_ws_bounds(s, pos, col, false);
    lemma_skip_ws_bounds(t, pos, col, false);
    lemma_ext_skip_ws(s, w, pos, col, false);
    let (p1, c1) = skip_ws(s, pos, col, false);
    if p1 < s.len() {
        assert(t[p1] == s[p1]);
        if s[p1] != '}' {
            lemma_ext_value(s, w, p1, c1);
            lemma_value_done(s, p1, c1);
            if let Step::Done { value: k, pos: p2, col: c2 } = value(s, p1, c1) {
                if let ValueModel::String(key) = k {
                    lemma_skip_ws_bounds(s, p2, c2, false);
                    lemma_skip_ws_bounds(t, p2, c2, false);
                    lemma_ext_skip_ws(s, w, p2, c2, false);
                    let (p3, c3) = skip_ws(s, p2, c2, false);
                    if p3 < s.len() {
                        lemma_ext_value(s, w, p3, c3);
                        lemma_value_done(s, p3, c3);
                        if let Step::Done { value: v, pos: p4, col: c4 } = value(s, p3, c3) {
                            if !has_key(entries, key) {
                                lemma_ext_map(s, w, p4, c4, insert_entry(entries, key, v));
                            }
                        }
                    } else {
                        let (q3, d3) = skip_ws(t, p2, c2, false);
                        assert(q3 == t.len());
                        assert(value(s, p3, c3) == Step::<ValueModel>::Fail { message: msg_unexpected_character(None), col: c3 + 1 });
                        assert(value(t, q3, d3) == Step::<ValueModel>::Fail { message: msg_unexpected_character(None), col: d3 + 1 });
                    }
                }
            }
        }
    } else {
        let (q1, d1) = skip_ws(t, pos, col, false);
        assert(q1 == t.len());
        assert(value(s, p1, c1) == Step::<ValueModel>::Fail { message: msg_unexpected_character(None), col: c1 + 1 });
        assert(value(t, q1, d1) == Step::<ValueModel>::Fail { message: msg_unexpected_character(None), col: d1 + 1 });
    }
}

/// White space and comments after a document change nothing but the columns that
/// errors report, unless the document ends inside a string that is never closed: the
/// value read, or the error message, is the same.
pub proof fn law_blank_suffix(s: Seq<char>, w: Seq<char>)
    requires
        trailing_blank(w),
        !document_open(s),
    ensures
        same_outcome(document(s), document(s + w)),
{
    let t = s + w;
    lemma_skip_ws_bounds(s, 0, 0, false);
    lemma_ext_skip_ws(s, w, 0, 0, false);
    let (p1, c1) = skip_ws(s, 0, 0, false);
    if p1 < s.len() {
        lemma_ext_value(s, w, p1, c1);
        lemma_value_done(s, p1, c1);
        if let Step::Done { value: v, pos: p2, col: c2 } = value(s, p1, c1) {
            lemma_skip_ws_bounds(s, p2, c2, false);
            lemma_ext_skip_ws(s, w, p2, c2, false);
            let (p3, c3) = skip_ws(s, p2, c2, false);
            if p3 < s.len() {
                assert(t[p3] == s[p3]);
            }
        }
    }
}

/// White space and comments around a document, before and after it, change nothing but
/// the columns that errors report, unless the document ends inside a string that is
/// never closed: the value read, or the error message, is the same.
pub proof fn law_blank_around(w1: Seq<char>, s: Seq<char>, w2: Seq<char>)
    requires
        blank(w1),
        trailing_blank(w2),
        !document_open(s),
    ensures
        same_outcome(document(s), document(w1 + s + w2)),
{
    law_blank_suffix(s, w2);
    law_blank_prefix(w1, s + w2);
    assert(w1 + s + w2 =~= w1 + (s + w2));
}

} // verus!
