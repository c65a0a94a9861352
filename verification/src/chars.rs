//! Character classification and the few pieces of `char` and `String`
//! behaviour from the standard library that the parser relies on.

use vstd::prelude::*;

verus! {

/// Whether `c` has the Unicode `Alphabetic` property, as `char::is_alphabetic`
/// reports it; `alphabetic` uses it beyond ASCII.
pub uninterp spec fn unicode_alphabetic(c: char) -> bool;

/// Whether `c` is alphabetic or numeric in Unicode's sense, as `char::is_alphanumeric`
/// reports it; `alphanumeric` uses it beyond ASCII.
pub uninterp spec fn unicode_alphanumeric(c: char) -> bool;

/// The text that `Debug` prints for a `char`: the character, escaped where needed, in single quotes.
pub uninterp spec fn char_debug_text(c: char) -> Seq<char>;

/// The text that `Debug` prints for a string: the characters, escaped where needed,
/// in double quotes.
pub uninterp spec fn str_debug_text(s: Seq<char>) -> Seq<char>;

/// An ASCII character.
pub open spec fn ascii(c: char) -> bool {
    (c as u32) < 0x80
}

/// An ASCII letter.
pub open spec fn ascii_letter(c: char) -> bool {
    ('a' <= c && c <= 'z') || ('A' <= c && c <= 'Z')
}

/// An ASCII decimal digit.
pub open spec fn ascii_digit(c: char) -> bool {
    '0' <= c && c <= '9'
}

/// White space: the characters with the Unicode `White_Space` property. Within ASCII
/// they are tab, line feed, vertical tab, form feed, carriage return and space; beyond
/// it, next line, no-break space, the Ogham space mark, the spaces from en quad to hair
/// space, the line and paragraph separators, the narrow no-break space, the medium
/// mathematical space and the ideographic space.
pub open spec fn white_space(c: char) -> bool {
    let n = c as u32;
    ||| 0x09 <= n && n <= 0x0d
    ||| n == 0x20
    ||| n == 0x85
    ||| n == 0xa0
    ||| n == 0x1680
    ||| 0x2000 <= n && n <= 0x200a
    ||| n == 0x2028
    ||| n == 0x2029
    ||| n == 0x202f
    ||| n == 0x205f
    ||| n == 0x3000
}

/// Alphabetic: within ASCII, the letters; beyond it, the Unicode `Alphabetic`
/// property, which no white space character has.
pub open spec fn alphabetic(c: char) -> bool {
    if ascii(c) {
        ascii_letter(c)
    } else {
        unicode_alphabetic(c) && !white_space(c)
    }
}

/// Alphanumeric: within ASCII, the letters and digits; beyond it, Unicode's
/// `Alphabetic` or `Numeric`, which no white space character is.
pub open spec fn alphanumeric(c: char) -> bool {
    if ascii(c) {
        ascii_letter(c) || ascii_digit(c)
    } else {
        unicode_alphanumeric(c) && !white_space(c)
    }
}

/// Whether `c` is white space, as `char::is_whitespace` decides it: whether it has
/// the Unicode `White_Space` property.
pub(crate) fn is_whitespace(c: char) -> (r: bool)
    ensures
        r == white_space(c),
{
    let n: u32 = c as u32;
    (0x09 <= n && n <= 0x0d) || n == 0x20 || n == 0x85 || n == 0xa0 || n == 0x1680 || (0x2000
        <= n && n <= 0x200a) || n == 0x2028 || n == 0x2029 || n == 0x202f || n == 0x205f || n
        == 0x3000
}

/// Calls `char::is_alphabetic`, documented as the Unicode `Alphabetic` property.
/// Claimed: the result is `alphabetic(c)`: within ASCII the letters, beyond it a fixed
/// function of `c` whose table is not written out. No character it accepts is white
/// space: every `White_Space` character is a separator or a control character, and
/// none of these is alphabetic.
#[verifier::external_body]
pub(crate) fn is_alphabetic(c: char) -> (r: bool)
    ensures
        r == alphabetic(c),
        !ascii(c) ==> r == unicode_alphabetic(c),
{
    c.is_alphabetic()
}

/// Calls `char::is_alphanumeric`, documented as `Alphabetic` or `Numeric` in Unicode's
/// sense. Claimed: the result is `alphanumeric(c)`: within ASCII the letters and
/// digits, beyond it a fixed function of `c` whose tables are not written out. No
/// character it accepts is white space: every `White_Space` character is a separator
/// or a control character, neither alphabetic nor numeric.
#[verifier::external_body]
pub(crate) fn is_alphanumeric(c: char) -> (r: bool)
    ensures
        r == alphanumeric(c),
        !ascii(c) ==> r == unicode_alphanumeric(c),
        r ==> !white_space(c),
{
    c.is_alphanumeric()
}

/// The value of `c` as a digit in bases up to 36: `0`-`9` count 0 to 9, and the
/// letters `a`-`z` and `A`-`Z` count 10 to 35. Any other character gets 36, which is
/// a digit in no base.
pub open spec fn digit_value(c: char) -> nat {
    if '0' <= c && c <= '9' {
        (c as int - '0' as int) as nat
    } else if 'a' <= c && c <= 'z' {
        (c as int - 'a' as int + 10) as nat
    } else if 'A' <= c && c <= 'Z' {
        (c as int - 'A' as int + 10) as nat
    } else {
        36
    }
}

/// Whether `c` is a digit in base `radix`, as `char::is_digit` defines it: one of
/// `0`-`9`, `a`-`z`, `A`-`Z` whose value is below the radix.
pub(crate) fn is_digit(c: char, radix: u32) -> (r: bool)
    requires
        2 <= radix <= 36,
    ensures
        r == (digit_value(c) < radix),
{
    let value: u32 = if '0' <= c && c <= '9' {
        (c as u32) - ('0' as u32)
    } else if 'a' <= c && c <= 'z' {
        (c as u32) - ('a' as u32) + 10
    } else if 'A' <= c && c <= 'Z' {
        (c as u32) - ('A' as u32) + 10
    } else {
        36
    };
    value < radix
}

/// Whether `c` is an ASCII decimal digit, as `char::is_ascii_digit` defines it.
pub(crate) fn is_ascii_digit(c: char) -> (r: bool)
    ensures
        r == ascii_digit(c),
{
    '0' <= c && c <= '9'
}

/// Calls `String::push`, which appends `c` to the end of `s`.
#[verifier::external_body]
pub(crate) fn push_char(s: &mut String, c: char)
    ensures
        final(s)@ == old(s)@.push(c),
{
    s.push(c)
}

/// Formats `c` with `Debug`. Claimed: the text is `char_debug_text(c)`, a fixed function of `c`.
#[verifier::external_body]
pub(crate) fn char_debug(c: char) -> (r: String)
    ensures
        r@ == char_debug_text(c),
{
    format!("{:?}", c)
}

/// The decimal digit character for `d`, for `d` below 10.
pub open spec fn digit_char(d: nat) -> char {
    if d == 0 { '0' }
    else if d == 1 { '1' }
    else if d == 2 { '2' }
    else if d == 3 { '3' }
    else if d == 4 { '4' }
    else if d == 5 { '5' }
    else if d == 6 { '6' }
    else if d == 7 { '7' }
    else if d == 8 { '8' }
    else { '9' }
}

/// The decimal numeral of `n`, most significant digit first, with no leading zeros.
pub open spec fn decimal_text(n: nat) -> Seq<char>
    decreases n,
{
    if n < 10 {
        seq![digit_char(n)]
    } else {
        decimal_text(n / 10).push(digit_char(n % 10))
    }
}

/// Formats `s` with `Debug`. Claimed: the text is `str_debug_text(s@)`, a fixed function
/// of the characters of `s` (the escaping rules, which rest on Unicode tables, are not
/// written out here).
#[verifier::external_body]
pub(crate) fn str_debug(s: &str) -> (r: String)
    ensures
        r@ == str_debug_text(s@),
{
    format!("{:?}", s)
}

/// The decimal numeral of `n`, with a `-` before it when `n` is negative.
pub open spec fn int_text(n: int) -> Seq<char> {
    if n < 0 {
        "-"@ + decimal_text((-n) as nat)
    } else {
        decimal_text(n as nat)
    }
}

/// The decimal numeral of `n`, with a `-` before it when `n` is negative.
pub fn int_decimal(n: i64) -> (r: String)
    ensures
        r@ == int_text(n as int),
{
    if n < 0 {
        let magnitude: u64 = if n == i64::MIN {
            9223372036854775808u64
        } else {
            (-n) as u64
        };
        let mut out = String::from_str("-");
        let digits = decimal(magnitude);
        out.append(digits.as_str());
        out
    } else {
        decimal(n as u64)
    }
}

/// The decimal digit character for `d`.
fn digit_to_char(d: u64) -> (c: char)
    requires
        d < 10,
    ensures
        c == digit_char(d as nat),
{
    if d == 0 { '0' }
    else if d == 1 { '1' }
    else if d == 2 { '2' }
    else if d == 3 { '3' }
    else if d == 4 { '4' }
    else if d == 5 { '5' }
    else if d == 6 { '6' }
    else if d == 7 { '7' }
    else if d == 8 { '8' }
    else { '9' }
}

/// The decimal numeral of `n`, as `u64::to_string` writes it.
pub(crate) fn decimal(n: u64) -> (r: String)
    ensures
        r@ == decimal_text(n as nat),
    decreases n,
{
    if n < 10 {
        let mut out = String::new();
        push_char(&mut out, digit_to_char(n));
        proof {
            assert(out@ =~= seq![digit_char(n as nat)]);
        }
        out
    } else {
        let mut out = decimal(n / 10);
        push_char(&mut out, digit_to_char(n % 10));
        out
    }
}

/// Whether `a` comes before `b` in lexicographic order of their characters, a
/// proper prefix coming first.
pub open spec fn chars_less(a: Seq<char>, b: Seq<char>) -> bool
    decreases a.len(),
{
    if b.len() == 0 {
        false
    } else if a.len() == 0 {
        true
    } else if a[0] != b[0] {
        a[0] < b[0]
    } else {
        chars_less(a.drop_first(), b.drop_first())
    }
}

/// Past a common prefix of length `i`, the order is that of the rests.
proof fn lemma_chars_less_skip(a: Seq<char>, b: Seq<char>, i: int)
    requires
        0 <= i <= a.len(),
        i <= b.len(),
        forall|j: int| 0 <= j < i ==> a[j] == b[j],
    ensures
        chars_less(a, b) == chars_less(a.skip(i), b.skip(i)),
    decreases i,
{
    if i > 0 {
        assert forall|j: int| 0 <= j < i - 1 implies a.drop_first()[j] == b.drop_first()[j] by {
            assert(a.drop_first()[j] == a[j + 1]);
            assert(b.drop_first()[j] == b[j + 1]);
        }
        lemma_chars_less_skip(a.drop_first(), b.drop_first(), i - 1);
        assert(a.drop_first().skip(i - 1) =~= a.skip(i));
        assert(b.drop_first().skip(i - 1) =~= b.skip(i));
    } else {
        assert(a.skip(0) =~= a);
        assert(b.skip(0) =~= b);
    }
}

/// Whether the characters of `a` come before those of `b` in lexicographic order.
pub(crate) fn str_less(a: &str, b: &str) -> (r: bool)
    ensures
        r == chars_less(a@, b@),
{
    let la = a.unicode_len();
    let lb = b.unicode_len();
    let mut i: usize = 0;
    while i < la && i < lb
        invariant
            la == a@.len(),
            lb == b@.len(),
            i <= la,
            i <= lb,
            forall|j: int| 0 <= j < i ==> a@[j] == b@[j],
        decreases la - i,
    {
        let ca = a.get_char(i);
        let cb = b.get_char(i);
        if ca != cb {
            proof {
                lemma_chars_less_skip(a@, b@, i as int);
                assert(a@.skip(i as int)[0] == ca);
                assert(b@.skip(i as int)[0] == cb);
            }
            return ca < cb;
        }
        i = i + 1;
    }
    proof {
        lemma_chars_less_skip(a@, b@, i as int);
    }
    la < lb
}

} // verus!
