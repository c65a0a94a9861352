//! The parser: a reader over the characters of the input that builds values.

use vstd::prelude::*;
use crate::chars::{
    char_debug, decimal, digit_value, is_alphabetic, is_alphanumeric, is_ascii_digit, is_digit,
    is_whitespace, push_char,
};
use crate::error::{AdnotError, ErrorModel, Location, LocationModel};
use crate::grammar::{
    as_int, as_string, bare_word, document, escape, list, map_entries, msg_base_float,
    msg_eof_in_string, msg_eof_in_tag, msg_invalid_escape, msg_key_not_string, msg_number_char,
    msg_repeated_key, msg_string_char, msg_tag_char, msg_trailing, msg_unexpected_character,
    number, peek, radix_of, read, skip_comment, skip_ws, special, string_literal, tag,
    tag_items, value, Step,
};
use crate::value::{
    entry_models, entry_slot, keys_ascending, lemma_entry_models, lemma_entry_models_insert,
    lemma_insert_keeps_ascending, lemma_value_models, lemma_value_models_push, render_value,
    value_models, well_formed, Value, ValueModel,
};

verus! {

/// A reader over the characters of an input, with the position of the next unread
/// character and the row and column that errors report.
pub struct Parser {
    chars: Vec<char>,
    pos: usize,
    row: u64,
    col: u64,
    source: Option<String>,
}

/// What a `Parser` holds.
pub struct ParserModel {
    pub input: Seq<char>,
    pub pos: int,
    pub row: u64,
    pub col: u64,
    pub source: Option<Seq<char>>,
}

impl View for Parser {
    type V = ParserModel;

    closed spec fn view(&self) -> ParserModel {
        ParserModel {
            input: self.chars@,
            pos: self.pos as int,
            row: self.row,
            col: self.col,
            source: self.source.deep_view(),
        }
    }
}

/// The column is at most one past the position, and at most the position while
/// characters are left. Parsing reads past the end at most once before it stops or
/// finishes a value, so the column never overflows.
pub open spec fn col_in_range(m: ParserModel) -> bool {
    &&& m.col <= m.pos + 1
    &&& m.pos < m.input.len() ==> m.col <= m.pos
}

/// The column is within the position: nothing has been read past the end.
pub open spec fn col_behind(m: ParserModel) -> bool {
    m.col <= m.pos
}

/// `after` reads the same input from the same source and row as `before`.
pub open spec fn same_input(before: ParserModel, after: ParserModel) -> bool {
    &&& after.input == before.input
    &&& after.row == before.row
    &&& after.source == before.source
}

/// The error with `message` at column `col` of the parser `m`.
pub open spec fn error_at(m: ParserModel, message: Seq<char>, col: int) -> ErrorModel {
    ErrorModel { message, row: m.row, col: col as u64, src: m.source }
}

/// The result `r` of a step, taking the parser from `before` to `after`, is what
/// `st` says. The parser's input, row and source stay as they are.
pub open spec fn agrees<T: View>(
    r: Result<T, AdnotError>,
    before: ParserModel,
    after: ParserModel,
    st: Step<T::V>,
) -> bool {
    &&& same_input(before, after)
    &&& match st {
        Step::Done { value, pos, col } => r matches Ok(v) && v@ == value && after.pos == pos
            && after.col == col,
        Step::Fail { message, col } => r matches Err(e) && 0 <= col <= u64::MAX && e@ == error_at(
            before,
            message,
            col,
        ),
        Step::Abort => false,
    }
}

/// Why parsing stopped short of a value.
pub enum Failure {
    /// The input is not Adnot.
    Error(AdnotError),
    /// The input lies outside what the parser handles (see `Step::Abort`).
    Unsupported,
}

/// The result `r` of parsing a value, taking the parser from `before` to `after`,
/// is what `st` says.
pub open spec fn agrees_value(
    r: Result<Value, Failure>,
    before: ParserModel,
    after: ParserModel,
    st: Step<ValueModel>,
) -> bool {
    &&& same_input(before, after)
    &&& match st {
        Step::Done { value, pos, col } => r matches Ok(v) && v@ == value && after.pos == pos
            && after.col == col,
        Step::Fail { message, col } => r matches Err(Failure::Error(e)) && 0 <= col <= u64::MAX
            && e@ == error_at(before, message, col),
        Step::Abort => r matches Err(Failure::Unsupported),
    }
}

/// Skipping a comment from inside it and then skipping white space comes to the same
/// place as skipping white space from inside the comment.
pub proof fn lemma_skip_comment_then_ws(s: Seq<char>, pos: int, col: int)
    requires
        0 <= pos,
    ensures
        skip_ws(s, pos, col, true) == ({
            let (p, c) = skip_comment(s, pos, col);
            skip_ws(s, p, c, false)
        }),
    decreases s.len() - pos,
{
    if pos < s.len() && s[pos] != '\n' {
        lemma_skip_comment_then_ws(s, pos + 1, col + 1);
    }
}

/// Whether `c` ends a bare word or a number (besides white space): one of
/// `[ ] ( ) { } #`.
pub fn is_special(c: char) -> (r: bool)
    ensures
        r == special(c),
{
    c == '[' || c == ']' || c == '(' || c == ')' || c == '{' || c == '}' || c == '#'
}

/// The value of a hexadecimal digit: `0`-`9`, then `a`-`f` or `A`-`F` for 10 to 15.
pub fn digit_to_num(c: char) -> (r: i64)
    requires
        digit_value(c) < 16,
    ensures
        r == digit_value(c),
{
    match c {
        '0' => 0,
        '1' => 1,
        '2' => 2,
        '3' => 3,
        '4' => 4,
        '5' => 5,
        '6' => 6,
        '7' => 7,
        '8' => 8,
        '9' => 9,
        'A' | 'a' => 10,
        'B' | 'b' => 11,
        'C' | 'c' => 12,
        'D' | 'd' => 13,
        'E' | 'e' => 14,
        _ => 15,
    }
}

impl Parser {
    #[verifier::type_invariant]
    spec fn inv(self) -> bool {
        &&& self.pos <= self.chars.len()
        &&& self.chars.len() <= isize::MAX
    }

    /// A parser at the start of `input`, at row 0 and column 0, with no source name.
    pub fn new(input: Vec<char>) -> (p: Parser)
        requires
            input.len() <= isize::MAX,
        ensures
            p@ == (ParserModel { input: input@, pos: 0, row: 0, col: 0, source: None }),
    {
        Parser { chars: input, pos: 0, row: 0, col: 0, source: None }
    }

    /// The next character, without reading it.
    pub fn peek_char(&self) -> (r: Option<char>)
        ensures
            r == peek(self@.input, self@.pos),
    {
        if self.pos < self.chars.len() {
            Some(self.chars[self.pos])
        } else {
            None
        }
    }

    /// Reads the next character; at the end of the input, gives none and still
    /// advances the column.
    pub fn next_char(&mut self) -> (r: Option<char>)
        requires
            old(self)@.col < u64::MAX,
        ensures
            same_input(old(self)@, final(self)@),
            (r, final(self)@.pos, final(self)@.col as int) == read(
                old(self)@.input,
                old(self)@.pos,
                old(self)@.col as int,
            ),
    {
        proof {
            use_type_invariant(&*self);
        }
        if self.pos < self.chars.len() {
            let c = self.chars[self.pos];
            self.pos = self.pos + 1;
            if c == '\n' {
                self.col = 0;
            } else {
                self.col = self.col + 1;
            }
            Some(c)
        } else {
            self.col = self.col + 1;
            None
        }
    }

    /// The current location.
    pub fn loc(&self) -> (r: Location)
        ensures
            r@ == (LocationModel { row: self@.row, col: self@.col, src: self@.source }),
    {
        let src = match &self.source {
            Some(name) => Some(name.clone()),
            None => None,
        };
        Location::new(self.row, self.col, src)
    }

    /// The error with `message` at the current location.
    fn error(&self, message: String) -> (e: AdnotError)
        ensures
            e@ == error_at(self@, message@, self@.col as int),
    {
        AdnotError { message, loc: self.loc() }
    }

    /// Fails with `message` at the current location.
    pub fn err<T>(&self, message: String) -> (r: Result<T, AdnotError>)
        ensures
            r matches Err(e) && e@ == error_at(self@, message@, self@.col as int),
    {
        Err(self.error(message))
    }

    /// Reads a comment through the line break that ends it, or through the end of the
    /// input.
    pub fn skip_comment(&mut self) -> (r: Result<(), AdnotError>)
        requires
            col_in_range(old(self)@),
        ensures
            r is Ok,
            same_input(old(self)@, final(self)@),
            (final(self)@.pos, final(self)@.col as int) == skip_comment(
                old(self)@.input,
                old(self)@.pos,
                old(self)@.col as int,
            ),
            old(self)@.pos <= final(self)@.pos,
            old(self)@.pos < old(self)@.input.len() ==> col_in_range(final(self)@),
            old(self)@.pos < old(self)@.input.len() ==> old(self)@.pos < final(self)@.pos,
    {
        let ghost start = self@;
        let ghost target = skip_comment(self@.input, self@.pos, self@.col as int);
        loop
            invariant_except_break
                skip_comment(self@.input, self@.pos, self@.col as int) == target,
                col_in_range(self@),
                start.pos < start.input.len() ==> col_behind(self@),
            invariant
                same_input(start, self@),
                start.pos <= self@.pos,
            ensures
                (self@.pos, self@.col as int) == target,
                start.pos < start.input.len() ==> col_in_range(self@),
                start.pos < start.input.len() ==> start.pos < self@.pos,
            decreases self@.input.len() - self@.pos,
        {
            proof {
                use_type_invariant(&*self);
            }
            match self.next_char() {
                Some(c) => {
                    if c == '\n' {
                        break ;
                    }
                },
                None => {
                    break ;
                },
            }
        }
        Ok(())
    }

    /// Reads white space and comments up to the next other character.
    pub fn skip_whitespace(&mut self) -> (r: Result<(), AdnotError>)
        requires
            col_in_range(old(self)@),
        ensures
            r is Ok,
            same_input(old(self)@, final(self)@),
            (final(self)@.pos, final(self)@.col as int) == skip_ws(
                old(self)@.input,
                old(self)@.pos,
                old(self)@.col as int,
                false,
            ),
            old(self)@.pos <= final(self)@.pos,
            col_in_range(final(self)@),
    {
        let ghost start = self@;
        let ghost target = skip_ws(self@.input, self@.pos, self@.col as int, false);
        loop
            invariant_except_break
                skip_ws(self@.input, self@.pos, self@.col as int, false) == target,
            invariant
                same_input(start, self@),
                start.pos <= self@.pos,
                col_in_range(self@),
            ensures
                (self@.pos, self@.col as int) == target,
            decreases self@.input.len() - self@.pos,
        {
            proof {
                use_type_invariant(&*self);
            }
            match self.peek_char() {
                Some(c) => {
                    if is_whitespace(c) {
                        let _ = self.next_char();
                    } else if c == '#' {
                        proof {
                            lemma_skip_comment_then_ws(self@.input, self@.pos + 1, self@.col + 1);
                        }
                        let _ = self.skip_comment();
                    } else {
                        break ;
                    }
                },
                None => {
                    break ;
                },
            }
            proof {
                use_type_invariant(&*self);
            }
        }
        Ok(())
    }

    /// Reads the character after a backslash in a string literal and gives the
    /// character that the escape stands for.
    pub fn parse_escape(&mut self) -> (r: Result<char, AdnotError>)
        requires
            col_in_range(old(self)@),
        ensures
            agrees(r, old(self)@, final(self)@, escape(old(self)@.input, old(self)@.pos, old(self)@.col as int)),
            r is Ok ==> col_behind(final(self)@),
    {
        proof {
            use_type_invariant(&*self);
        }
        match self.next_char() {
            Some('n') => Ok('\n'),
            Some('t') => Ok('\t'),
            Some('r') => Ok('\r'),
            Some('f') => Ok('\x0c'),
            Some('\\') => Ok('\\'),
            Some('"') => Ok('"'),
            Some(c) => {
                let mut message = String::from_str("Invalid escape: \\");
                push_char(&mut message, c);
                proof {
                    assert(message@ =~= msg_invalid_escape(c));
                }
                self.err(message)
            },
            None => self.err(String::from_str("Unexpected end-of-file when parsing string literal")),
        }
    }

    /// Reads the rest of a string literal after its opening quote: up to the closing
    /// quote, or to the end of the input.
    pub fn parse_string_literal(&mut self) -> (r: Result<String, AdnotError>)
        requires
            col_in_range(old(self)@),
        ensures
            agrees(
                r,
                old(self)@,
                final(self)@,
                string_literal(old(self)@.input, old(self)@.pos, old(self)@.col as int, Seq::empty()),
            ),
            r is Ok ==> old(self)@.pos <= final(self)@.pos,
            r is Ok && col_behind(old(self)@) ==> col_in_range(final(self)@),
    {
        let ghost start = self@;
        let ghost target = string_literal(self@.input, self@.pos, self@.col as int, Seq::empty());
        let mut buf = String::new();
        let mut failed: Option<AdnotError> = None;
        loop
            invariant_except_break
                string_literal(self@.input, self@.pos, self@.col as int, buf@) == target,
                col_in_range(self@),
                col_behind(start) ==> col_behind(self@),
                failed is None,
                start.pos <= self@.pos,
            invariant
                same_input(start, self@),
            ensures
                failed is None ==> target == (Step::Done { value: buf@, pos: self@.pos, col: self@.col as int }),
                failed is None ==> (col_behind(start) ==> col_in_range(self@)),
                failed is None ==> start.pos <= self@.pos,
                failed matches Some(e) ==> agrees(Err::<String, AdnotError>(e), start, self@, target),
            decreases self@.input.len() - self@.pos,
        {
            proof {
                use_type_invariant(&*self);
            }
            match self.next_char() {
                Some(c) => {
                    if c == '"' {
                        break ;
                    } else if c == '\\' {
                        match self.parse_escape() {
                            Ok(e) => push_char(&mut buf, e),
                            Err(e) => {
                                failed = Some(e);
                                break ;
                            },
                        }
                    } else {
                        push_char(&mut buf, c);
                    }
                },
                None => {
                    break ;
                },
            }
        }
        match failed {
            Some(e) => Err(e),
            None => Ok(buf),
        }
    }

    /// Reads the rest of a bare word, appending it to `buf`.
    pub fn parse_bare_word(&mut self, buf: String) -> (r: Result<String, AdnotError>)
        requires
            col_in_range(old(self)@),
        ensures
            agrees(r, old(self)@, final(self)@, bare_word(old(self)@.input, old(self)@.pos, old(self)@.col as int, buf@)),
            r is Ok ==> old(self)@.pos <= final(self)@.pos && col_in_range(final(self)@),
            r is Ok && col_behind(old(self)@) ==> col_behind(final(self)@),
    {
        let ghost start = self@;
        let ghost target = bare_word(self@.input, self@.pos, self@.col as int, buf@);
        let mut buf = buf;
        let mut bad: Option<char> = None;
        loop
            invariant_except_break
                bare_word(self@.input, self@.pos, self@.col as int, buf@) == target,
                bad is None,
            invariant
                same_input(start, self@),
                start.pos <= self@.pos,
                col_in_range(self@),
                col_behind(start) ==> col_behind(self@),
            ensures
                bad is None ==> target == (Step::Done { value: buf@, pos: self@.pos, col: self@.col as int }),
                bad matches Some(c) ==> target == (Step::<Seq<char>>::Fail { message: msg_string_char(c), col: self@.col as int }),
            decreases self@.input.len() - self@.pos,
        {
            proof {
                use_type_invariant(&*self);
            }
            match self.peek_char() {
                Some(c) => {
                    if is_alphanumeric(c) || c == '_' {
                        let _ = self.next_char();
                        push_char(&mut buf, c);
                    } else if is_whitespace(c) || is_special(c) {
                        break ;
                    } else {
                        bad = Some(c);
                        break ;
                    }
                },
                None => {
                    break ;
                },
            }
        }
        match bad {
            Some(c) => {
                let mut message = String::from_str("Invalid character in string: ");
                push_char(&mut message, c);
                proof {
                    assert(message@ =~= msg_string_char(c));
                }
                self.err(message)
            },
            None => Ok(buf),
        }
    }

    /// Reads the rest of a number in base `base`, with `num` read so far. A `_`
    /// among the digits is passed over.
    fn parse_number(&mut self, num: i64, base: u32) -> (r: Result<Value, Failure>)
        requires
            col_in_range(old(self)@),
            0 <= num,
            base == 2 || base == 8 || base == 10 || base == 12 || base == 16,
        ensures
            agrees_value(r, old(self)@, final(self)@, as_int(number(old(self)@.input, old(self)@.pos, old(self)@.col as int, num as int, base as nat))),
            r is Ok ==> old(self)@.pos <= final(self)@.pos && col_in_range(final(self)@),
            r is Ok && col_behind(old(self)@) ==> col_behind(final(self)@),
    {
        let ghost start = self@;
        let ghost target = number(self@.input, self@.pos, self@.col as int, num as int, base as nat);
        let mut num = num;
        let mut stopped: Option<Failure> = None;
        loop
            invariant_except_break
                number(self@.input, self@.pos, self@.col as int, num as int, base as nat) == target,
                stopped is None,
            invariant
                same_input(start, self@),
                start.pos <= self@.pos,
                col_in_range(self@),
                col_behind(start) ==> col_behind(self@),
                0 <= num,
                base == 2 || base == 8 || base == 10 || base == 12 || base == 16,
            ensures
                stopped is None ==> target == (Step::Done { value: num, pos: self@.pos, col: self@.col as int }),
                stopped matches Some(f) ==> agrees_value(Err(f), start, self@, as_int(target)),
            decreases self@.input.len() - self@.pos,
        {
            proof {
                use_type_invariant(&*self);
            }
            match self.peek_char() {
                Some(c) => {
                    if is_digit(c, base) {
                        let _ = self.next_char();
                        let digit = digit_to_num(c);
                        match num.checked_mul(base as i64) {
                            Some(shifted) => match shifted.checked_add(digit) {
                                Some(next) => {
                                    num = next;
                                },
                                None => {
                                    stopped = Some(Failure::Unsupported);
                                    break ;
                                },
                            },
                            None => {
                                stopped = Some(Failure::Unsupported);
                                break ;
                            },
                        }
                    } else if is_whitespace(c) || is_special(c) {
                        break ;
                    } else if c == '.' {
                        if base == 10 {
                            // A decimal point starts a floating-point literal.
                            stopped = Some(Failure::Unsupported);
                        } else {
                            let mut message = String::from_str("Base-");
                            let digits = decimal(base as u64);
                            message.append(digits.as_str());
                            message.append(" floats are not supported");
                            proof {
                                assert(message@ =~= msg_base_float(base as nat));
                            }
                            stopped = Some(Failure::Error(self.error(message)));
                        }
                        break ;
                    } else if c == '_' {
                        let _ = self.next_char();
                    } else {
                        let mut message = String::from_str("Invalid character in number: ");
                        push_char(&mut message, c);
                        proof {
                            assert(message@ =~= msg_number_char(c));
                        }
                        stopped = Some(Failure::Error(self.error(message)));
                        break ;
                    }
                },
                None => {
                    break ;
                },
            }
            proof {
                use_type_invariant(&*self);
            }
        }
        match stopped {
            Some(f) => Err(f),
            None => Ok(Value::Int(num)),
        }
    }

    /// Reads a value; white space before it has already been read.
    fn parse_value(&mut self) -> (r: Result<Value, Failure>)
        requires
            col_in_range(old(self)@),
        ensures
            agrees_value(r, old(self)@, final(self)@, value(old(self)@.input, old(self)@.pos, old(self)@.col as int)),
            r matches Ok(v) ==> old(self)@.pos < final(self)@.pos && col_in_range(final(self)@)
                && well_formed(v@),
        decreases old(self)@.input.len() - old(self)@.pos, 0int,
    {
        proof {
            use_type_invariant(&*self);
        }
        match self.next_char() {
            Some('[') => self.parse_list(),
            Some('(') => self.parse_tag(),
            Some('{') => self.parse_map(),
            Some('"') => match self.parse_string_literal() {
                Ok(text) => Ok(Value::String(text)),
                Err(e) => Err(Failure::Error(e)),
            },
            Some('0') => {
                proof {
                    use_type_invariant(&*self);
                }
                match self.peek_char() {
                    Some('X') | Some('x') => {
                        let _ = self.next_char();
                        self.parse_number(0, 16)
                    },
                    Some('Z') | Some('z') => {
                        let _ = self.next_char();
                        self.parse_number(0, 12)
                    },
                    Some('D') | Some('d') => {
                        let _ = self.next_char();
                        self.parse_number(0, 10)
                    },
                    Some('O') | Some('o') => {
                        let _ = self.next_char();
                        self.parse_number(0, 8)
                    },
                    Some('B') | Some('b') => {
                        let _ = self.next_char();
                        self.parse_number(0, 2)
                    },
                    _ => self.parse_number(0, 10),
                }
            },
            Some(c) => {
                if is_ascii_digit(c) {
                    self.parse_number(digit_to_num(c), 10)
                } else if is_alphabetic(c) {
                    let mut buf = String::new();
                    push_char(&mut buf, c);
                    proof {
                        assert(buf@ =~= seq![c]);
                    }
                    match self.parse_bare_word(buf) {
                        Ok(text) => Ok(Value::String(text)),
                        Err(e) => Err(Failure::Error(e)),
                    }
                } else {
                    let mut message = String::from_str("Unexpected character ");
                    message.append("Some(");
                    let shown = char_debug(c);
                    message.append(shown.as_str());
                    message.append(")");
                    proof {
                        assert(message@ =~= msg_unexpected_character(Some(c)));
                    }
                    Err(Failure::Error(self.error(message)))
                }
            },
            None => {
                let mut message = String::from_str("Unexpected character ");
                message.append("None");
                proof {
                    assert(message@ =~= msg_unexpected_character(None));
                }
                Err(Failure::Error(self.error(message)))
            },
        }
    }

    /// Reads the rest of a list after its `[`.
    fn parse_list(&mut self) -> (r: Result<Value, Failure>)
        requires
            col_in_range(old(self)@),
        ensures
            agrees_value(r, old(self)@, final(self)@, list(old(self)@.input, old(self)@.pos, old(self)@.col as int, Seq::empty())),
            r matches Ok(v) ==> old(self)@.pos < final(self)@.pos && col_in_range(final(self)@)
                && well_formed(v@),
        decreases old(self)@.input.len() - old(self)@.pos, 1int,
    {
        let ghost start = self@;
        let ghost target = list(self@.input, self@.pos, self@.col as int, Seq::empty());
        let mut values: Vec<Value> = Vec::new();
        let mut failure: Option<Failure> = None;
        proof {
            lemma_value_models(values@);
            assert(value_models(values@) =~= Seq::<ValueModel>::empty());
        }
        loop
            invariant_except_break
                list(self@.input, self@.pos, self@.col as int, value_models(values@)) == target,
                failure is None,
                col_in_range(self@),
                start.pos <= self@.pos,
            invariant
                start == old(self)@,
                same_input(start, self@),
                forall|i: int| 0 <= i < values@.len() ==> well_formed(#[trigger] value_models(values@)[i]),
            ensures
                failure is None ==> target == (Step::Done { value: ValueModel::List(value_models(values@)), pos: self@.pos, col: self@.col as int })
                    && start.pos < self@.pos && col_in_range(self@),
                failure matches Some(f) ==> agrees_value(Err(f), start, self@, target),
            decreases self@.input.len() - self@.pos,
        {
            proof {
                use_type_invariant(&*self);
                lemma_value_models(values@);
            }
            let _ = self.skip_whitespace();
            proof {
                use_type_invariant(&*self);
            }
            match self.peek_char() {
                Some(']') => {
                    let _ = self.next_char();
                    break ;
                },
                _ => {
                    match self.parse_value() {
                        Ok(v) => {
                            proof {
                                lemma_value_models_push(values@, v);
                                use_type_invariant(&*self);
                            }
                            values.push(v);
                            proof {
                                lemma_value_models(values@);
                            }
                        },
                        Err(f) => {
                            failure = Some(f);
                            break ;
                        },
                    }
                },
            }
        }
        proof {
            lemma_value_models(values@);
        }
        match failure {
            Some(f) => Err(f),
            None => Ok(Value::List(values)),
        }
    }

    /// Reads the rest of a sum after its `(`: the tag, then the payload values.
    fn parse_tag(&mut self) -> (r: Result<Value, Failure>)
        requires
            col_in_range(old(self)@),
        ensures
            agrees_value(r, old(self)@, final(self)@, tag(old(self)@.input, old(self)@.pos, old(self)@.col as int)),
            r matches Ok(v) ==> old(self)@.pos < final(self)@.pos && col_in_range(final(self)@)
                && well_formed(v@),
        decreases old(self)@.input.len() - old(self)@.pos, 2int,
    {
        let ghost start = self@;
        let _ = self.skip_whitespace();
        proof {
            use_type_invariant(&*self);
        }
        let name = match self.next_char() {
            Some(c) => {
                if c == '"' {
                    match self.parse_string_literal() {
                        Ok(text) => text,
                        Err(e) => return Err(Failure::Error(e)),
                    }
                } else if is_alphabetic(c) {
                    let mut buf = String::new();
                    push_char(&mut buf, c);
                    proof {
                        assert(buf@ =~= seq![c]);
                    }
                    match self.parse_bare_word(buf) {
                        Ok(text) => text,
                        Err(e) => return Err(Failure::Error(e)),
                    }
                } else {
                    let mut message = String::from_str("Unexpected tag character: ");
                    push_char(&mut message, c);
                    proof {
                        assert(message@ =~= msg_tag_char(c));
                    }
                    return Err(Failure::Error(self.error(message)));
                }
            },
            None => {
                let message = String::from_str("Unexpected end of input while parsing tag");
                return Err(Failure::Error(self.error(message)));
            },
        };
        let ghost after_name = self@;
        let ghost target = tag_items(self@.input, self@.pos, self@.col as int, name@, Seq::empty());
        assert(tag(start.input, start.pos, start.col as int) == target);
        let mut values: Vec<Value> = Vec::new();
        let mut failure: Option<Failure> = None;
        proof {
            lemma_value_models(values@);
            assert(value_models(values@) =~= Seq::<ValueModel>::empty());
        }
        loop
            invariant_except_break
                tag_items(self@.input, self@.pos, self@.col as int, name@, value_models(values@)) == target,
                failure is None,
                col_in_range(self@),
                after_name.pos <= self@.pos,
            invariant
                start == old(self)@,
                same_input(start, self@),
                start.pos < after_name.pos,
                forall|i: int| 0 <= i < values@.len() ==> well_formed(#[trigger] value_models(values@)[i]),
            ensures
                failure is None ==> target == (Step::Done { value: ValueModel::Sum(name@, value_models(values@)), pos: self@.pos, col: self@.col as int })
                    && start.pos < self@.pos && col_in_range(self@),
                failure matches Some(f) ==> agrees_value(Err(f), start, self@, target),
            decreases self@.input.len() - self@.pos,
        {
            proof {
                use_type_invariant(&*self);
                lemma_value_models(values@);
            }
            let _ = self.skip_whitespace();
            proof {
                use_type_invariant(&*self);
            }
            match self.peek_char() {
                Some(')') => {
                    let _ = self.next_char();
                    break ;
                },
                _ => {
                    match self.parse_value() {
                        Ok(v) => {
                            proof {
                                lemma_value_models_push(values@, v);
                                use_type_invariant(&*self);
                            }
                            values.push(v);
                            proof {
                                lemma_value_models(values@);
                            }
                        },
                        Err(f) => {
                            failure = Some(f);
                            break ;
                        },
                    }
                },
            }
        }
        proof {
            lemma_value_models(values@);
        }
        match failure {
            Some(f) => Err(f),
            None => Ok(Value::Sum(name, values)),
        }
    }

    /// Reads the rest of a map after its `{`: keys, each followed by its value.
    fn parse_map(&mut self) -> (r: Result<Value, Failure>)
        requires
            col_in_range(old(self)@),
        ensures
            agrees_value(r, old(self)@, final(self)@, map_entries(old(self)@.input, old(self)@.pos, old(self)@.col as int, Seq::empty())),
            r matches Ok(v) ==> old(self)@.pos < final(self)@.pos && col_in_range(final(self)@)
                && well_formed(v@),
        decreases old(self)@.input.len() - old(self)@.pos, 1int,
    {
        let ghost start = self@;
        let ghost target = map_entries(self@.input, self@.pos, self@.col as int, Seq::empty());
        let mut entries: Vec<(String, Value)> = Vec::new();
        let mut failure: Option<Failure> = None;
        proof {
            lemma_entry_models(entries@);
            assert(entry_models(entries@) =~= Seq::<(Seq<char>, ValueModel)>::empty());
        }
        loop
            invariant_except_break
                map_entries(self@.input, self@.pos, self@.col as int, entry_models(entries@)) == target,
                failure is None,
                col_in_range(self@),
                start.pos <= self@.pos,
            invariant
                start == old(self)@,
                same_input(start, self@),
                keys_ascending(entry_models(entries@)),
                forall|i: int| 0 <= i < entries@.len() ==> well_formed(#[trigger] entry_models(entries@)[i].1),
            ensures
                failure is None ==> target == (Step::Done { value: ValueModel::Mapping(entry_models(entries@)), pos: self@.pos, col: self@.col as int })
                    && start.pos < self@.pos && col_in_range(self@),
                failure matches Some(f) ==> agrees_value(Err(f), start, self@, target),
            decreases self@.input.len() - self@.pos,
        {
            proof {
                use_type_invariant(&*self);
                lemma_entry_models(entries@);
            }
            let _ = self.skip_whitespace();
            proof {
                use_type_invariant(&*self);
            }
            match self.peek_char() {
                Some('}') => {
                    let _ = self.next_char();
                    break ;
                },
                _ => {
                    let raw_key = match self.parse_value() {
                        Ok(v) => v,
                        Err(f) => {
                            failure = Some(f);
                            break ;
                        },
                    };
                    proof {
                        use_type_invariant(&*self);
                    }
                    match raw_key {
                        Value::String(key) => {
                            let _ = self.skip_whitespace();
                            proof {
                                use_type_invariant(&*self);
                            }
                            let val = match self.parse_value() {
                                Ok(v) => v,
                                Err(f) => {
                                    failure = Some(f);
                                    break ;
                                },
                            };
                            proof {
                                use_type_invariant(&*self);
                            }
                            match entry_slot(&entries, &key) {
                                Some(i) => {
                                    let ghost old_entries = entries@;
                                    proof {
                                        lemma_entry_models_insert(old_entries, i as int, (key, val));
                                        lemma_insert_keeps_ascending(entry_models(old_entries), key@, val@);
                                        lemma_entry_models(old_entries);
                                    }
                                    entries.insert(i, (key, val));
                                    proof {
                                        lemma_entry_models(entries@);
                                        assert forall|j: int| 0 <= j < entries@.len() implies well_formed(#[trigger] entry_models(entries@)[j].1) by {
                                            if j < i {
                                                assert(entry_models(entries@)[j] == entry_models(old_entries)[j]);
                                            } else if j > i {
                                                assert(entry_models(entries@)[j] == entry_models(old_entries)[j - 1]);
                                            }
                                        }
                                    }
                                },
                                None => {
                                    let mut message = String::from_str("Repeated key in map: ");
                                    message.append(key.as_str());
                                    proof {
                                        assert(message@ =~= msg_repeated_key(key@));
                                    }
                                    failure = Some(Failure::Error(self.error(message)));
                                    break ;
                                },
                            }
                        },
                        other => {
                            let mut message = String::from_str("Expected a string key, found ");
                            let shown = render_value(&other);
                            message.append(shown.as_str());
                            proof {
                                assert(message@ =~= msg_key_not_string(other@));
                            }
                            failure = Some(Failure::Error(self.error(message)));
                            break ;
                        },
                    }
                },
            }
        }
        proof {
            lemma_entry_models(entries@);
        }
        match failure {
            Some(f) => Err(f),
            None => Ok(Value::Mapping(entries)),
        }
    }

    /// Reads a whole document: one value with white space and comments around it,
    /// and nothing after.
    fn parse(&mut self) -> (r: Result<Value, Failure>)
        requires
            old(self)@.pos == 0,
            old(self)@.col == 0,
        ensures
            agrees_value(r, old(self)@, final(self)@, document(old(self)@.input)),
            r matches Ok(v) ==> well_formed(v@),
    {
        proof {
            use_type_invariant(&*self);
        }
        let _ = self.skip_whitespace();
        let value = match self.parse_value() {
            Ok(v) => v,
            Err(f) => return Err(f),
        };
        let _ = self.skip_whitespace();
        proof {
            use_type_invariant(&*self);
        }
        if let Some(c) = self.next_char() {
            let mut message = String::from_str("Unexpected ");
            push_char(&mut message, c);
            message.append(", expected end of input");
            proof {
                assert(message@ =~= msg_trailing(c));
            }
            return Err(Failure::Error(self.error(message)));
        }
        Ok(value)
    }
}

/// The result `r` of parsing a whole document is what `st` says: the value, or the
/// error at row 0 and the column of the failure, with no source name.
pub open spec fn document_agrees(r: Result<Value, AdnotError>, st: Step<ValueModel>) -> bool {
    match st {
        Step::Done { value, .. } => r matches Ok(v) && v@ == value && well_formed(v@),
        Step::Fail { message, col } => r matches Err(e) && 0 <= col <= u64::MAX && e@ == (ErrorModel {
            message,
            row: 0,
            col: col as u64,
            src: None,
        }),
        Step::Abort => false,
    }
}

/// The characters of `s`, in order.
fn chars_of(s: &str) -> (v: Vec<char>)
    ensures
        v@ == s@,
{
    let mut v: Vec<char> = Vec::new();
    for c in it: s.chars()
        invariant
            v@ == it.seq().take(it.index()),
    {
        v.push(c);
    }
    v
}

impl Value {
    /// Parses the characters `chars` as a document; `None` where the input lies
    /// outside what the parser handles (a floating-point literal, or an integer
    /// beyond `i64`).
    fn parse_chars(chars: Vec<char>) -> (r: Option<Result<Value, AdnotError>>)
        requires
            chars.len() <= isize::MAX,
        ensures
            r is None <==> document(chars@) is Abort,
            r matches Some(res) ==> document_agrees(res, document(chars@)),
    {
        let mut parser = Parser::new(chars);
        match parser.parse() {
            Ok(v) => Some(Ok(v)),
            Err(Failure::Error(e)) => Some(Err(e)),
            Err(Failure::Unsupported) => None,
        }
    }

    /// Parses `s`, or gives `None` where `s` lies outside what the parser handles: a
    /// decimal number followed by a decimal point (a floating-point literal), or an
    /// integer that does not fit in an `i64`.
    pub fn parse_str_checked(s: &str) -> (r: Option<Result<Value, AdnotError>>)
        requires
            s@.len() <= isize::MAX,
        ensures
            r is None <==> document(s@) is Abort,
            r matches Some(res) ==> document_agrees(res, document(s@)),
    {
        Self::parse_chars(chars_of(s))
    }

    /// Parses the document `s`.
    pub fn parse_str(s: &str) -> (r: Result<Value, AdnotError>)
        requires
            s@.len() <= isize::MAX,
            !(document(s@) is Abort),
        ensures
            document_agrees(r, document(s@)),
    {
        Self::parse_chars(chars_of(s)).unwrap()
    }

    /// Parses the document `s`.
    pub fn parse_string(s: String) -> (r: Result<Value, AdnotError>)
        requires
            s@.len() <= isize::MAX,
            !(document(s@) is Abort),
        ensures
            document_agrees(r, document(s@)),
    {
        Self::parse_chars(chars_of(s.as_str())).unwrap()
    }

    /// Parses the document made of the characters `chars`.
    pub fn parse_iter(chars: Vec<char>) -> (r: Result<Value, AdnotError>)
        requires
            chars.len() <= isize::MAX,
            !(document(chars@) is Abort),
        ensures
            document_agrees(r, document(chars@)),
    {
        Self::parse_chars(chars).unwrap()
    }
}

} // verus!
