use adnot::parser::{digit_to_num, is_special, Parser};
use adnot::{AdnotError, Value};

fn parse(s: &str) -> Result<Value, AdnotError> {
    Value::parse_str(s)
}

fn error_text(s: &str) -> String {
    parse(s).unwrap_err().to_string()
}

fn s(text: &str) -> Value {
    Value::String(text.to_string())
}

#[test]
fn integers_in_the_documented_bases() {
    assert_eq!(parse("1234").unwrap(), Value::Int(1234));
    assert_eq!(parse("0d1234").unwrap(), Value::Int(1234));
    assert_eq!(parse("0xbeef").unwrap(), Value::Int(48879));
    assert_eq!(parse("0XBEEF").unwrap(), Value::Int(48879));
    assert_eq!(parse("0zbaba").unwrap(), Value::Int(20590));
    assert_eq!(parse("0o7171").unwrap(), Value::Int(3705));
    assert_eq!(parse("0b1010_0101").unwrap(), Value::Int(165));
    assert_eq!(parse("0").unwrap(), Value::Int(0));
    assert_eq!(parse("007").unwrap(), Value::Int(7));
}

#[test]
fn underscores_in_numbers_are_ignored() {
    assert_eq!(parse("1_000_000").unwrap(), parse("1000000").unwrap());
    assert_eq!(parse("0x_f_f").unwrap(), Value::Int(255));
    assert_eq!(parse("1__2").unwrap(), Value::Int(12));
}

#[test]
fn decimal_prefix_is_redundant() {
    assert_eq!(parse("0d987").unwrap(), parse("987").unwrap());
    assert_eq!(parse("[0D5 6]").unwrap(), parse("[5 6]").unwrap());
}

#[test]
fn largest_integer_fits_and_the_next_is_out_of_reach() {
    assert_eq!(parse("9223372036854775807").unwrap(), Value::Int(i64::MAX));
    assert!(Value::parse_str_checked("9223372036854775808").is_none());
    assert!(Value::parse_str_checked("0x8000000000000000").is_none());
}

#[test]
fn decimal_point_after_a_decimal_number_is_out_of_reach() {
    assert!(Value::parse_str_checked("1.5").is_none());
    assert!(Value::parse_str_checked("[0 2.0]").is_none());
    assert!(Value::parse_str_checked("[1 2]").unwrap().is_ok());
}

#[test]
fn decimal_point_in_another_base_is_an_error() {
    assert_eq!(error_text("0x1.5"), "[0:3]: Base-16 floats are not supported\n");
    assert_eq!(error_text("0b1.0"), "[0:3]: Base-2 floats are not supported\n");
    assert_eq!(error_text("0z1."), "[0:3]: Base-12 floats are not supported\n");
}

#[test]
fn invalid_character_in_number() {
    let e = parse("12a").unwrap_err();
    assert_eq!(e.message, "Invalid character in number: a");
    assert_eq!(e.to_string(), "[0:2]: Invalid character in number: a\n");
    assert_eq!(error_text("0x1g"), "[0:3]: Invalid character in number: g\n");
}

#[test]
fn bare_words() {
    assert_eq!(parse("one_two_three").unwrap(), s("one_two_three"));
    assert_eq!(parse("foo").unwrap(), s("foo"));
    assert_eq!(parse("x1").unwrap(), s("x1"));
    assert_eq!(parse("héllo").unwrap(), s("héllo"));
    assert_eq!(error_text("foo-bar"), "[0:3]: Invalid character in string: -\n");
}

#[test]
fn quoted_strings() {
    assert_eq!(parse("\"bar baz\"").unwrap(), s("bar baz"));
    assert_eq!(parse("\"\"").unwrap(), s(""));
    assert_eq!(parse("\"a\\tb\\rc\\fd\\\\e\"").unwrap(), s("a\tb\rc\x0cd\\e"));
    assert_eq!(parse("\"[1 2]\"").unwrap(), s("[1 2]"));
}

#[test]
fn a_string_literal_may_run_to_the_end_of_input() {
    assert_eq!(parse("\"abc").unwrap(), s("abc"));
}

#[test]
fn invalid_escape() {
    assert_eq!(error_text("\"\\q\""), "[0:3]: Invalid escape: \\q\n");
    assert_eq!(
        error_text("\"abc\\"),
        "[0:6]: Unexpected end-of-file when parsing string literal\n"
    );
}

#[test]
fn sums() {
    assert_eq!(
        parse("(foo 1 2 3)").unwrap(),
        Value::Sum("foo".to_string(), vec![Value::Int(1), Value::Int(2), Value::Int(3)])
    );
    assert_eq!(parse("(\"bar\")").unwrap(), Value::Sum("bar".to_string(), Vec::new()));
    assert_eq!(
        parse("( tag [x] )").unwrap(),
        Value::Sum("tag".to_string(), vec![Value::List(vec![s("x")])])
    );
    assert_eq!(error_text("(1)"), "[0:2]: Unexpected tag character: 1\n");
    assert_eq!(error_text("("), "[0:2]: Unexpected end of input while parsing tag\n");
}

#[test]
fn maps_hold_their_keys_in_order() {
    let v = parse("{ foo 1 \"bar\" 2 }").unwrap();
    assert_eq!(
        v,
        Value::Mapping(vec![("bar".to_string(), Value::Int(2)), ("foo".to_string(), Value::Int(1))])
    );
    assert_eq!(parse("{a 1 b 2}").unwrap(), parse("{b 2 a 1}").unwrap());
    assert_eq!(parse("{}").unwrap(), Value::Mapping(Vec::new()));
    assert_eq!(
        parse("{b [] a {} ab 3}").unwrap(),
        Value::Mapping(vec![
            ("a".to_string(), Value::Mapping(Vec::new())),
            ("ab".to_string(), Value::Int(3)),
            ("b".to_string(), Value::List(Vec::new())),
        ])
    );
}

#[test]
fn a_repeated_key_is_an_error() {
    assert_eq!(error_text("{a 1 a 2}"), "[0:8]: Repeated key in map: a\n");
    assert_eq!(error_text("{a 1 \"a\" 2}"), "[0:10]: Repeated key in map: a\n");
}

#[test]
fn a_key_must_be_a_string() {
    assert_eq!(error_text("{1 2}"), "[0:2]: Expected a string key, found Int(1)\n");
    assert_eq!(error_text("{[] 2}"), "[0:3]: Expected a string key, found List([])\n");
}

#[test]
fn an_odd_number_of_values_in_a_map_is_an_error() {
    assert_eq!(error_text("{a}"), "[0:3]: Unexpected character Some('}')\n");
    assert_eq!(error_text("{a 1 b}"), "[0:7]: Unexpected character Some('}')\n");
}

#[test]
fn unexpected_characters() {
    assert_eq!(error_text("[1"), "[0:3]: Unexpected character None\n");
    assert_eq!(error_text(""), "[0:1]: Unexpected character None\n");
    assert_eq!(error_text("]"), "[0:1]: Unexpected character Some(']')\n");
    assert_eq!(error_text("[\n@"), "[0:1]: Unexpected character Some('@')\n");
    assert_eq!(error_text("\t"), "[0:2]: Unexpected character None\n");
    assert_eq!(error_text("'"), "[0:1]: Unexpected character Some('\\'')\n");
}

#[test]
fn trailing_input_is_an_error() {
    assert_eq!(error_text("[] x"), "[0:4]: Unexpected x, expected end of input\n");
    assert_eq!(error_text("1 2"), "[0:3]: Unexpected 2, expected end of input\n");
}

#[test]
fn the_row_is_never_advanced() {
    let e = parse("[\n\n1\n}").unwrap_err();
    assert_eq!(e.to_string(), "[0:1]: Unexpected character Some('}')\n");
}

#[test]
fn comments_and_white_space_are_skipped() {
    assert_eq!(parse("# only\n7 # after").unwrap(), Value::Int(7));
    assert_eq!(parse("[1#c\n2]").unwrap(), Value::List(vec![Value::Int(1), Value::Int(2)]));
    assert_eq!(parse("\u{a0}[ ]\u{2003}").unwrap(), Value::List(Vec::new()));
    assert_eq!(parse("\r\n\t[\x0b\x0c]").unwrap(), Value::List(Vec::new()));
}

#[test]
fn nested_values() {
    assert_eq!(
        parse("[foo 2 {}]").unwrap(),
        Value::List(vec![s("foo"), Value::Int(2), Value::Mapping(Vec::new())])
    );
    assert_eq!(
        parse("{k (t [1 {x y}])}").unwrap(),
        Value::Mapping(vec![(
            "k".to_string(),
            Value::Sum(
                "t".to_string(),
                vec![Value::List(vec![
                    Value::Int(1),
                    Value::Mapping(vec![("x".to_string(), s("y"))]),
                ])]
            )
        )])
    );
}

#[test]
fn the_three_entry_points_agree() {
    let text = "[a (b 0x10) {c \"d\"}]";
    let chars: Vec<char> = text.chars().collect();
    let expected = parse(text).unwrap();
    assert_eq!(Value::parse_string(text.to_string()).unwrap(), expected);
    assert_eq!(Value::parse_iter(chars).unwrap(), expected);
    assert_eq!(Value::parse_str_checked(text).unwrap().unwrap(), expected);
}

#[test]
fn special_characters() {
    for c in ['[', ']', '(', ')', '{', '}', '#'] {
        assert!(is_special(c));
    }
    for c in ['a', '_', ' ', '"', '0', '.'] {
        assert!(!is_special(c));
    }
}

#[test]
fn hexadecimal_digits() {
    assert_eq!(digit_to_num('0'), 0);
    assert_eq!(digit_to_num('9'), 9);
    assert_eq!(digit_to_num('a'), 10);
    assert_eq!(digit_to_num('B'), 11);
    assert_eq!(digit_to_num('f'), 15);
    assert_eq!(digit_to_num('F'), 15);
}

#[test]
fn parser_reads_characters_and_tracks_the_column() {
    let mut p = Parser::new("a\nb".chars().collect());
    assert_eq!(p.peek_char(), Some('a'));
    assert_eq!(p.next_char(), Some('a'));
    assert_eq!(format!("{:?}", p.loc()), "Location { row: 0, col: 1, src: None }");
    assert_eq!(p.next_char(), Some('\n'));
    assert_eq!(format!("{:?}", p.loc()), "Location { row: 0, col: 0, src: None }");
    assert_eq!(p.next_char(), Some('b'));
    assert_eq!(p.next_char(), None);
    assert_eq!(p.next_char(), None);
    assert_eq!(format!("{:?}", p.loc()), "Location { row: 0, col: 3, src: None }");
    let e = p.err::<()>("boom".to_string()).unwrap_err();
    assert_eq!(e.to_string(), "[0:3]: boom\n");
}

#[test]
fn parser_skips_white_space_and_comments() {
    let mut p = Parser::new("  # note\n  x".chars().collect());
    assert!(p.skip_whitespace().is_ok());
    assert_eq!(p.peek_char(), Some('x'));
    assert_eq!(format!("{:?}", p.loc()), "Location { row: 0, col: 2, src: None }");
    let mut q = Parser::new("# to the end".chars().collect());
    assert!(q.skip_comment().is_ok());
    assert_eq!(q.peek_char(), None);
    assert_eq!(format!("{:?}", q.loc()), "Location { row: 0, col: 13, src: None }");
}

#[test]
fn parser_reads_words_strings_and_escapes() {
    let mut p = Parser::new("oo_1 rest".chars().collect());
    assert_eq!(p.parse_bare_word("f".to_string()).unwrap(), "foo_1");
    assert_eq!(p.peek_char(), Some(' '));
    let mut q = Parser::new("a\\\"b\" tail".chars().collect());
    assert_eq!(q.parse_string_literal().unwrap(), "a\"b");
    assert_eq!(q.peek_char(), Some(' '));
    let mut r = Parser::new("n".chars().collect());
    assert_eq!(r.parse_escape().unwrap(), '\n');
    let mut t = Parser::new("x!".chars().collect());
    assert_eq!(t.parse_bare_word(String::new()).unwrap_err().message, "Invalid character in string: !");
}

#[test]
fn blank_prefix_changes_only_columns() {
    assert_eq!(parse("# header\n  [1 2]").unwrap(), parse("[1 2]").unwrap());
    assert_eq!(parse(" \t# a\n# b\n{a 1}").unwrap(), parse("{a 1}").unwrap());
    let plain = parse("[1").unwrap_err();
    let padded = parse("   [1").unwrap_err();
    assert_eq!(plain.message, padded.message);
    assert_eq!(plain.to_string(), "[0:3]: Unexpected character None\n");
    assert_eq!(padded.to_string(), "[0:6]: Unexpected character None\n");
}

#[test]
fn map_entries_in_any_order_give_the_same_map() {
    let a = parse("{x 1 y 2 z 3}").unwrap();
    let b = parse("{z 3 x 1 y 2}").unwrap();
    let c = parse("{y 2 z 3 x 1}").unwrap();
    assert_eq!(a, b);
    assert_eq!(b, c);
}

#[test]
fn a_repeated_key_in_a_nested_map_is_an_error() {
    assert_eq!(error_text("[{a 1} {b 2 b 3}]"), "[0:15]: Repeated key in map: b\n");
}

#[test]
fn words_beyond_ascii() {
    assert_eq!(parse("京都").unwrap(), s("京都"));
    assert_eq!(parse("(ñu 1)").unwrap(), Value::Sum("ñu".to_string(), vec![Value::Int(1)]));
    assert_eq!(error_text("€"), "[0:1]: Unexpected character Some('€')\n");
}

#[test]
fn checked_parse_reports_errors_too() {
    let r = Value::parse_str_checked("[1").unwrap();
    assert_eq!(r.unwrap_err().to_string(), "[0:3]: Unexpected character None\n");
}

#[test]
fn a_non_string_key_is_shown_in_the_error() {
    assert_eq!(
        error_text("{{a 1} 2}"),
        "[0:6]: Expected a string key, found Map({\"a\": Int(1)})\n"
    );
    assert_eq!(
        error_text("{(t \"x\" 2) 1}"),
        "[0:10]: Expected a string key, found Sum(\"t\", [String(\"x\"), Int(2)])\n"
    );
    assert_eq!(
        error_text("{[1 \"q\\\"\"] 5}"),
        "[0:10]: Expected a string key, found List([Int(1), String(\"q\\\"\")])\n"
    );
    assert_eq!(error_text("{0x7fffffffffffffff 1}"), "[0:19]: Expected a string key, found Int(9223372036854775807)\n");
}

#[test]
fn reading_a_quoted_string_undoes_escaping() {
    for x in ["", "plain", "a\\b", "say \"hi\"", "\\\"\\", "line\nbreak"] {
        let mut escaped = String::new();
        for c in x.chars() {
            if c == '\\' || c == '"' {
                escaped.push('\\');
            }
            escaped.push(c);
        }
        escaped.push_str("\" rest");
        let mut p = Parser::new(escaped.chars().collect());
        assert_eq!(p.parse_string_literal().unwrap(), x);
        assert_eq!(p.peek_char(), Some(' '));
    }
}

#[test]
fn blank_suffix_changes_nothing() {
    assert_eq!(parse("[1 2] # end").unwrap(), parse("[1 2]").unwrap());
    assert_eq!(parse("foo  \n# c\n").unwrap(), parse("foo").unwrap());
    assert_eq!(parse("0x1f\t").unwrap(), parse("0x1f").unwrap());
    assert_eq!(parse("[1").unwrap_err().message, parse("[1 \n").unwrap_err().message);
    // A string that is never closed takes in what follows it.
    assert_eq!(parse("\"ab").unwrap(), s("ab"));
    assert_eq!(parse("\"ab ").unwrap(), s("ab "));
}

#[test]
fn blank_around_changes_nothing() {
    assert_eq!(parse("  # lead\n[1 2] # end").unwrap(), parse("[1 2]").unwrap());
    assert_eq!(parse("\n\t{\"a\" 1}\n\n").unwrap(), parse("{\"a\" 1}").unwrap());
    assert_eq!(parse(" # c\n[1 \n").unwrap_err().message, parse("[1").unwrap_err().message);
}

#[test]
fn map_keys_show_in_ascending_order() {
    assert_eq!(
        error_text("{{b 1 a 2} 3}"),
        "[0:10]: Expected a string key, found Map({\"a\": Int(2), \"b\": Int(1)})\n"
    );
    assert_eq!(error_text("{{} 1}"), "[0:3]: Expected a string key, found Map({})\n");
    assert_eq!(error_text("{-5 1}"), "[0:2]: Unexpected character Some('-')\n");
}

#[test]
fn unicode_white_space_is_skipped() {
    assert_eq!(parse("\u{3000}7\u{85}").unwrap(), Value::Int(7));
    assert_eq!(
        parse("\u{2028}[1\u{205f}2\u{202f}3]\u{1680}").unwrap(),
        Value::List(vec![Value::Int(1), Value::Int(2), Value::Int(3)])
    );
    assert!(parse("\u{200b}7").is_err());
}
