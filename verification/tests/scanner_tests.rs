use mini_lisp::scanner::scan;
use mini_lisp::scanner::utils::{arithmetic, chars2bytes, is_float, keyword, parse_const, relation};
use mini_lisp::scanner::utils::{split_chars, text_is, tokenize};
use mini_lisp::scanner::whitespace_cnt;
use mini_lisp::text::{byte_len, count_leading, first_char, CharClass};
use mini_lisp::{ScanError, TableItem, TokenType, TokenUnit, ValueType};

fn kinds(tokens: &[TokenUnit]) -> Vec<TokenType> {
    tokens.iter().map(|token| token.token_type).collect()
}

fn scan_ok(input: &str) -> (Vec<TokenUnit>, Vec<TableItem>) {
    match scan(input) {
        Ok(streams) => streams,
        Err(e) => panic!("scan failed: {:?}", e),
    }
}

fn one(line: &str) -> (TokenUnit, TableItem) {
    match tokenize(line, 0, 0) {
        Ok(found) => found,
        Err(e) => panic!("tokenize failed: {:?}", e),
    }
}

fn text(s: &str) -> Option<ValueType> {
    Some(ValueType::Str(String::from(s)))
}

#[test]
fn scan_sum_yields_five_tokens() {
    let (tokens, table) = scan_ok("(+ 1 2)");
    assert_eq!(
        kinds(&tokens),
        vec![
            TokenType::LParen,
            TokenType::PlusOp,
            TokenType::Const,
            TokenType::Const,
            TokenType::RParen
        ]
    );
    assert_eq!(table[2].value, Some(ValueType::Int(1)));
    assert_eq!(table[3].value, Some(ValueType::Int(2)));
    assert_eq!(table[0].value, None);
    assert_eq!(table[1].value, None);
    assert_eq!(table[4].value, None);
    let columns: Vec<(usize, usize)> = table.iter().map(|item| item.index).collect();
    assert_eq!(columns, vec![(0, 0), (0, 1), (0, 3), (0, 5), (0, 6)]);
}

#[test]
fn scan_keeps_streams_in_step() {
    let input = "(define (square x)\n  (* x x))\n\n(display (square 12))\n";
    let (tokens, table) = scan_ok(input);
    assert_eq!(tokens.len(), table.len());
    assert_eq!(tokens.len(), 19);
    for (i, token) in tokens.iter().enumerate() {
        assert_eq!(token.table_ptr, i);
    }
    for (token, item) in tokens.iter().zip(table.iter()) {
        let denotes = token.token_type == TokenType::Const || token.token_type == TokenType::Id;
        assert_eq!(item.value.is_some(), denotes);
    }
    for pair in table.windows(2) {
        let (a, b) = (pair[0].index, pair[1].index);
        assert!(a.0 < b.0 || (a.0 == b.0 && a.1 < b.1));
    }
    assert_eq!(table[0].index, (0, 0));
    assert_eq!(table[1].index, (0, 1));
    assert_eq!(table[6].index, (1, 2));
    assert_eq!(table[12].index, (3, 0));
    assert_eq!(table[18].index, (3, 20));
}

#[test]
fn scan_gives_each_occurrence_its_own_entry() {
    let (tokens, table) = scan_ok("x x x");
    assert_eq!(tokens.len(), 3);
    assert_eq!(table[0].value, text("x"));
    assert_eq!(table[1].value, text("x"));
    assert_eq!(table[2].value, text("x"));
    assert_eq!(table[0].index, (0, 0));
    assert_eq!(table[1].index, (0, 2));
    assert_eq!(table[2].index, (0, 4));
}

#[test]
fn scan_empty_text_yields_nothing() {
    let (tokens, table) = scan_ok("");
    assert!(tokens.is_empty());
    assert!(table.is_empty());
}

#[test]
fn scan_blank_lines_yield_nothing() {
    let (tokens, table) = scan_ok("   \n\t\n \r\n\n  ");
    assert!(tokens.is_empty());
    assert!(table.is_empty());
}

#[test]
fn scan_processes_last_line_without_terminator() {
    let (tokens, table) = scan_ok("a\nb");
    assert_eq!(kinds(&tokens), vec![TokenType::Id, TokenType::Id]);
    assert_eq!(table[1].index, (1, 0));
    assert_eq!(table[1].value, text("b"));
}

#[test]
fn scan_counts_rows_across_both_line_endings() {
    let (tokens, table) = scan_ok("a\r\n  b\n\n\tc\r\n");
    assert_eq!(tokens.len(), 3);
    assert_eq!(table[0].index, (0, 0));
    assert_eq!(table[1].index, (1, 2));
    assert_eq!(table[2].index, (3, 1));
}

#[test]
fn scan_keeps_a_lone_carriage_return_inside_a_string() {
    let (tokens, table) = scan_ok("\"a\rb\" c");
    assert_eq!(kinds(&tokens), vec![TokenType::Const, TokenType::Id]);
    assert_eq!(table[0].value, text("a\rb"));
    assert_eq!(table[1].index, (0, 6));
}

#[test]
fn scan_counts_columns_in_characters() {
    let (tokens, table) = scan_ok("(\u{3000}\u{53d8}\u{91cf} \"\u{e9}\u{e9}\" z)");
    assert_eq!(
        kinds(&tokens),
        vec![
            TokenType::LParen,
            TokenType::Id,
            TokenType::Const,
            TokenType::Id,
            TokenType::RParen
        ]
    );
    assert_eq!(table[1].index, (0, 2));
    assert_eq!(table[1].value, text("\u{53d8}\u{91cf}"));
    assert_eq!(table[2].index, (0, 5));
    assert_eq!(table[2].value, text("\u{e9}\u{e9}"));
    assert_eq!(table[3].index, (0, 10));
    assert_eq!(table[4].index, (0, 11));
}

#[test]
fn scan_reports_where_no_token_starts() {
    assert_eq!(scan("(foo @)"), Err(ScanError::InvalidCharacter((0, 5))));
    assert_eq!(scan("a\n  b ~"), Err(ScanError::InvalidCharacter((1, 4))));
    assert_eq!(scan("(a\n(b\n   1abc)"), Err(ScanError::InvalidCharacter((2, 3))));
}

#[test]
fn scan_rejects_an_unterminated_string() {
    assert_eq!(scan("(display \"abc)"), Err(ScanError::InvalidCharacter((0, 9))));
    assert_eq!(scan("\"abc\\\""), Err(ScanError::InvalidCharacter((0, 0))));
    assert_eq!(scan("\"abc\ndef\""), Err(ScanError::InvalidCharacter((0, 0))));
}

#[test]
fn digit_never_starts_an_identifier() {
    assert_eq!(tokenize("1abc", 3, 7), Err(ScanError::InvalidCharacter((3, 7))));
    assert_eq!(tokenize("9_lives", 0, 0), Err(ScanError::InvalidCharacter((0, 0))));
    assert_eq!(scan("1abc"), Err(ScanError::InvalidCharacter((0, 0))));
    let (token, item) = one("123");
    assert_eq!(token.token_type, TokenType::Const);
    assert_eq!(item.value, Some(ValueType::Int(123)));
    let (token, item) = one("1e3 x");
    assert_eq!(token.token_type, TokenType::Const);
    assert_eq!(token.table_ptr, 3);
    assert_eq!(item.value, Some(ValueType::Float(String::from("1e3"))));
}

#[test]
fn string_with_escaped_quote_is_one_constant() {
    let (token, item) = one("\"a\\\"b\"");
    assert_eq!(token.token_type, TokenType::Const);
    assert_eq!(token.table_ptr, 6);
    assert_eq!(item.value, text("a\\\"b"));
    let (tokens, table) = scan_ok("\"a\\\"b\"");
    assert_eq!(tokens.len(), 1);
    assert_eq!(table[0].value, text("a\\\"b"));
}

#[test]
fn string_ends_at_the_first_unescaped_quote() {
    let (token, item) = one("\"\"");
    assert_eq!(token.table_ptr, 2);
    assert_eq!(item.value, text(""));
    let (token, item) = one("\"ab\"cd\"");
    assert_eq!(token.table_ptr, 4);
    assert_eq!(item.value, text("ab"));
    let (token, item) = one("\"a b (c)\" d");
    assert_eq!(token.table_ptr, 9);
    assert_eq!(item.value, text("a b (c)"));
    // A backslash in front of the quote keeps the string open, escaped itself or not.
    let (token, item) = one("\"a\\\\\" b\"");
    assert_eq!(token.table_ptr, 8);
    assert_eq!(item.value, text("a\\\\\" b"));
}

#[test]
fn tokenize_carries_position_and_length() {
    let (token, item) = match tokenize("lambda (x)", 4, 9) {
        Ok(found) => found,
        Err(e) => panic!("tokenize failed: {:?}", e),
    };
    assert_eq!(token.token_type, TokenType::Lambda);
    assert_eq!(token.table_ptr, 6);
    assert_eq!(item.index, (4, 9));
    assert_eq!(item.value, None);
}

#[test]
fn tokenize_recognizes_parentheses_first() {
    let (token, item) = one("(define");
    assert_eq!(token, TokenUnit { token_type: TokenType::LParen, table_ptr: 1 });
    assert_eq!(item.value, None);
    let (token, _) = one(")))");
    assert_eq!(token, TokenUnit { token_type: TokenType::RParen, table_ptr: 1 });
}

#[test]
fn tokenize_recognizes_every_reserved_word() {
    let words = [
        ("define", TokenType::Define),
        ("if", TokenType::If),
        ("list", TokenType::List),
        ("cons", TokenType::Cons),
        ("lambda", TokenType::Lambda),
        ("display", TokenType::Display),
        ("quote", TokenType::Quote),
    ];
    for (word, kind) in words {
        let (token, item) = one(word);
        assert_eq!(token.token_type, kind);
        assert_eq!(token.table_ptr, word.len());
        assert_eq!(item.value, None);
    }
}

#[test]
fn reserved_word_must_be_the_whole_word() {
    let (token, item) = one("define2");
    assert_eq!(token.token_type, TokenType::Id);
    assert_eq!(item.value, text("define2"));
    let (token, _) = one("iff");
    assert_eq!(token.token_type, TokenType::Id);
    let (token, _) = one("Define");
    assert_eq!(token.token_type, TokenType::Id);
    let (token, _) = one("if(");
    assert_eq!(token.token_type, TokenType::If);
}

#[test]
fn quote_mark_is_a_token_of_its_own() {
    let (token, item) = one("'");
    assert_eq!(token, TokenUnit { token_type: TokenType::QuoteMark, table_ptr: 1 });
    assert_eq!(item.value, None);
    let (tokens, table) = scan_ok("'abc '(1 2)");
    assert_eq!(
        kinds(&tokens),
        vec![
            TokenType::QuoteMark,
            TokenType::Id,
            TokenType::QuoteMark,
            TokenType::LParen,
            TokenType::Const,
            TokenType::Const,
            TokenType::RParen
        ]
    );
    assert_eq!(table[1].index, (0, 1));
    assert_eq!(table[1].value, text("abc"));
    assert_eq!(table[2].index, (0, 5));
}

#[test]
fn tokenize_recognizes_identifiers() {
    let (token, item) = one("foo_bar1 baz");
    assert_eq!(token.token_type, TokenType::Id);
    assert_eq!(token.table_ptr, 8);
    assert_eq!(item.value, text("foo_bar1"));
    let (token, item) = one("_");
    assert_eq!(token.token_type, TokenType::Id);
    assert_eq!(item.value, text("_"));
    let (token, item) = one("\u{e9}t\u{e9}\u{b2}");
    assert_eq!(token.token_type, TokenType::Id);
    assert_eq!(token.table_ptr, 4);
    assert_eq!(item.value, text("\u{e9}t\u{e9}\u{b2}"));
    assert_eq!(tokenize("foo-bar", 0, 0), Err(ScanError::InvalidCharacter((0, 0))));
    assert_eq!(tokenize("a.b", 0, 0), Err(ScanError::InvalidCharacter((0, 0))));
}

#[test]
fn tokenize_recognizes_arithmetic_operators() {
    let operators = [
        ("+", TokenType::PlusOp),
        ("-", TokenType::MinusOp),
        ("*", TokenType::MulOp),
        ("/", TokenType::DivOp),
    ];
    for (word, kind) in operators {
        let (token, item) = one(word);
        assert_eq!(token, TokenUnit { token_type: kind, table_ptr: 1 });
        assert_eq!(item.value, None);
    }
    assert_eq!(tokenize("++", 0, 0), Err(ScanError::InvalidCharacter((0, 0))));
    assert_eq!(tokenize("+a", 0, 0), Err(ScanError::InvalidCharacter((0, 0))));
}

#[test]
fn tokenize_recognizes_comparison_operators() {
    let operators = [
        ("<=", TokenType::LessEq, 2),
        (">=", TokenType::GreaterEq, 2),
        ("<", TokenType::LessThan, 1),
        (">", TokenType::GreaterThan, 1),
        ("=", TokenType::Eq, 1),
    ];
    for (word, kind, len) in operators {
        let (token, item) = one(word);
        assert_eq!(token, TokenUnit { token_type: kind, table_ptr: len });
        assert_eq!(item.value, None);
    }
    let (token, _) = one("<= 1 2");
    assert_eq!(token, TokenUnit { token_type: TokenType::LessEq, table_ptr: 2 });
    assert_eq!(tokenize("==", 0, 0), Err(ScanError::InvalidCharacter((0, 0))));
    assert_eq!(tokenize("=<", 0, 0), Err(ScanError::InvalidCharacter((0, 0))));
}

#[test]
fn tokenize_reads_integers() {
    let cases: [(&str, isize); 7] =
        [("0", 0), ("42", 42), ("-7", -7), ("+3", 3), ("007", 7), ("-0", 0), ("1234567890", 1234567890)];
    for (word, value) in cases {
        let (token, item) = one(word);
        assert_eq!(token.token_type, TokenType::Const);
        assert_eq!(token.table_ptr, word.len());
        assert_eq!(item.value, Some(ValueType::Int(value)));
    }
    let (_, item) = one(&isize::MAX.to_string());
    assert_eq!(item.value, Some(ValueType::Int(isize::MAX)));
    let (_, item) = one(&isize::MIN.to_string());
    assert_eq!(item.value, Some(ValueType::Int(isize::MIN)));
}

#[test]
fn integer_too_large_is_a_float() {
    let word = "99999999999999999999999999";
    let (token, item) = one(word);
    assert_eq!(token.token_type, TokenType::Const);
    assert_eq!(item.value, Some(ValueType::Float(String::from(word))));
    let word = "-99999999999999999999999999";
    let (_, item) = one(word);
    assert_eq!(item.value, Some(ValueType::Float(String::from(word))));
}

#[test]
fn tokenize_reads_floats() {
    let (token, item) = one("3.14)");
    assert_eq!(token.token_type, TokenType::Const);
    assert_eq!(token.table_ptr, 4);
    match item.value {
        Some(ValueType::Float(written)) => {
            assert_eq!(written, "3.14");
            assert_eq!(written.parse::<f64>(), Ok(3.14));
        }
        other => panic!("not a float: {:?}", other),
    }
    let (_, item) = one("-2.5e-3");
    match item.value {
        Some(ValueType::Float(written)) => assert_eq!(written.parse::<f64>(), Ok(-0.0025)),
        other => panic!("not a float: {:?}", other),
    }
    let (token, item) = one("inf");
    assert_eq!(token.token_type, TokenType::Const);
    match item.value {
        Some(ValueType::Float(written)) => assert_eq!(written.parse::<f64>(), Ok(f64::INFINITY)),
        other => panic!("not a float: {:?}", other),
    }
    let (token, _) = one("NaN");
    assert_eq!(token.token_type, TokenType::Const);
    let (token, item) = one("information");
    assert_eq!(token.token_type, TokenType::Id);
    assert_eq!(item.value, text("information"));
}

#[test]
fn float_literals_are_those_that_parse() {
    let words = [
        "", "+", "-", ".", "+.", "-.", "e", "e5", "E5", ".e5", "1e", "1e+", "1e-", "1E", "1.e",
        "1", "12", "1.", ".1", "1.5", "+1.5", "-1.5", "+.5", "-.5", "5.", "-5.", "1e5", "1E5",
        "1e+5", "1e-5", "1.e5", ".1e5", "1.5e10", "1.5E-10", "0.0", "00.00", "1e05", "1e999",
        "1e-999", "123456789012345678901234567890", "0.000000000000000000000000001",
        "inf", "INF", "Inf", "iNf", "+inf", "-inf", "infinity", "INFINITY", "Infinity",
        "+infinity", "-Infinity", "nan", "NaN", "NAN", "+nan", "-nan", "in", "infi", "infinit",
        "infinityy", "na", "nann", "i", "n", "++1", "--1", "+-1", "1+", "1-", "1.2.3", "1..2",
        "1e5.5", "1e5e5", "1ee5", "1 ", " 1", "1_000", "1,5", "0x10", "1f", "1.0f", "1d", "#t",
        "abc", "1abc", "1e5x", "\u{661}", "1\u{661}", "\u{ff11}", "1.\u{ff11}", "in\u{17f}",
        "\u{130}nf", "\u{212a}", "+e5", "-E5", "+.e1", "5e", "5e+", ".5e-", "e", "E", "+e",
        "1.5e+", "1.5e+x", "..", ".+1", "1.+1", "1e+-5", "1e.5", "+", "infnan", "naninf",
    ];
    for word in words {
        assert_eq!(is_float(word), word.parse::<f64>().is_ok(), "on {:?}", word);
    }
}

#[test]
fn tokenize_reads_booleans() {
    let (token, item) = one("#t");
    assert_eq!(token, TokenUnit { token_type: TokenType::Const, table_ptr: 2 });
    assert_eq!(item.value, Some(ValueType::Bool(true)));
    let (token, item) = one("#f)");
    assert_eq!(token, TokenUnit { token_type: TokenType::Const, table_ptr: 2 });
    assert_eq!(item.value, Some(ValueType::Bool(false)));
    assert_eq!(tokenize("#true", 0, 0), Err(ScanError::InvalidCharacter((0, 0))));
    assert_eq!(tokenize("#", 0, 0), Err(ScanError::InvalidCharacter((0, 0))));
}

#[test]
fn tokenize_finds_nothing_in_front_of_whitespace() {
    assert_eq!(tokenize("", 2, 5), Err(ScanError::InvalidCharacter((2, 5))));
    assert_eq!(tokenize(" abc", 0, 0), Err(ScanError::InvalidCharacter((0, 0))));
    assert_eq!(tokenize("\tabc", 0, 0), Err(ScanError::InvalidCharacter((0, 0))));
}

#[test]
fn word_ends_at_whitespace_and_delimiters() {
    let (token, _) = one("abc(def");
    assert_eq!(token.table_ptr, 3);
    let (token, _) = one("abc)def");
    assert_eq!(token.table_ptr, 3);
    let (token, _) = one("abc\"def\"");
    assert_eq!(token.table_ptr, 3);
    let (token, _) = one("abc\tdef");
    assert_eq!(token.table_ptr, 3);
    let (token, _) = one("abc\u{a0}def");
    assert_eq!(token.table_ptr, 3);
    let (tokens, table) = scan_ok("(a(b\"c\"d))");
    assert_eq!(tokens.len(), 8);
    assert_eq!(table[4].value, text("c"));
    assert_eq!(table[5].index, (0, 7));
}

#[test]
fn parse_const_follows_the_order_of_the_rules() {
    assert_eq!(parse_const("12"), Some((ValueType::Int(12), 2)));
    assert_eq!(parse_const("1.5"), Some((ValueType::Float(String::from("1.5")), 3)));
    assert_eq!(parse_const("#t"), Some((ValueType::Bool(true), 2)));
    assert_eq!(parse_const("#f"), Some((ValueType::Bool(false), 2)));
    assert_eq!(parse_const("nan"), Some((ValueType::Float(String::from("nan")), 3)));
    assert_eq!(parse_const(""), None);
    assert_eq!(parse_const("x"), None);
    assert_eq!(parse_const("#T"), None);
    assert_eq!(parse_const("12a"), None);
}

#[test]
fn chars2bytes_respects_multibyte_characters() {
    assert_eq!(chars2bytes("hello", 0), 0);
    assert_eq!(chars2bytes("hello", 3), 3);
    assert_eq!(chars2bytes("hello", 5), 5);
    assert_eq!(chars2bytes("h\u{e9}llo", 1), 1);
    assert_eq!(chars2bytes("h\u{e9}llo", 2), 3);
    assert_eq!(chars2bytes("h\u{e9}llo", 5), 6);
    assert_eq!(chars2bytes("\u{53d8}\u{91cf}x", 1), 3);
    assert_eq!(chars2bytes("\u{53d8}\u{91cf}x", 2), 6);
    assert_eq!(chars2bytes("a\u{1f600}b", 2), 5);
    assert_eq!(chars2bytes("", 0), 0);
}

#[test]
fn split_chars_cuts_between_characters() {
    assert_eq!(split_chars("h\u{e9}llo", 2), ("h\u{e9}", "llo"));
    assert_eq!(split_chars("h\u{e9}llo", 0), ("", "h\u{e9}llo"));
    assert_eq!(split_chars("h\u{e9}llo", 5), ("h\u{e9}llo", ""));
    assert_eq!(split_chars("\u{1f600}\u{1f600}", 1), ("\u{1f600}", "\u{1f600}"));
}

#[test]
fn whitespace_cnt_counts_leading_whitespace() {
    assert_eq!(whitespace_cnt(""), 0);
    assert_eq!(whitespace_cnt("abc"), 0);
    assert_eq!(whitespace_cnt("   abc  "), 3);
    assert_eq!(whitespace_cnt(" \t\r x"), 4);
    assert_eq!(whitespace_cnt("\u{3000}\u{a0}x"), 2);
    assert_eq!(whitespace_cnt("    "), 4);
}

#[test]
fn count_leading_stops_at_the_first_stranger() {
    assert_eq!(count_leading("123abc", CharClass::Digit), 3);
    assert_eq!(count_leading("abc", CharClass::Digit), 0);
    assert_eq!(count_leading("\u{661}23", CharClass::Digit), 0);
    assert_eq!(count_leading("ab_1\u{e9}-x", CharClass::Identifier), 5);
    assert_eq!(count_leading("ab(c", CharClass::Word), 2);
    assert_eq!(count_leading("ab\"c", CharClass::Word), 2);
    assert_eq!(count_leading("ab c", CharClass::Word), 2);
    assert_eq!(count_leading("ab\ncd", CharClass::InLine), 2);
    assert_eq!(count_leading("", CharClass::InLine), 0);
    assert!(CharClass::Whitespace.contains(' '));
    assert!(!CharClass::Whitespace.contains('x'));
    assert!(!CharClass::Word.contains('('));
    assert!(CharClass::Word.contains('\''));
}

#[test]
fn text_helpers_agree_with_the_text() {
    assert_eq!(first_char(""), None);
    assert_eq!(first_char("\u{e9}a"), Some('\u{e9}'));
    assert_eq!(byte_len("h\u{e9}llo"), 6);
    assert!(text_is("abc", "abc"));
    assert!(!text_is("abc", "abd"));
    assert!(!text_is("abc", "ab"));
    assert!(!text_is("ab", "abc"));
    assert!(text_is("", ""));
}

#[test]
fn words_are_classified_by_their_whole_text() {
    assert_eq!(keyword("define"), Some(TokenType::Define));
    assert_eq!(keyword("display"), Some(TokenType::Display));
    assert_eq!(keyword("lambda"), Some(TokenType::Lambda));
    assert_eq!(keyword("quote"), Some(TokenType::Quote));
    assert_eq!(keyword("quoted"), None);
    assert_eq!(keyword("'"), None);
    assert_eq!(keyword(""), None);
    assert_eq!(arithmetic("+"), Some(TokenType::PlusOp));
    assert_eq!(arithmetic("-"), Some(TokenType::MinusOp));
    assert_eq!(arithmetic("*"), Some(TokenType::MulOp));
    assert_eq!(arithmetic("/"), Some(TokenType::DivOp));
    assert_eq!(arithmetic("+-"), None);
    assert_eq!(arithmetic(""), None);
    assert_eq!(relation("<="), Some(TokenType::LessEq));
    assert_eq!(relation(">="), Some(TokenType::GreaterEq));
    assert_eq!(relation("<"), Some(TokenType::LessThan));
    assert_eq!(relation(">"), Some(TokenType::GreaterThan));
    assert_eq!(relation("="), Some(TokenType::Eq));
    assert_eq!(relation("<>"), None);
    assert_eq!(relation(""), None);
}

#[test]
fn integers_follow_decimal_notation() {
    assert_eq!(parse_const("+5"), Some((ValueType::Int(5), 2)));
    assert_eq!(parse_const("-5"), Some((ValueType::Int(-5), 2)));
    assert_eq!(parse_const("0000"), Some((ValueType::Int(0), 4)));
    assert_eq!(parse_const("+"), None);
    assert_eq!(parse_const("-"), None);
    assert_eq!(parse_const("++1"), None);
    assert_eq!(parse_const("+-1"), None);
    assert_eq!(parse_const("1_000"), None);
    assert_eq!(parse_const("1 "), None);
    assert_eq!(parse_const(" 1"), None);
    assert_eq!(parse_const("\u{663}"), None);
    assert_eq!(parse_const("\u{ff19}"), None);
    assert_eq!(parse_const("0x1f"), None);
    // One digit more than the largest integer: no integer any more, but still a number.
    let mut large = isize::MAX.to_string();
    large.push('0');
    let len = large.len();
    assert_eq!(parse_const(&large), Some((ValueType::Float(large), len)));
}

#[test]
fn scan_takes_a_carriage_return_for_whitespace() {
    let (tokens, table) = scan_ok("a\r\r\nb\rc\r");
    assert_eq!(tokens.len(), 3);
    assert_eq!(table[0].index, (0, 0));
    assert_eq!(table[1].index, (1, 0));
    assert_eq!(table[2].index, (1, 2));
}
