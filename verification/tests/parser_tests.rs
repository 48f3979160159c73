use mini_lisp::parser::parse;
use mini_lisp::parser::utils::{expect_ts, is_atom, parse_list, parse_start};
use mini_lisp::scanner::scan;
use mini_lisp::{ParseError, TableItem, TokenType, TokenUnit};

fn scan_ok(input: &str) -> (Vec<TokenUnit>, Vec<TableItem>) {
    match scan(input) {
        Ok(streams) => streams,
        Err(e) => panic!("scan failed: {:?}", e),
    }
}

fn parse_text(input: &str) -> Result<(), ParseError> {
    let (tokens, table) = scan_ok(input);
    parse(&tokens, &table)
}

#[test]
fn parse_accepts_a_sum() {
    assert_eq!(parse_text("(+ 1 2)"), Ok(()));
}

#[test]
fn parse_reports_an_unclosed_form() {
    assert_eq!(parse_text("(+ 1 2"), Err(ParseError::UnexpectedEndOfInput));
    assert_eq!(parse_text("("), Err(ParseError::UnexpectedEndOfInput));
    assert_eq!(parse_text("(a (b (c))"), Err(ParseError::UnexpectedEndOfInput));
    assert_eq!(parse_text("(a) (b"), Err(ParseError::UnexpectedEndOfInput));
}

#[test]
fn parse_reports_a_stray_close_paren() {
    assert_eq!(parse_text(")"), Err(ParseError::UnexpectedToken((0, 0))));
    assert_eq!(parse_text("(a))"), Err(ParseError::UnexpectedToken((0, 3))));
    assert_eq!(parse_text("(a)\n  ) (b)"), Err(ParseError::UnexpectedToken((1, 2))));
    assert_eq!(parse_text("a b ) ("), Err(ParseError::UnexpectedToken((0, 4))));
}

#[test]
fn parse_accepts_sibling_forms() {
    assert_eq!(parse_text("(foo 1) (bar 2)"), Ok(()));
    assert_eq!(parse_text("a b c"), Ok(()));
    assert_eq!(parse_text("1 (a) \"s\" (b (c))"), Ok(()));
}

#[test]
fn parse_accepts_the_empty_program() {
    assert_eq!(parse_text(""), Ok(()));
    assert_eq!(parse_text("  \n\n "), Ok(()));
    assert_eq!(parse(&Vec::new(), &Vec::new()), Ok(()));
}

#[test]
fn parse_accepts_nested_and_empty_lists() {
    assert_eq!(parse_text("()"), Ok(()));
    assert_eq!(parse_text("(())"), Ok(()));
    assert_eq!(parse_text("(()())"), Ok(()));
    assert_eq!(
        parse_text("(define (fact n)\n  (if (<= n 1)\n      1\n      (* n (fact (- n 1)))))"),
        Ok(())
    );
    assert_eq!(parse_text("(display '(1 2 3))"), Ok(()));
}

#[test]
fn parse_reports_the_first_error() {
    assert_eq!(parse_text(") ("), Err(ParseError::UnexpectedToken((0, 0))));
    assert_eq!(parse_text("(a)) ))"), Err(ParseError::UnexpectedToken((0, 3))));
    assert_eq!(parse_text("((a) (b)"), Err(ParseError::UnexpectedEndOfInput));
}

#[test]
fn parse_does_not_know_a_token_without_an_entry() {
    let tokens = vec![TokenUnit { token_type: TokenType::RParen, table_ptr: 3 }];
    let table = vec![TableItem { index: (0, 0), value: None }];
    assert_eq!(parse(&tokens, &table), Err(ParseError::UnknownScanError));
    assert_eq!(parse(&tokens, &Vec::new()), Err(ParseError::UnknownScanError));
}

#[test]
fn parse_looks_positions_up_in_the_table() {
    let tokens = vec![
        TokenUnit { token_type: TokenType::Id, table_ptr: 1 },
        TokenUnit { token_type: TokenType::RParen, table_ptr: 0 },
    ];
    let table = vec![
        TableItem { index: (7, 9), value: None },
        TableItem { index: (1, 1), value: None },
    ];
    assert_eq!(parse(&tokens, &table), Err(ParseError::UnexpectedToken((7, 9))));
}

#[test]
fn parse_start_consumes_one_form() {
    let (tokens, table) = scan_ok("(a (b)) c (d");
    let rest = parse_start(&tokens, &table).unwrap();
    assert_eq!(rest, &tokens[6..]);
    let rest = parse_start(rest, &table).unwrap();
    assert_eq!(rest, &tokens[7..]);
    assert_eq!(parse_start(rest, &table), Err(ParseError::UnexpectedEndOfInput));
    assert_eq!(parse_start(&tokens[9..], &table), Err(ParseError::UnexpectedEndOfInput));
    assert_eq!(parse_start(&tokens[5..], &table), Err(ParseError::UnexpectedToken((0, 6))));
}

#[test]
fn parse_list_stops_in_front_of_the_closing_paren() {
    let (tokens, table) = scan_ok("a (b c) d) e");
    let rest = parse_list(&tokens, &table).unwrap();
    assert_eq!(rest, &tokens[6..]);
    assert_eq!(rest[0].token_type, TokenType::RParen);
    let rest = parse_list(rest, &table).unwrap();
    assert_eq!(rest, &tokens[6..]);
    assert_eq!(parse_list(&tokens[7..], &table), Err(ParseError::UnexpectedEndOfInput));
    assert_eq!(parse_list(&tokens[..0], &table), Err(ParseError::UnexpectedEndOfInput));
    assert_eq!(parse_list(&tokens[1..3], &table), Err(ParseError::UnexpectedEndOfInput));
}

#[test]
fn expect_ts_consumes_one_token_of_the_kind() {
    let (tokens, table) = scan_ok("(a)");
    let rest = expect_ts(&tokens, &table, TokenType::LParen).unwrap();
    assert_eq!(rest, &tokens[1..]);
    assert_eq!(
        expect_ts(&tokens, &table, TokenType::RParen),
        Err(ParseError::UnexpectedToken((0, 0)))
    );
    assert_eq!(
        expect_ts(rest, &table, TokenType::LParen),
        Err(ParseError::UnexpectedToken((0, 1)))
    );
    assert_eq!(
        expect_ts(&tokens[..0], &table, TokenType::LParen),
        Err(ParseError::UnexpectedEndOfInput)
    );
    assert_eq!(
        expect_ts(&tokens, &Vec::new(), TokenType::Id),
        Err(ParseError::UnknownScanError)
    );
}

#[test]
fn is_atom_excludes_only_parentheses() {
    let kinds = [
        TokenType::Id,
        TokenType::Const,
        TokenType::Define,
        TokenType::If,
        TokenType::List,
        TokenType::Cons,
        TokenType::Lambda,
        TokenType::Display,
        TokenType::Quote,
        TokenType::QuoteMark,
        TokenType::PlusOp,
        TokenType::MulOp,
        TokenType::MinusOp,
        TokenType::DivOp,
        TokenType::LessThan,
        TokenType::GreaterThan,
        TokenType::LessEq,
        TokenType::GreaterEq,
        TokenType::Eq,
    ];
    for kind in kinds {
        assert!(is_atom(kind));
    }
    assert!(!is_atom(TokenType::LParen));
    assert!(!is_atom(TokenType::RParen));
}

#[test]
fn balanced_text_passes_both_stages() {
    let texts = [
        "",
        "x",
        "42",
        "()",
        "(+ 1 2)",
        "(define pi 3.14159)\n(display (* pi 2))\n",
        "(if (>= a b) \"yes\" \"no\")",
        "(lambda (x y) (cons x (list y 'z)))",
        "a\r\n(b\r\n c)\r\n",
        "((((()))))",
        "#t #f (quote x) - / < > =",
    ];
    for text in texts {
        let (tokens, table) = scan_ok(text);
        assert_eq!(parse(&tokens, &table), Ok(()), "on {:?}", text);
    }
}

#[test]
fn written_tokens_are_read_back() {
    let lines = [
        vec!["(", "define", "(", "f", "x", ")"],
        vec![],
        vec!["(", "<=", "\"a (b\"", "-1.5e3", "'", "x_1", ")", ")"],
    ];
    let mut text = String::new();
    let mut expected = 0;
    for line in &lines {
        for word in line {
            text.push_str(word);
            text.push('\t');
            expected += 1;
        }
        text.push('\n');
    }
    let (tokens, table) = scan_ok(&text);
    assert_eq!(tokens.len(), expected);
    let kinds: Vec<TokenType> = tokens.iter().map(|token| token.token_type).collect();
    assert_eq!(
        kinds,
        vec![
            TokenType::LParen,
            TokenType::Define,
            TokenType::LParen,
            TokenType::Id,
            TokenType::Id,
            TokenType::RParen,
            TokenType::LParen,
            TokenType::LessEq,
            TokenType::Const,
            TokenType::Const,
            TokenType::QuoteMark,
            TokenType::Id,
            TokenType::RParen,
            TokenType::RParen,
        ]
    );
    assert_eq!(table[6].index, (2, 0));
    assert_eq!(table[8].index, (2, 5));
    assert_eq!(parse(&tokens, &table), Ok(()));
}

#[test]
fn parse_takes_a_long_list_in_a_loop() {
    let mut text = String::from("(");
    for _ in 0..200_000 {
        text.push_str("a ");
    }
    text.push(')');
    assert_eq!(parse_text(&text), Ok(()));
    text.pop();
    assert_eq!(parse_text(&text), Err(ParseError::UnexpectedEndOfInput));
}

#[test]
fn parse_follows_nesting() {
    let depth = 500;
    let mut text = "(".repeat(depth);
    text.push_str(&")".repeat(depth));
    assert_eq!(parse_text(&text), Ok(()));
    text.push(')');
    assert_eq!(parse_text(&text), Err(ParseError::UnexpectedToken((0, 2 * depth))));
    let text = "(".repeat(depth) + &")".repeat(depth - 1);
    assert_eq!(parse_text(&text), Err(ParseError::UnexpectedEndOfInput));
}
