//! The tokenizer: recognizes the one lexeme that starts a line.
use vstd::prelude::*;
use vstd::std_specs::iter::IteratorSpec;
use vstd::utf8::{encode_utf8, encode_utf8_decode_utf8};
use crate::lexeme;
use crate::text::{byte_len, count_leading, first_char, lemma_encode_concat, lemma_leading};
use crate::text::{lemma_prefix_ends_on_boundary, CharClass};
use crate::{ScanError, TableItem, TokenType, TokenUnit, ValueType};

verus! {

/// Whether `token` and `item` are what the lexeme `found` is handed out as when it stands
/// at `(row, column)`. The token carries the length of the lexeme in characters in the
/// place of its index into the table, which the caller puts there.
pub open spec fn hands_out(
    found: lexeme::Lexeme,
    row: usize,
    column: usize,
    token: TokenUnit,
    item: TableItem,
) -> bool {
    &&& token.token_type == found.kind
    &&& token.table_ptr == found.len
    &&& item.index == (row, column)
    &&& item@.value == found.value
}

/// Whether a rule's answer is what its definition says: the lexeme it defines, handed out
/// for `(row, column)`, or nothing where it defines none.
pub open spec fn recognizes(
    handed: Option<(TokenUnit, TableItem)>,
    found: Option<lexeme::Lexeme>,
    row: usize,
    column: usize,
) -> bool {
    match handed {
        Some((token, item)) => found is Some && hands_out(found->0, row, column, token, item),
        None => found is None,
    }
}

/// Recognizes the lexeme that starts `line`, which is what is left of a line from
/// `column` on in row `row`. The rules are tried in this order, and the first that matches
/// decides:
///
/// 1. parentheses,
/// 2. constants, strings among them,
/// 3. reserved words,
/// 4. identifiers,
/// 5. arithmetic operators,
/// 6. comparison operators.
///
/// The token that comes back carries the length of the lexeme, in characters, where its
/// index into the table belongs. A line that starts with whitespace, an empty one too,
/// starts with no lexeme.
pub fn tokenize(line: &str, row: usize, column: usize) -> (result: Result<
    (TokenUnit, TableItem),
    ScanError,
>)
    ensures
        match result {
            Ok((token, item)) => lexeme::lexeme(line@) is Some && hands_out(
                lexeme::lexeme(line@)->0,
                row,
                column,
                token,
                item,
            ),
            Err(e) => lexeme::lexeme(line@) is None && e == ScanError::InvalidCharacter(
                (row, column),
            ),
        },
        line@.len() > 0 && crate::text::is_digit(line@[0]) ==> (result matches Ok((token, _))
            ==> token.token_type == TokenType::Const),
{
    proof {
        if line@.len() > 0 && crate::text::is_digit(line@[0]) {
            lexeme::lemma_digit_starts_a_number(line@);
        }
    }
    if let Some(result) = recog_mark(line, row, column) {
        return Ok(result);
    }
    if let Some(result) = recog_const(line, row, column) {
        return Ok(result);
    }
    if let Some(result) = recog_reserved(line, row, column) {
        return Ok(result);
    }
    if let Some(result) = recog_id(line, row, column) {
        return Ok(result);
    }
    if let Some(result) = recog_op(line, row, column) {
        return Ok(result);
    }
    if let Some(result) = recog_cmp(line, row, column) {
        return Ok(result);
    }
    Err(ScanError::InvalidCharacter((row, column)))
}

/// The word at the start of `line`, and its length in characters.
fn first_word<'a>(line: &'a str) -> (word: (&'a str, usize))
    ensures
        word.0@ == lexeme::word(line@),
        word.1 == word.0@.len(),
{
    let len = count_leading(line, CharClass::Word);
    proof {
        lemma_leading(line@, CharClass::Word, len as int);
    }
    (split_chars(line, len).0, len)
}

/// A token without a literal, at `(row, column)`.
fn bare(token_unit: Option<TokenUnit>, row: usize, column: usize) -> (found: Option<
    (TokenUnit, TableItem),
>)
    ensures
        match found {
            Some((token, item)) => token_unit == Some(token) && item.index == (row, column)
                && item.value is None,
            None => token_unit is None,
        },
{
    match token_unit {
        Some(token_unit) => Some((token_unit, TableItem { index: (row, column), value: None })),
        None => None,
    }
}

/// Rule 1: a parenthesis.
fn recog_mark(line: &str, row: usize, column: usize) -> (found: Option<(TokenUnit, TableItem)>)
    ensures
        recognizes(found, lexeme::mark(line@), row, column),
{
    let token_unit = match first_char(line) {
        Some('(') => Some(TokenUnit { token_type: TokenType::LParen, table_ptr: 1 }),
        Some(')') => Some(TokenUnit { token_type: TokenType::RParen, table_ptr: 1 }),
        _ => None,
    };
    bare(token_unit, row, column)
}

/// Rule 2: a constant.
fn recog_const(line: &str, row: usize, column: usize) -> (found: Option<(TokenUnit, TableItem)>)
    ensures
        recognizes(found, lexeme::constant(line@), row, column),
{
    // A string has a quote at both ends, so that it is looked for character by character.
    if let Some('"') = first_char(line) {
        let limit = byte_len(line);
        let mut chars = line.chars();
        let mut pre_escape = false;
        let mut i: usize = 0;
        proof {
            lexeme::lemma_string_close(line@, 1);
        }
        loop
            invariant
                chars.obeys_prophetic_iter_laws(),
                i <= line@.len() <= limit,
                chars.remaining() == line@.skip(i as int),
                line@.len() > 0 && line@[0] == '"',
                pre_escape == (i > 0 && line@[i - 1] == '\\'),
                forall|j: int| 1 <= j < i ==> !lexeme::closes_string(line@, j),
                match lexeme::string_close(line@, 1) {
                    Some(close) => {
                        &&& lexeme::closes_string(line@, close)
                        &&& forall|j: int| 1 <= j < close ==> !lexeme::closes_string(line@, j)
                    },
                    None => forall|j: int| 1 <= j ==> !lexeme::closes_string(line@, j),
                },
            decreases line@.len() - i,
        {
            match chars.next() {
                Some(ch) => {
                    if i != 0 && ch == '"' && !pre_escape {
                        assert(lexeme::closes_string(line@, i as int));
                        let content = split_chars(split_chars(line, i).0, 1).1;
                        assert(content@ =~= line@.subrange(1, i as int));
                        return Some(
                            (
                                TokenUnit { token_type: TokenType::Const, table_ptr: i + 1 },
                                TableItem {
                                    index: (row, column),
                                    value: Some(ValueType::Str(content.to_owned())),
                                },
                            ),
                        );
                    }
                    assert(line@.skip(i as int).drop_first() =~= line@.skip(i + 1));
                    pre_escape = ch == '\\';
                    i += 1;
                },
                None => {
                    return None;
                },
            }
        }
    }
    // An integer, a floating-point number or a boolean.

    let (first, _) = first_word(line);
    match parse_const(first) {
        Some((value_type, token_len)) => Some(
            (
                TokenUnit { token_type: TokenType::Const, table_ptr: token_len },
                TableItem { index: (row, column), value: Some(value_type) },
            ),
        ),
        None => None,
    }
}

/// The reserved word that `word` is, if it is one.
pub fn keyword(word: &str) -> (kind: Option<TokenType>)
    ensures
        kind == lexeme::keyword(word@),
{
    if text_is(word, "define") {
        Some(TokenType::Define)
    } else if text_is(word, "if") {
        Some(TokenType::If)
    } else if text_is(word, "list") {
        Some(TokenType::List)
    } else if text_is(word, "cons") {
        Some(TokenType::Cons)
    } else if text_is(word, "lambda") {
        Some(TokenType::Lambda)
    } else if text_is(word, "display") {
        Some(TokenType::Display)
    } else if text_is(word, "quote") {
        Some(TokenType::Quote)
    } else {
        None
    }
}

/// Rule 3: a reserved word. It is tried before the rule for identifiers.
fn recog_reserved(line: &str, row: usize, column: usize) -> (found: Option<
    (TokenUnit, TableItem),
>)
    ensures
        recognizes(found, lexeme::reserved(line@), row, column),
{
    let (first, len) = first_word(line);
    let token_unit = match keyword(first) {
        Some(token_type) => Some(TokenUnit { token_type, table_ptr: len }),
        None => match first_char(first) {
            Some('\'') => Some(TokenUnit { token_type: TokenType::QuoteMark, table_ptr: 1 }),
            _ => None,
        },
    };
    bare(token_unit, row, column)
}

/// Rule 4: an identifier.
fn recog_id(line: &str, row: usize, column: usize) -> (found: Option<(TokenUnit, TableItem)>)
    ensures
        recognizes(found, lexeme::identifier(line@), row, column),
{
    let (first, len) = first_word(line);
    let fitting = count_leading(first, CharClass::Identifier);
    proof {
        lemma_leading(first@, CharClass::Identifier, fitting as int);
        lemma_leading(first@, CharClass::Identifier, len as int);
    }
    match first_char(first) {
        Some(start) if !CharClass::Digit.contains(start) && fitting == len => Some(
            (
                TokenUnit { token_type: TokenType::Id, table_ptr: len },
                TableItem { index: (row, column), value: Some(ValueType::Str(first.to_owned())) },
            ),
        ),
        _ => None,
    }
}

/// The arithmetic operator that `word` is, if it is one.
pub fn arithmetic(word: &str) -> (kind: Option<TokenType>)
    ensures
        kind == lexeme::arithmetic(word@),
{
    if text_is(word, "+") {
        Some(TokenType::PlusOp)
    } else if text_is(word, "-") {
        Some(TokenType::MinusOp)
    } else if text_is(word, "*") {
        Some(TokenType::MulOp)
    } else if text_is(word, "/") {
        Some(TokenType::DivOp)
    } else {
        None
    }
}

/// Rule 5: an arithmetic operator.
fn recog_op(line: &str, row: usize, column: usize) -> (found: Option<(TokenUnit, TableItem)>)
    ensures
        recognizes(found, lexeme::operator(line@), row, column),
{
    let (first, len) = first_word(line);
    let token_unit = match arithmetic(first) {
        Some(token_type) => Some(TokenUnit { token_type, table_ptr: len }),
        None => None,
    };
    bare(token_unit, row, column)
}

/// The comparison operator that `word` is, if it is one. The operators of two characters
/// come first, so that none of them is cut short.
pub fn relation(word: &str) -> (kind: Option<TokenType>)
    ensures
        kind == lexeme::relation(word@),
{
    if text_is(word, "<=") {
        Some(TokenType::LessEq)
    } else if text_is(word, ">=") {
        Some(TokenType::GreaterEq)
    } else if text_is(word, "<") {
        Some(TokenType::LessThan)
    } else if text_is(word, ">") {
        Some(TokenType::GreaterThan)
    } else if text_is(word, "=") {
        Some(TokenType::Eq)
    } else {
        None
    }
}

/// Rule 6: a comparison operator.
fn recog_cmp(line: &str, row: usize, column: usize) -> (found: Option<(TokenUnit, TableItem)>)
    ensures
        recognizes(found, lexeme::comparison(line@), row, column),
{
    let (first, len) = first_word(line);
    let token_unit = match relation(first) {
        Some(token_type) => Some(TokenUnit { token_type, table_ptr: len }),
        None => None,
    };
    bare(token_unit, row, column)
}

/// The number of bytes that the first `charcnt` characters of `input` take up, which is
/// the byte offset at which they end. `input` must have that many characters.
pub fn chars2bytes(input: &str, charcnt: usize) -> (bytecnt: usize)
    requires
        charcnt <= input@.len(),
    ensures
        bytecnt == encode_utf8(input@.take(charcnt as int)).len(),
{
    let total = byte_len(input);
    let mut bytecnt: usize = 0;
    let mut input_iter = input.chars();
    let mut taken: usize = 0;
    while taken < charcnt
        invariant
            input_iter.obeys_prophetic_iter_laws(),
            taken <= charcnt <= input@.len(),
            input_iter.remaining() == input@.skip(taken as int),
            bytecnt == encode_utf8(input@.take(taken as int)).len(),
            total == encode_utf8(input@).len(),
        decreases charcnt - taken,
    {
        if let Some(ch) = input_iter.next() {
            proof {
                let before = input@.take(taken as int);
                let after = input@.skip(taken + 1);
                lemma_encode_concat(before, seq![ch]);
                lemma_encode_concat(before + seq![ch], after);
                assert(input@.take(taken + 1) =~= before + seq![ch]);
                assert(input@ =~= before + seq![ch] + after);
                assert(input@.skip(taken as int).drop_first() =~= after);
            }
            bytecnt += ch.len_utf8();
        }
        taken += 1;
    }
    bytecnt
}

/// Cuts `text` behind its first `n` characters.
pub fn split_chars<'a>(text: &'a str, n: usize) -> (parts: (&'a str, &'a str))
    requires
        n <= text@.len(),
    ensures
        parts.0@ == text@.take(n as int),
        parts.1@ == text@.skip(n as int),
{
    let at = chars2bytes(text, n);
    let ghost head = text@.take(n as int);
    let ghost tail = text@.skip(n as int);
    proof {
        assert(text@ =~= head + tail);
        lemma_prefix_ends_on_boundary(head, tail);
        lemma_encode_concat(head, tail);
    }
    let parts = text.split_at(at);
    proof {
        assert(encode_utf8(parts.0@) =~= encode_utf8(head));
        assert(encode_utf8(parts.1@) =~= encode_utf8(tail));
        encode_utf8_decode_utf8(parts.0@);
        encode_utf8_decode_utf8(parts.1@);
        encode_utf8_decode_utf8(head);
        encode_utf8_decode_utf8(tail);
    }
    parts
}

/// Whether `text` is the word that `small` and `capital` spell in the two cases, in
/// either case or in a mix of them.
fn spelled(text: &str, small: &str, capital: &str) -> (b: bool)
    requires
        small@.len() == capital@.len(),
    ensures
        b == lexeme::spells(text@, small@, capital@),
{
    let mut letters = text.chars();
    let mut smalls = small.chars();
    let mut capitals = capital.chars();
    let ghost mut at: int = 0;
    loop
        invariant
            letters.obeys_prophetic_iter_laws(),
            smalls.obeys_prophetic_iter_laws(),
            capitals.obeys_prophetic_iter_laws(),
            small@.len() == capital@.len(),
            0 <= at <= text@.len(),
            at <= small@.len(),
            letters.remaining() == text@.skip(at),
            smalls.remaining() == small@.skip(at),
            capitals.remaining() == capital@.skip(at),
            forall|i: int| 0 <= i < at ==> text@[i] == small@[i] || text@[i] == capital@[i],
        decreases text@.len() - at,
    {
        let letter = letters.next();
        let lower = smalls.next();
        let upper = capitals.next();
        match (letter, lower, upper) {
            (None, None, None) => {
                return true;
            },
            (Some(c), Some(l), Some(u)) if c == l || c == u => {
                proof {
                    assert(text@.skip(at).drop_first() =~= text@.skip(at + 1));
                    assert(small@.skip(at).drop_first() =~= small@.skip(at + 1));
                    assert(capital@.skip(at).drop_first() =~= capital@.skip(at + 1));
                    at = at + 1;
                }
            },
            _ => {
                return false;
            },
        }
    }
}

/// Whether `text` is `word`, character by character.
pub fn text_is(text: &str, word: &str) -> (b: bool)
    ensures
        b == (text@ == word@),
{
    let b = spelled(text, word, word);
    proof {
        if b {
            assert(text@ =~= word@);
        }
    }
    b
}

/// `text` without the sign that it may start with.
fn strip_sign<'a>(text: &'a str) -> (body: &'a str)
    ensures
        body@ == lexeme::unsigned(text@),
{
    match first_char(text) {
        Some(c) if c == '+' || c == '-' => {
            assert(text@.skip(1) =~= text@.drop_first());
            split_chars(text, 1).1
        },
        _ => text,
    }
}

/// Whether `text` is made of decimal digits, and of one at least.
fn is_digits(text: &str) -> (b: bool)
    ensures
        b == (text@.len() > 0 && lexeme::all_of(text@, CharClass::Digit)),
{
    let digits = count_leading(text, CharClass::Digit);
    proof {
        lemma_leading(text@, CharClass::Digit, digits as int);
        lemma_leading(text@, CharClass::Digit, text@.len() as int);
    }
    digits > 0 && split_chars(text, digits).1.is_empty()
}

/// Whether `text` is an exponent.
fn is_exponent(text: &str) -> (b: bool)
    ensures
        b == lexeme::is_exponent(text@),
{
    match first_char(text) {
        Some(c) if c == 'e' || c == 'E' => {
            assert(text@.skip(1) =~= text@.drop_first());
            is_digits(strip_sign(split_chars(text, 1).1))
        },
        _ => false,
    }
}

/// Whether `text` is a decimal number.
fn is_decimal(text: &str) -> (b: bool)
    ensures
        b == lexeme::is_decimal(text@),
{
    let whole = count_leading(text, CharClass::Digit);
    proof {
        lemma_leading(text@, CharClass::Digit, whole as int);
    }
    let rest = split_chars(text, whole).1;
    match first_char(rest) {
        Some(c) if c == '.' => {
            let after = split_chars(rest, 1).1;
            let fraction = count_leading(after, CharClass::Digit);
            proof {
                lemma_leading(after@, CharClass::Digit, fraction as int);
            }
            let tail = split_chars(after, fraction).1;
            (whole > 0 || fraction > 0) && (tail.is_empty() || is_exponent(tail))
        },
        _ => whole > 0 && (rest.is_empty() || is_exponent(rest)),
    }
}

/// Whether `text` denotes a floating-point number.
pub fn is_float(text: &str) -> (b: bool)
    ensures
        b == lexeme::float_literal(text@),
{
    let body = strip_sign(text);
    proof {
        lexeme::lemma_known_words();
    }
    is_decimal(body) || spelled(body, "inf", "INF") || spelled(body, "infinity", "INFINITY")
        || spelled(body, "nan", "NAN")
}

/// `str::parse` to an `isize` accepts an optional sign followed by decimal digits, and
/// nothing else: no space, no underscore, no empty string, no sign alone. It returns the
/// integer that the digits denote, with that sign, unless it does not fit an `isize`.
#[verifier::external_body]
fn parse_int(text: &str) -> (value: Option<isize>)
    ensures
        match value {
            Some(v) => lexeme::int_literal(text@) == Some(v as int),
            None => lexeme::int_literal(text@) is None,
        },
{
    text.parse::<isize>().ok()
}

/// The constant that `input` denotes, if it denotes one: an integer, a floating-point
/// number or a boolean, tried in this order. It comes with the length of `input` in
/// characters.
pub fn parse_const(input: &str) -> (constant: Option<(ValueType, usize)>)
    ensures
        match constant {
            Some((value, token_len)) => lexeme::literal(input@) == Some(value@) && token_len
                == input@.len(),
            None => lexeme::literal(input@) is None,
        },
{
    let token_len = input.unicode_len();

    if let Some(int_val) = parse_int(input) {
        return Some((ValueType::Int(int_val), token_len));
    }
    if is_float(input) {
        return Some((ValueType::Float(input.to_owned()), token_len));
    }
    if text_is(input, "#t") {
        Some((ValueType::Bool(true), token_len))
    } else if text_is(input, "#f") {
        Some((ValueType::Bool(false), token_len))
    } else {
        None
    }
}

} // verus!
