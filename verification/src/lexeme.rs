//! What a token is: the rules that decide which lexeme starts a line.
//!
//! The rules are tried in a fixed order and the first that matches wins: delimiters,
//! constants, reserved words, identifiers, arithmetic operators, comparison operators.
//! All but the first rule and the rule for strings look at the [`word`] at the start of
//! the line.
use vstd::prelude::*;
use crate::text::{is_digit, leading, lemma_leading, CharClass};
use crate::{Literal, TokenType};

verus! {

/// A lexeme: its kind, its length in characters, and the literal it denotes, if any.
pub struct Lexeme {
    pub kind: TokenType,
    pub len: nat,
    pub value: Option<Literal>,
}

/// The word at the start of `line`: the longest run of characters up to the next
/// whitespace, parenthesis or double quote.
pub open spec fn word(line: Seq<char>) -> Seq<char> {
    line.take(leading(line, CharClass::Word) as int)
}

/// Whether every character of `s` belongs to `class`.
pub open spec fn all_of(s: Seq<char>, class: CharClass) -> bool {
    forall|i: int| 0 <= i < s.len() ==> class.holds(#[trigger] s[i])
}

/// A plus or a minus.
pub open spec fn is_sign(c: char) -> bool {
    c == '+' || c == '-'
}

/// `s` without the sign that it may start with.
pub open spec fn unsigned(s: Seq<char>) -> Seq<char> {
    if s.len() > 0 && is_sign(s[0]) {
        s.drop_first()
    } else {
        s
    }
}

/// The number that a sequence of decimal digits denotes.
pub open spec fn decimal_value(digits: Seq<char>) -> nat
    decreases digits.len(),
{
    if digits.len() == 0 {
        0
    } else {
        (10 * decimal_value(digits.drop_last()) + (digits.last() as int - '0' as int)) as nat
    }
}

/// The integer that `s` denotes: an optional sign and then one or more decimal digits,
/// whose value fits the machine's signed word.
pub open spec fn int_literal(s: Seq<char>) -> Option<int> {
    let digits = unsigned(s);
    let value = if s.len() > 0 && s[0] == '-' {
        -(decimal_value(digits) as int)
    } else {
        decimal_value(digits) as int
    };
    if digits.len() > 0 && all_of(digits, CharClass::Digit) && isize::MIN <= value <= isize::MAX {
        Some(value)
    } else {
        None
    }
}

/// Whether `s` spells the word that `small` writes in small letters and `capital` in
/// capital letters: letter by letter, in either case.
pub open spec fn spells(s: Seq<char>, small: Seq<char>, capital: Seq<char>) -> bool {
    &&& s.len() == small.len()
    &&& forall|i: int| 0 <= i < s.len() ==> s[i] == small[i] || s[i] == capital[i]
}

/// An exponent: `e` or `E`, an optional sign, and one or more digits.
pub open spec fn is_exponent(s: Seq<char>) -> bool {
    &&& s.len() > 0
    &&& (s[0] == 'e' || s[0] == 'E')
    &&& unsigned(s.drop_first()).len() > 0
    &&& all_of(unsigned(s.drop_first()), CharClass::Digit)
}

/// A decimal number: digits with at most one point among them, in front of it, behind it
/// or both, and then an optional exponent.
pub open spec fn is_decimal(s: Seq<char>) -> bool {
    let whole = leading(s, CharClass::Digit);
    let rest = s.skip(whole as int);
    if rest.len() > 0 && rest[0] == '.' {
        let fraction = leading(rest.skip(1), CharClass::Digit);
        let tail = rest.skip(1).skip(fraction as int);
        whole + fraction > 0 && (tail.len() == 0 || is_exponent(tail))
    } else {
        whole > 0 && (rest.len() == 0 || is_exponent(rest))
    }
}

/// Whether `s` denotes a floating-point number: an optional sign and then a decimal
/// number, `inf`, `infinity` or `nan`, the three words in either case. This is the
/// notation that the standard library reads as a floating-point number, so that a caller
/// can convert whatever passes here.
pub open spec fn float_literal(s: Seq<char>) -> bool {
    let body = unsigned(s);
    ||| is_decimal(body)
    ||| spells(body, "inf"@, "INF"@)
    ||| spells(body, "infinity"@, "INFINITY"@)
    ||| spells(body, "nan"@, "NAN"@)
}

/// The literal that a word denotes. An integer comes before a floating-point number: a
/// run of digits is never read as anything but what it is, unless it is too large.
pub open spec fn literal(word: Seq<char>) -> Option<Literal> {
    if int_literal(word) is Some {
        Some(Literal::Int(int_literal(word)->0))
    } else if float_literal(word) {
        Some(Literal::Float(word))
    } else if word == "#t"@ {
        Some(Literal::Bool(true))
    } else if word == "#f"@ {
        Some(Literal::Bool(false))
    } else {
        None
    }
}

/// Whether the `"` at index `i` ends the string literal that starts `line`: it is not the
/// opening quote, and no backslash stands right in front of it.
pub open spec fn closes_string(line: Seq<char>, i: int) -> bool {
    1 <= i < line.len() && line[i] == '"' && line[i - 1] != '\\'
}

/// The first index from `from` on at which a `"` ends the string literal.
pub open spec fn string_close(line: Seq<char>, from: int) -> Option<int>
    decreases line.len() - from,
{
    if from >= line.len() {
        None
    } else if closes_string(line, from) {
        Some(from)
    } else {
        string_close(line, from + 1)
    }
}

/// The reserved word that `word` is, if it is one.
pub open spec fn keyword(word: Seq<char>) -> Option<TokenType> {
    if word == "define"@ {
        Some(TokenType::Define)
    } else if word == "if"@ {
        Some(TokenType::If)
    } else if word == "list"@ {
        Some(TokenType::List)
    } else if word == "cons"@ {
        Some(TokenType::Cons)
    } else if word == "lambda"@ {
        Some(TokenType::Lambda)
    } else if word == "display"@ {
        Some(TokenType::Display)
    } else if word == "quote"@ {
        Some(TokenType::Quote)
    } else {
        None
    }
}

/// Whether `word` can be an identifier: it is not empty, it does not start with a decimal
/// digit, and it is made of letters, numbers and underscores.
pub open spec fn is_identifier(word: Seq<char>) -> bool {
    word.len() > 0 && !is_digit(word[0]) && all_of(word, CharClass::Identifier)
}

/// The arithmetic operator that `word` is, if it is one.
pub open spec fn arithmetic(word: Seq<char>) -> Option<TokenType> {
    if word == "+"@ {
        Some(TokenType::PlusOp)
    } else if word == "-"@ {
        Some(TokenType::MinusOp)
    } else if word == "*"@ {
        Some(TokenType::MulOp)
    } else if word == "/"@ {
        Some(TokenType::DivOp)
    } else {
        None
    }
}

/// The comparison operator that `word` is, if it is one.
pub open spec fn relation(word: Seq<char>) -> Option<TokenType> {
    if word == "<="@ {
        Some(TokenType::LessEq)
    } else if word == ">="@ {
        Some(TokenType::GreaterEq)
    } else if word == "<"@ {
        Some(TokenType::LessThan)
    } else if word == ">"@ {
        Some(TokenType::GreaterThan)
    } else if word == "="@ {
        Some(TokenType::Eq)
    } else {
        None
    }
}

/// A token of kind `kind` that takes up the whole of `word` and denotes nothing.
pub open spec fn plain(kind: Option<TokenType>, word: Seq<char>) -> Option<Lexeme> {
    match kind {
        Some(kind) => Some(Lexeme { kind, len: word.len(), value: None }),
        None => None,
    }
}

/// Rule 1, delimiters: a parenthesis is a token of its own.
pub open spec fn mark(line: Seq<char>) -> Option<Lexeme> {
    if line.len() > 0 && line[0] == '(' {
        Some(Lexeme { kind: TokenType::LParen, len: 1, value: None })
    } else if line.len() > 0 && line[0] == ')' {
        Some(Lexeme { kind: TokenType::RParen, len: 1, value: None })
    } else {
        None
    }
}

/// Rule 2, constants. A line that starts with a `"` starts with a string literal, which
/// runs to the first `"` that no backslash stands in front of and denotes what stands
/// between the two, or with nothing at all. Any other line starts with a constant when its
/// word is a [`literal`].
pub open spec fn constant(line: Seq<char>) -> Option<Lexeme> {
    if line.len() > 0 && line[0] == '"' {
        match string_close(line, 1) {
            Some(close) => Some(
                Lexeme {
                    kind: TokenType::Const,
                    len: (close + 1) as nat,
                    value: Some(Literal::Str(line.subrange(1, close))),
                },
            ),
            None => None,
        }
    } else {
        match literal(word(line)) {
            Some(value) => Some(
                Lexeme { kind: TokenType::Const, len: word(line).len(), value: Some(value) },
            ),
            None => None,
        }
    }
}

/// Rule 3, reserved words: the word is a [`keyword`], or it starts with the quote mark
/// `'`, which is a token of its own.
pub open spec fn reserved(line: Seq<char>) -> Option<Lexeme> {
    if keyword(word(line)) is Some {
        plain(keyword(word(line)), word(line))
    } else if word(line).len() > 0 && word(line)[0] == '\'' {
        Some(Lexeme { kind: TokenType::QuoteMark, len: 1, value: None })
    } else {
        None
    }
}

/// Rule 4, identifiers: the word [`is_identifier`], and denotes its own text.
pub open spec fn identifier(line: Seq<char>) -> Option<Lexeme> {
    if is_identifier(word(line)) {
        Some(
            Lexeme {
                kind: TokenType::Id,
                len: word(line).len(),
                value: Some(Literal::Str(word(line))),
            },
        )
    } else {
        None
    }
}

/// Rule 5, arithmetic operators.
pub open spec fn operator(line: Seq<char>) -> Option<Lexeme> {
    plain(arithmetic(word(line)), word(line))
}

/// Rule 6, comparison operators.
pub open spec fn comparison(line: Seq<char>) -> Option<Lexeme> {
    plain(relation(word(line)), word(line))
}

/// The lexeme that starts `line`: what the first rule that matches makes of it. There is
/// none when no rule matches.
pub open spec fn lexeme(line: Seq<char>) -> Option<Lexeme> {
    if mark(line) is Some {
        mark(line)
    } else if constant(line) is Some {
        constant(line)
    } else if reserved(line) is Some {
        reserved(line)
    } else if identifier(line) is Some {
        identifier(line)
    } else if operator(line) is Some {
        operator(line)
    } else {
        comparison(line)
    }
}

/// [`string_close`] finds the first closing quote: nothing between `from` and what it
/// finds closes the string, and nothing at all when it finds nothing.
pub proof fn lemma_string_close(line: Seq<char>, from: int)
    requires
        1 <= from,
    ensures
        match string_close(line, from) {
            Some(close) => {
                &&& from <= close
                &&& closes_string(line, close)
                &&& forall|i: int| from <= i < close ==> !closes_string(line, i)
            },
            None => forall|i: int| from <= i ==> !closes_string(line, i),
        },
    decreases line.len() - from,
{
    if from < line.len() && !closes_string(line, from) {
        lemma_string_close(line, from + 1);
    }
}

/// What the words that the rules know are made of.
pub proof fn lemma_known_words()
    ensures
        "#t"@ == seq!['#', 't'],
        "#f"@ == seq!['#', 'f'],
        "inf"@ == seq!['i', 'n', 'f'],
        "INF"@ == seq!['I', 'N', 'F'],
        "nan"@ == seq!['n', 'a', 'n'],
        "NAN"@ == seq!['N', 'A', 'N'],
        "infinity"@ == seq!['i', 'n', 'f', 'i', 'n', 'i', 't', 'y'],
        "INFINITY"@ == seq!['I', 'N', 'F', 'I', 'N', 'I', 'T', 'Y'],
        "define"@ == seq!['d', 'e', 'f', 'i', 'n', 'e'],
        "if"@ == seq!['i', 'f'],
        "list"@ == seq!['l', 'i', 's', 't'],
        "cons"@ == seq!['c', 'o', 'n', 's'],
        "lambda"@ == seq!['l', 'a', 'm', 'b', 'd', 'a'],
        "display"@ == seq!['d', 'i', 's', 'p', 'l', 'a', 'y'],
        "quote"@ == seq!['q', 'u', 'o', 't', 'e'],
        "+"@ == seq!['+'],
        "-"@ == seq!['-'],
        "*"@ == seq!['*'],
        "/"@ == seq!['/'],
        "<="@ == seq!['<', '='],
        ">="@ == seq!['>', '='],
        "<"@ == seq!['<'],
        ">"@ == seq!['>'],
        "="@ == seq!['='],
{
    reveal_strlit("#t");
    reveal_strlit("#f");
    reveal_strlit("inf");
    reveal_strlit("INF");
    reveal_strlit("nan");
    reveal_strlit("NAN");
    reveal_strlit("infinity");
    reveal_strlit("INFINITY");
    reveal_strlit("define");
    reveal_strlit("if");
    reveal_strlit("list");
    reveal_strlit("cons");
    reveal_strlit("lambda");
    reveal_strlit("display");
    reveal_strlit("quote");
    reveal_strlit("+");
    reveal_strlit("-");
    reveal_strlit("*");
    reveal_strlit("/");
    reveal_strlit("<=");
    reveal_strlit(">=");
    reveal_strlit("<");
    reveal_strlit(">");
    reveal_strlit("=");
    assert("#t"@ =~= seq!['#', 't']);
    assert("#f"@ =~= seq!['#', 'f']);
    assert("inf"@ =~= seq!['i', 'n', 'f']);
    assert("INF"@ =~= seq!['I', 'N', 'F']);
    assert("nan"@ =~= seq!['n', 'a', 'n']);
    assert("NAN"@ =~= seq!['N', 'A', 'N']);
    assert("infinity"@ =~= seq!['i', 'n', 'f', 'i', 'n', 'i', 't', 'y']);
    assert("INFINITY"@ =~= seq!['I', 'N', 'F', 'I', 'N', 'I', 'T', 'Y']);
    assert("define"@ =~= seq!['d', 'e', 'f', 'i', 'n', 'e']);
    assert("if"@ =~= seq!['i', 'f']);
    assert("list"@ =~= seq!['l', 'i', 's', 't']);
    assert("cons"@ =~= seq!['c', 'o', 'n', 's']);
    assert("lambda"@ =~= seq!['l', 'a', 'm', 'b', 'd', 'a']);
    assert("display"@ =~= seq!['d', 'i', 's', 'p', 'l', 'a', 'y']);
    assert("quote"@ =~= seq!['q', 'u', 'o', 't', 'e']);
    assert("+"@ =~= seq!['+']);
    assert("-"@ =~= seq!['-']);
    assert("*"@ =~= seq!['*']);
    assert("/"@ =~= seq!['/']);
    assert("<="@ =~= seq!['<', '=']);
    assert(">="@ =~= seq!['>', '=']);
    assert("<"@ =~= seq!['<']);
    assert(">"@ =~= seq!['>']);
    assert("="@ =~= seq!['=']);
}

/// A lexeme is never empty and never longer than the line it starts.
pub proof fn lemma_lexeme_len(line: Seq<char>)
    ensures
        lexeme(line) matches Some(found) ==> 1 <= found.len <= line.len(),
{
    lemma_known_words();
    lemma_leading(line, CharClass::Word, leading(line, CharClass::Word) as int);
    lemma_string_close(line, 1);
    let w = word(line);
    if w.len() == 0 {
        lemma_leading(w, CharClass::Digit, 0);
        assert(unsigned(w) =~= w);
    }
}

/// Whether a token of this kind denotes a literal: constants and identifiers do, and
/// nothing else does.
pub open spec fn carries_literal(kind: TokenType) -> bool {
    kind == TokenType::Const || kind == TokenType::Id
}

/// A lexeme denotes a literal exactly when it is a constant or an identifier, and an
/// identifier denotes its text.
pub proof fn lemma_literal_goes_with_kind(line: Seq<char>)
    ensures
        lexeme(line) matches Some(found) ==> {
            &&& found.value is Some <==> carries_literal(found.kind)
            &&& found.kind == TokenType::Id ==> found.value == Some(Literal::Str(word(line)))
        },
{
}

/// A word that starts with a decimal digit is never an identifier: the line starts with
/// a number, or with no token at all.
pub proof fn lemma_digit_starts_a_number(line: Seq<char>)
    requires
        line.len() > 0,
        is_digit(line[0]),
    ensures
        match lexeme(line) {
            Some(found) => found.kind == TokenType::Const && (found.value matches Some(
                Literal::Int(_),
            ) || found.value matches Some(Literal::Float(_))),
            None => true,
        },
{
    lemma_known_words();
    lemma_leading(line, CharClass::Word, leading(line, CharClass::Word) as int);
    let w = word(line);
    if w.len() > 0 {
        assert(w[0] == line[0]);
    }
}

} // verus!
