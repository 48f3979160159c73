//! The procedures of the recursive descent, one for each production of the grammar.
use vstd::prelude::*;
use vstd::slice::slice_subrange;
use crate::grammar::{form_end, is_atom_kind, kinds_of, lemma_form_end_skips};
use crate::grammar::{lemma_stray_close, lemma_unclosed_stays_open, nesting, Nesting};
use crate::{ParseError, TableItem, TokenType, TokenUnit};

verus! {

/// The error for a token that cannot stand where it stands: its recorded position, or
/// [`ParseError::UnknownScanError`] when the table has no entry for it.
pub open spec fn located(token: TokenUnit, table: Seq<TableItem>) -> ParseError {
    if token.table_ptr < table.len() {
        ParseError::UnexpectedToken(table[token.table_ptr as int].index)
    } else {
        ParseError::UnknownScanError
    }
}

/// What [`expect_ts`] answers: one token consumed, or why not.
pub open spec fn expect_outcome(
    tokens: Seq<TokenUnit>,
    table: Seq<TableItem>,
    ts: TokenType,
) -> Result<nat, ParseError> {
    if tokens.len() == 0 {
        Err(ParseError::UnexpectedEndOfInput)
    } else if tokens[0].token_type == ts {
        Ok(1)
    } else {
        Err(located(tokens[0], table))
    }
}

/// What [`parse_start`] answers: the number of tokens that the form at the front takes up,
/// or why there is no form there.
pub open spec fn start_outcome(tokens: Seq<TokenUnit>, table: Seq<TableItem>) -> Result<
    nat,
    ParseError,
> {
    if tokens.len() > 0 && tokens[0].token_type == TokenType::RParen {
        Err(located(tokens[0], table))
    } else {
        match form_end(kinds_of(tokens)) {
            Some(n) => Ok(n),
            None => Err(ParseError::UnexpectedEndOfInput),
        }
    }
}

/// What [`parse_list`] answers: the number of tokens in front of the `)` that ends the
/// list. A list that runs to the end of the input has no end.
pub open spec fn list_outcome(tokens: Seq<TokenUnit>) -> Result<nat, ParseError> {
    match nesting(kinds_of(tokens), 0) {
        Nesting::Stray(j) => Ok(j),
        Nesting::Open(_) => Err(ParseError::UnexpectedEndOfInput),
    }
}

/// `start := '(' list ')' | atom`: consumes the form at the front of `tokens` and returns
/// what follows it.
pub fn parse_start<'a>(tokens: &'a [TokenUnit], token_table: &Vec<TableItem>) -> (result: Result<
    &'a [TokenUnit],
    ParseError,
>)
    ensures
        match result {
            Ok(rest) => start_outcome(tokens@, token_table@) matches Ok(n) && rest@
                == tokens@.skip(n as int),
            Err(e) => start_outcome(tokens@, token_table@) == Err::<nat, ParseError>(e),
        },
    decreases tokens@.len(), 0nat,
{
    if tokens.len() == 0 {
        return Err(ParseError::UnexpectedEndOfInput);
    }
    let first = tokens[0];
    let ghost kinds = kinds_of(tokens@);
    if is_atom(first.token_type) {
        expect_ts(tokens, token_table, first.token_type)
    } else if first.token_type == TokenType::LParen {
        let tokens = expect_ts(tokens, token_table, TokenType::LParen)?;
        assert(kinds_of(tokens@) =~= kinds.skip(1));
        let tokens = parse_list(tokens, token_table)?;
        proof {
            let j = nesting(kinds.skip(1), 0)->Stray_0;
            lemma_stray_close(kinds.skip(1), j);
            assert(tokens@[0].token_type == kinds.skip(1)[j as int]);
        }
        let rest = expect_ts(tokens, token_table, TokenType::RParen)?;
        Ok(rest)
    } else {
        Err(locate(&first, token_table))
    }
}

/// `list := start list | ε`: consumes forms up to the `)` that ends the list and returns
/// what starts with that `)`.
///
/// The forms of one list are consumed in a loop, so that the calls nest as deep as the
/// parentheses do and no deeper.
pub fn parse_list<'a>(tokens: &'a [TokenUnit], token_table: &Vec<TableItem>) -> (result: Result<
    &'a [TokenUnit],
    ParseError,
>)
    ensures
        match result {
            Ok(rest) => list_outcome(tokens@) matches Ok(n) && rest@ == tokens@.skip(n as int),
            Err(e) => list_outcome(tokens@) == Err::<nat, ParseError>(e),
        },
    decreases tokens@.len(), 1nat,
{
    let mut rest = tokens;
    let ghost kinds = kinds_of(tokens@);
    let ghost mut done: int = 0;
    assert(tokens@.skip(0) =~= tokens@);
    loop
        invariant
            0 <= done <= tokens@.len(),
            rest@ == tokens@.skip(done),
            kinds == kinds_of(tokens@),
            nesting(kinds, 0) == nesting(kinds_of(rest@), 0).shifted(done as nat),
        decreases rest@.len(),
    {
        if rest.len() == 0 {
            return Err(ParseError::UnexpectedEndOfInput);
        }
        if rest[0].token_type == TokenType::RParen {
            return Ok(rest);
        }
        let ghost current = kinds_of(rest@);
        proof {
            if form_end(current) is Some {
                lemma_form_end_skips(current);
            } else {
                lemma_unclosed_stays_open(current);
            }
        }
        let after_form = parse_start(rest, token_table)?;
        proof {
            let n = form_end(current)->0 as int;
            assert(kinds_of(after_form@) =~= current.skip(n));
            assert(after_form@ =~= tokens@.skip(done + n));
            done = done + n;
        }
        rest = after_form;
    }
}

/// Consumes one token of kind `ts`.
pub fn expect_ts<'a>(tokens: &'a [TokenUnit], token_table: &Vec<TableItem>, ts: TokenType) -> (result:
    Result<&'a [TokenUnit], ParseError>)
    ensures
        match result {
            Ok(rest) => expect_outcome(tokens@, token_table@, ts) matches Ok(n) && rest@
                == tokens@.skip(n as int),
            Err(e) => expect_outcome(tokens@, token_table@, ts) == Err::<nat, ParseError>(e),
        },
{
    if tokens.len() == 0 {
        return Err(ParseError::UnexpectedEndOfInput);
    }
    let token_unit = tokens[0];
    if token_unit.token_type == ts {
        Ok(slice_subrange(tokens, 1, tokens.len()))
    } else {
        Err(locate(&token_unit, token_table))
    }
}

/// The error that reports `token` as unexpected.
fn locate(token: &TokenUnit, token_table: &Vec<TableItem>) -> (error: ParseError)
    ensures
        error == located(*token, token_table@),
{
    if token.table_ptr < token_table.len() {
        ParseError::UnexpectedToken(token_table[token.table_ptr].index)
    } else {
        ParseError::UnknownScanError
    }
}

/// Is a token of this kind an atom?
pub fn is_atom(token_type: TokenType) -> (atom: bool)
    ensures
        atom == is_atom_kind(token_type),
{
    token_type != TokenType::LParen && token_type != TokenType::RParen
}

} // verus!
