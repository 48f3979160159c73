//! The recognizer: does a token stream conform to the grammar?
//!
//! The stream is read from left to right with one token of lookahead. Nothing is built:
//! the answer is that the whole stream is a sequence of well-formed forms, or the first
//! place where it is not.
use vstd::prelude::*;
use crate::grammar::{is_forms, kinds_of, lemma_form_end_skips, lemma_forms_iff_balanced};
use crate::grammar::{lemma_unclosed_stays_open, nesting, Nesting};
use crate::parser::utils::{located, parse_start};
use crate::{ParseError, TableItem, TokenUnit};

pub mod utils;

verus! {

/// What [`parse`] answers: the first `)` that closes nothing is an unexpected token, a `(`
/// that is never closed makes the input end too early, and anything else is a program.
pub open spec fn program_outcome(tokens: Seq<TokenUnit>, table: Seq<TableItem>) -> Result<
    (),
    ParseError,
> {
    match nesting(kinds_of(tokens), 0) {
        Nesting::Stray(i) => Err(located(tokens[i as int], table)),
        Nesting::Open(n) => if n == 0 {
            Ok(())
        } else {
            Err(ParseError::UnexpectedEndOfInput)
        },
    }
}

/// [`parse`] accepts the language of the grammar, no more and no less, whatever the
/// position table holds.
pub proof fn lemma_accepts_the_grammar(tokens: Seq<TokenUnit>, table: Seq<TableItem>)
    ensures
        program_outcome(tokens, table) is Ok <==> is_forms(kinds_of(tokens)),
{
    lemma_forms_iff_balanced(kinds_of(tokens));
}

/// Decides whether `tokens` is a program: zero or more forms, one after the other.
///
/// Parsing stops at the first error. A token that cannot stand where it stands is reported
/// with the position that `token_table` records for it.
pub fn parse(tokens: &Vec<TokenUnit>, token_table: &Vec<TableItem>) -> (result: Result<
    (),
    ParseError,
>)
    ensures
        result == program_outcome(tokens@, token_table@),
        result is Ok <==> is_forms(kinds_of(tokens@)),
{
    let mut current_tokens = tokens.as_slice();
    let ghost kinds = kinds_of(tokens@);
    let ghost mut done: int = 0;
    proof {
        lemma_accepts_the_grammar(tokens@, token_table@);
        assert(tokens@.skip(0) =~= tokens@);
    }
    while current_tokens.len() > 0
        invariant
            0 <= done <= tokens@.len(),
            current_tokens@ == tokens@.skip(done),
            kinds == kinds_of(tokens@),
            program_outcome(tokens@, token_table@) is Ok <==> is_forms(kinds),
            nesting(kinds, 0) == nesting(kinds_of(current_tokens@), 0).shifted(done as nat),
        decreases current_tokens@.len(),
    {
        let ghost current = kinds_of(current_tokens@);
        match parse_start(current_tokens, token_table) {
            Ok(rest) => {
                proof {
                    lemma_form_end_skips(current);
                    let n = crate::grammar::form_end(current)->0 as int;
                    assert(kinds_of(rest@) =~= current.skip(n));
                    assert(rest@ =~= tokens@.skip(done + n));
                    done = done + n;
                }
                current_tokens = rest;
            },
            Err(e) => {
                proof {
                    if current[0] == crate::TokenType::LParen {
                        lemma_unclosed_stays_open(current);
                    }
                }
                return Err(e);
            },
        }
    }
    Ok(())
}

} // verus!
