//! A front end for a small S-expression language.
//!
//! The [`scanner`] turns source text into a stream of tokens and, in step with it, a table
//! that records where each token stands and which literal it denotes. The [`parser`] then
//! decides whether the stream is a sequence of well-formed forms, and says where it first
//! goes wrong if it is not. No syntax tree is built and nothing is evaluated.
use vstd::prelude::*;

pub mod grammar;
pub mod lexeme;
pub mod parser;
pub mod render;
pub mod scanner;
pub mod text;

verus! {

/// One entry of the token stream: the kind of a lexeme, and the index of the entry of the
/// position table that describes it.
#[derive(Debug, PartialEq, Eq, Clone, Copy, Structural)]
pub struct TokenUnit {
    pub token_type: TokenType,
    pub table_ptr: usize,
}

/// The kinds of token. Every lexeme has exactly one.
#[derive(Debug, PartialEq, Eq, Clone, Copy, Structural)]
pub enum TokenType {
    /// A user-defined identifier.
    Id,
    /// A literal constant: an integer, a floating-point number, a string or a boolean.
    Const,
    // Special forms.
    Define,
    If,
    List,
    Cons,
    Lambda,
    Display,
    Quote,
    QuoteMark,
    // Arithmetic operators.
    PlusOp,
    MulOp,
    MinusOp,
    DivOp,
    // Comparison operators.
    LessThan,
    GreaterThan,
    LessEq,
    GreaterEq,
    Eq,
    // Delimiters (the double quote is not one of them).
    LParen,
    RParen,
}

/// One entry of the position table: where a token starts, as `(row, column)` counted from
/// zero in lines and characters, and the literal it denotes, if it denotes one.
#[derive(Debug, PartialEq, Eq)]
pub struct TableItem {
    pub index: (usize, usize),
    pub value: Option<ValueType>,
}

/// The literal that a constant or an identifier denotes.
#[derive(Debug, PartialEq, Eq)]
pub enum ValueType {
    Int(isize),
    /// A floating-point literal, kept as the text that denotes it: the scanner decides that
    /// the text is a number and leaves its conversion to the caller.
    Float(String),
    /// The content of a string literal, or the text of an identifier.
    Str(String),
    Bool(bool),
}

/// Why scanning stopped.
#[derive(Debug, PartialEq, Eq, Clone, Copy)]
pub enum ScanError {
    /// No token starts at this `(row, column)`.
    InvalidCharacter((usize, usize)),
    /// A run of characters at this `(row, column)` that breaks a lexical rule. The scanner
    /// has no such rule at present and never returns this.
    InvalidToken((usize, usize)),
}

/// Why parsing stopped.
#[derive(Debug, PartialEq, Eq, Clone, Copy)]
pub enum ParseError {
    /// The token that starts at this `(row, column)` cannot stand where it stands.
    UnexpectedToken((usize, usize)),
    /// The stream ended inside a form.
    UnexpectedEndOfInput,
    /// Tokens were left over after a complete program. The parser reports the first such
    /// token with its position, as an [`ParseError::UnexpectedToken`], and never returns
    /// this.
    UnexpectedRemains,
    /// A token points outside the position table, so that its place is unknown.
    UnknownScanError,
}

/// The literal that a [`ValueType`] stands for.
pub enum Literal {
    Int(int),
    Float(Seq<char>),
    Str(Seq<char>),
    Bool(bool),
}

impl View for ValueType {
    type V = Literal;

    open spec fn view(&self) -> Literal {
        match self {
            ValueType::Int(value) => Literal::Int(*value as int),
            ValueType::Float(text) => Literal::Float(text@),
            ValueType::Str(text) => Literal::Str(text@),
            ValueType::Bool(value) => Literal::Bool(*value),
        }
    }
}

/// What a [`TableItem`] records.
pub struct Entry {
    pub row: nat,
    pub column: nat,
    pub value: Option<Literal>,
}

impl View for TableItem {
    type V = Entry;

    open spec fn view(&self) -> Entry {
        Entry {
            row: self.index.0 as nat,
            column: self.index.1 as nat,
            value: match self.value {
                Some(value) => Some(value@),
                None => None,
            },
        }
    }
}

} // verus!
