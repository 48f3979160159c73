//! The two stages together: writing a program down, and reading it back.
//!
//! A program can be written as lines of tokens, each token followed by one whitespace
//! character. The lemmas of this module prove that the scanner reads such a text back
//! as the tokens that were written, and that the parser accepts it when they balance.
//! They also say what the parser makes of whatever the scanner hands over.
use vstd::prelude::*;
use crate::grammar::{is_forms, kinds_of, lemma_stray_close, nesting, Nesting};
use crate::lexeme::{all_of, lemma_known_words, lemma_lexeme_len, lemma_string_close, lexeme};
use crate::lexeme::{closes_string, string_close, word};
use crate::parser::{lemma_accepts_the_grammar, program_outcome};
use crate::scanner::{line_tokens, lines_of, rows_tokens, scanned, streams, without_return, Scanned};
use crate::text::{leading, lemma_leading, unicode_whitespace, CharClass};
use crate::{ParseError, TableItem, TokenUnit};

verus! {

/// Whether `w` is a token as it is written: one lexeme and no more, which starts with no
/// whitespace and holds no line feed.
pub open spec fn is_written(w: Seq<char>) -> bool {
    &&& lexeme(w) matches Some(found) && found.len == w.len()
    &&& !unicode_whitespace(w[0])
    &&& all_of(w, CharClass::InLine)
}

/// Whether `gap` can stand between two tokens of a line: whitespace that ends no line.
pub open spec fn is_gap(gap: char) -> bool {
    unicode_whitespace(gap) && gap != '\n' && gap != '\r'
}

/// A line of tokens, each followed by `gap`.
pub open spec fn written_line(words: Seq<Seq<char>>, gap: char) -> Seq<char>
    decreases words.len(),
{
    if words.len() == 0 {
        Seq::empty()
    } else {
        words[0] + seq![gap] + written_line(words.drop_first(), gap)
    }
}

/// A text of lines of tokens, each line followed by a line feed.
pub open spec fn written_text(lines: Seq<Seq<Seq<char>>>, gap: char) -> Seq<char>
    decreases lines.len(),
{
    if lines.len() == 0 {
        Seq::empty()
    } else {
        written_line(lines[0], gap) + seq!['\n'] + written_text(lines.drop_first(), gap)
    }
}

/// The tokens of all the lines, in order.
pub open spec fn words_of(lines: Seq<Seq<Seq<char>>>) -> Seq<Seq<char>>
    decreases lines.len(),
{
    if lines.len() == 0 {
        Seq::empty()
    } else {
        lines[0] + words_of(lines.drop_first())
    }
}

/// Whether every token of every line [`is_written`].
pub open spec fn all_written(lines: Seq<Seq<Seq<char>>>) -> bool {
    forall|i: int, j: int|
        0 <= i < lines.len() && 0 <= j < lines[i].len() ==> is_written(#[trigger] lines[i][j])
}

/// Whether `found` holds the lexemes of `words`, one for one.
pub open spec fn reads_back(found: Seq<Scanned>, words: Seq<Seq<char>>) -> bool {
    &&& found.len() == words.len()
    &&& forall|i: int|
        0 <= i < words.len() ==> {
            &&& (#[trigger] found[i]).kind == lexeme(words[i])->0.kind
            &&& found[i].entry.value == lexeme(words[i])->0.value
        }
}

/// What follows a written token does not change it, as long as whitespace comes first.
pub proof fn lemma_lexeme_stands_alone(w: Seq<char>, rest: Seq<char>)
    requires
        lexeme(w) is Some,
        lexeme(w)->0.len == w.len(),
        rest.len() > 0 ==> unicode_whitespace(rest[0]),
    ensures
        lexeme(w + rest) == lexeme(w),
{
    let t = w + rest;
    lemma_known_words();
    lemma_lexeme_len(w);
    assert(t[0] == w[0]);
    if w[0] == '(' || w[0] == ')' {
    } else if w[0] == '"' {
        lemma_leading(w, CharClass::Word, 0);
        lemma_leading(word(w), CharClass::Digit, 0);
        lemma_string_close(w, 1);
        lemma_string_close(t, 1);
        let close = string_close(w, 1)->0;
        assert(closes_string(t, close));
        assert forall|i: int| 1 <= i < close implies !closes_string(t, i) by {
            assert(!closes_string(w, i));
        }
        assert(t.subrange(1, close) =~= w.subrange(1, close));
    } else {
        let n = leading(w, CharClass::Word) as int;
        lemma_leading(w, CharClass::Word, n);
        if n == 0 {
            lemma_leading(word(w), CharClass::Digit, 0);
        }
        assert(n == w.len());
        assert forall|i: int| 0 <= i < n implies CharClass::Word.holds(#[trigger] t[i]) by {
            assert(t[i] == w[i]);
        }
        lemma_leading(t, CharClass::Word, n);
        assert(word(t) =~= word(w));
    }
}

/// One whitespace character in front of a line moves its tokens by one column.
proof fn lemma_gap_in_front(line: Seq<char>, gap: char, row: nat, column: nat)
    requires
        unicode_whitespace(gap),
    ensures
        line_tokens(seq![gap] + line, row, column) == line_tokens(line, row, column + 1),
{
    let whole = seq![gap] + line;
    let blank = leading(line, CharClass::Whitespace);
    lemma_leading(line, CharClass::Whitespace, blank as int);
    assert(whole.drop_first() =~= line);
    assert(leading(whole, CharClass::Whitespace) == blank + 1);
    assert(whole.skip(blank as int + 1) =~= line.skip(blank as int));
}

/// A written line is read back as its tokens.
pub proof fn lemma_line_is_read_back(words: Seq<Seq<char>>, gap: char, row: nat, column: nat)
    requires
        unicode_whitespace(gap),
        forall|i: int| 0 <= i < words.len() ==> is_written(#[trigger] words[i]),
    ensures
        line_tokens(written_line(words, gap), row, column) is Ok,
        reads_back(line_tokens(written_line(words, gap), row, column)->Ok_0, words),
    decreases words.len(),
{
    if words.len() > 0 {
        let first = words[0];
        let others = words.drop_first();
        let behind = written_line(others, gap);
        let line = written_line(words, gap);
        let found = lexeme(first)->0;
        lemma_lexeme_len(first);
        assert(line =~= first + (seq![gap] + behind));
        lemma_lexeme_stands_alone(first, seq![gap] + behind);
        lemma_leading(line, CharClass::Whitespace, 0);
        assert(line.skip(0) =~= line);
        assert(line.skip(found.len as int) =~= seq![gap] + behind);
        lemma_gap_in_front(behind, gap, row, column + found.len);
        assert forall|i: int| 0 <= i < others.len() implies is_written(#[trigger] others[i]) by {
            assert(others[i] == words[i + 1]);
        }
        lemma_line_is_read_back(others, gap, row, column + found.len + 1);
        let more = line_tokens(behind, row, column + found.len + 1)->Ok_0;
        let all = line_tokens(line, row, column)->Ok_0;
        assert forall|i: int| 0 <= i < words.len() implies {
            &&& (#[trigger] all[i]).kind == lexeme(words[i])->0.kind
            &&& all[i].entry.value == lexeme(words[i])->0.value
        } by {
            if i > 0 {
                assert(all[i] == more[i - 1]);
                assert(words[i] == others[i - 1]);
            }
        }
    }
}

/// A written line holds no line feed, and ends with no carriage return.
proof fn lemma_line_is_one_line(words: Seq<Seq<char>>, gap: char)
    requires
        is_gap(gap),
        forall|i: int| 0 <= i < words.len() ==> is_written(#[trigger] words[i]),
    ensures
        all_of(written_line(words, gap), CharClass::InLine),
        without_return(written_line(words, gap)) == written_line(words, gap),
    decreases words.len(),
{
    if words.len() > 0 {
        let others = words.drop_first();
        assert forall|i: int| 0 <= i < others.len() implies is_written(#[trigger] others[i]) by {
            assert(others[i] == words[i + 1]);
        }
        lemma_line_is_one_line(others, gap);
        let line = written_line(words, gap);
        let behind = written_line(others, gap);
        assert(is_written(words[0]));
        if behind.len() == 0 {
            assert(line.last() == gap);
        } else {
            assert(line.last() == behind.last());
        }
    }
}

/// A written text is read back as the tokens of its lines, in order.
pub proof fn lemma_text_is_read_back(lines: Seq<Seq<Seq<char>>>, gap: char)
    requires
        is_gap(gap),
        all_written(lines),
    ensures
        scanned(written_text(lines, gap)) is Ok,
        reads_back(scanned(written_text(lines, gap))->Ok_0, words_of(lines)),
{
    lemma_rows_are_read_back(lines, gap, 0);
}

proof fn lemma_rows_are_read_back(lines: Seq<Seq<Seq<char>>>, gap: char, row: nat)
    requires
        is_gap(gap),
        all_written(lines),
    ensures
        rows_tokens(lines_of(written_text(lines, gap)), row) is Ok,
        reads_back(rows_tokens(lines_of(written_text(lines, gap)), row)->Ok_0, words_of(lines)),
    decreases lines.len(),
{
    if lines.len() > 0 {
        let line = written_line(lines[0], gap);
        let below = written_text(lines.drop_first(), gap);
        let text = written_text(lines, gap);
        assert(all_written(lines.drop_first())) by {
            assert forall|i: int, j: int|
                0 <= i < lines.drop_first().len() && 0 <= j < lines.drop_first()[i].len()
                implies is_written(#[trigger] lines.drop_first()[i][j]) by {
                assert(lines.drop_first()[i] == lines[i + 1]);
                assert(is_written(lines[i + 1][j]));
            }
        }
        assert forall|j: int| 0 <= j < lines[0].len() implies is_written(
            #[trigger] lines[0][j],
        ) by {}
        lemma_line_is_one_line(lines[0], gap);
        lemma_line_is_read_back(lines[0], gap, row, 0);
        lemma_rows_are_read_back(lines.drop_first(), gap, row + 1);
        assert forall|i: int| 0 <= i < line.len() implies CharClass::InLine.holds(
            #[trigger] text[i],
        ) by {
            assert(text[i] == line[i]);
        }
        assert(text[line.len() as int] == '\n');
        lemma_leading(text, CharClass::InLine, line.len() as int);
        assert(text.take(line.len() as int) =~= line);
        assert(text.skip(line.len() as int + 1) =~= below);
        let rows = lines_of(text);
        assert(rows =~= seq![line] + lines_of(below));
        assert(rows.drop_first() =~= lines_of(below));
        let here = line_tokens(line, row, 0)->Ok_0;
        let more = rows_tokens(lines_of(below), row + 1)->Ok_0;
        let all = rows_tokens(rows, row)->Ok_0;
        let words = words_of(lines);
        assert forall|i: int| 0 <= i < words.len() implies {
            &&& (#[trigger] all[i]).kind == lexeme(words[i])->0.kind
            &&& all[i].entry.value == lexeme(words[i])->0.value
        } by {
            if i < here.len() {
                assert(all[i] == here[i]);
                assert(words[i] == lines[0][i]);
            } else {
                assert(all[i] == more[i - here.len()]);
                assert(words[i] == words_of(lines.drop_first())[i - here.len()]);
            }
        }
    }
}

/// A text that is written with legal tokens only, and whose tokens make up complete,
/// balanced forms, passes both stages: the scanner reads it, and the parser accepts what
/// the scanner hands over.
pub proof fn lemma_written_program_is_accepted(
    lines: Seq<Seq<Seq<char>>>,
    gap: char,
    tokens: Seq<TokenUnit>,
    table: Seq<TableItem>,
)
    requires
        is_gap(gap),
        all_written(lines),
        is_forms(words_of(lines).map_values(|w: Seq<char>| lexeme(w)->0.kind)),
        scanned(written_text(lines, gap)) is Ok ==> streams(
            scanned(written_text(lines, gap))->Ok_0,
            tokens,
            table,
        ),
    ensures
        scanned(written_text(lines, gap)) is Ok,
        program_outcome(tokens, table) == Ok::<(), ParseError>(()),
{
    lemma_text_is_read_back(lines, gap);
    lemma_accepts_the_grammar(tokens, table);
    assert(kinds_of(tokens) =~= words_of(lines).map_values(|w: Seq<char>| lexeme(w)->0.kind));
}

/// The parser knows every token that the scanner hands over: it reports a stray `)` with
/// the place that the scanner recorded for it, and never an unknown one.
pub proof fn lemma_scanned_tokens_are_known(
    found: Seq<Scanned>,
    tokens: Seq<TokenUnit>,
    table: Seq<TableItem>,
)
    requires
        streams(found, tokens, table),
    ensures
        program_outcome(tokens, table) != Err::<(), ParseError>(ParseError::UnknownScanError),
        nesting(kinds_of(tokens), 0) matches Nesting::Stray(i) ==> {
            &&& program_outcome(tokens, table) == Err::<(), ParseError>(
                ParseError::UnexpectedToken(table[i as int].index),
            )
            &&& table[i as int]@ == found[i as int].entry
        },
{
    if nesting(kinds_of(tokens), 0) is Stray {
        let i = nesting(kinds_of(tokens), 0)->Stray_0;
        lemma_stray_close(kinds_of(tokens), i);
        assert(tokens[i as int].table_ptr == i);
    }
}

/// Whatever the text, when the scanner reads it and its tokens make up complete, balanced
/// forms, the parser accepts what the scanner hands over.
pub proof fn lemma_balanced_text_is_accepted(
    text: Seq<char>,
    tokens: Seq<TokenUnit>,
    table: Seq<TableItem>,
)
    requires
        scanned(text) is Ok,
        streams(scanned(text)->Ok_0, tokens, table),
        is_forms(scanned(text)->Ok_0.map_values(|found: Scanned| found.kind)),
    ensures
        program_outcome(tokens, table) == Ok::<(), ParseError>(()),
{
    lemma_accepts_the_grammar(tokens, table);
    assert(kinds_of(tokens) =~= scanned(text)->Ok_0.map_values(|found: Scanned| found.kind));
}

} // verus!
