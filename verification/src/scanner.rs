//! The scanner: from source text to a token stream and its position table.
//!
//! The text is read line by line, and each line token by token: whitespace is skipped,
//! the tokenizer says which lexeme starts what is left, and the lexeme is cut off. The
//! first place where no lexeme starts ends the scan.
use vstd::prelude::*;
use crate::lexeme::{carries_literal, lemma_lexeme_len, lemma_literal_goes_with_kind, lexeme};
use crate::scanner::utils::{split_chars, tokenize};
use crate::text::{byte_len, count_leading, first_char, leading, lemma_leading};
use crate::text::{lemma_leading_skipped, CharClass};
use crate::{Entry, TableItem, TokenType, TokenUnit};

pub use crate::ScanError;

pub mod utils;

verus! {

/// One token as the scan finds it: its kind, and what the position table records for it.
pub struct Scanned {
    pub kind: TokenType,
    pub entry: Entry,
}

/// Where a scan stopped: the row and the column at which no lexeme starts.
pub type Place = (nat, nat);

/// What has been found, followed by what the rest of the scan finds.
pub open spec fn glue(done: Seq<Scanned>, rest: Result<Seq<Scanned>, Place>) -> Result<
    Seq<Scanned>,
    Place,
> {
    match rest {
        Ok(more) => Ok(done + more),
        Err(place) => Err(place),
    }
}

/// One part of a scan and then the next: the first error ends it.
pub open spec fn and_then(
    first: Result<Seq<Scanned>, Place>,
    second: Result<Seq<Scanned>, Place>,
) -> Result<Seq<Scanned>, Place> {
    match first {
        Ok(done) => glue(done, second),
        Err(place) => Err(place),
    }
}

/// The tokens of `line`, which is what is left of row `row` from `column` on: whitespace
/// is skipped, then comes the lexeme that starts the rest, then the tokens of what
/// follows it. Where something is left and no lexeme starts it, the scan stops.
pub open spec fn line_tokens(line: Seq<char>, row: nat, column: nat) -> Result<Seq<Scanned>, Place>
    decreases line.len(),
{
    let blank = leading(line, CharClass::Whitespace);
    let rest = line.skip(blank as int);
    let at = column + blank;
    if rest.len() == 0 {
        Ok(Seq::empty())
    } else {
        match lexeme(rest) {
            Some(found) => {
                proof {
                    lemma_lexeme_len(rest);
                    lemma_leading_skipped(line, CharClass::Whitespace);
                }
                glue(
                    seq![Scanned {
                        kind: found.kind,
                        entry: Entry { row, column: at, value: found.value },
                    }],
                    line_tokens(rest.skip(found.len as int), row, at + found.len),
                )
            },
            None => Err((row, at)),
        }
    }
}

/// `line` without the carriage return that it may end with.
pub open spec fn without_return(line: Seq<char>) -> Seq<char> {
    if line.len() > 0 && line.last() == '\r' {
        line.drop_last()
    } else {
        line
    }
}

/// The lines of `text`. A line ends with a line feed, or with a carriage return and a
/// line feed, neither of which belongs to it. The last line needs no line feed, and
/// nothing follows the last line feed: a text that ends with one has no empty line at its
/// end.
pub open spec fn lines_of(text: Seq<char>) -> Seq<Seq<char>>
    decreases text.len(),
{
    let len = leading(text, CharClass::InLine);
    if text.len() == 0 {
        Seq::empty()
    } else if len >= text.len() {
        seq![text]
    } else {
        seq![without_return(text.take(len as int))] + lines_of(text.skip(len as int + 1))
    }
}

/// The tokens of `lines`, of which the first is row `row`.
pub open spec fn rows_tokens(lines: Seq<Seq<char>>, row: nat) -> Result<Seq<Scanned>, Place>
    decreases lines.len(),
{
    if lines.len() == 0 {
        Ok(Seq::empty())
    } else {
        and_then(line_tokens(lines[0], row, 0), rows_tokens(lines.drop_first(), row + 1))
    }
}

/// What [`scan`] finds in `text`: the tokens of its lines, in order, or the first place
/// where no lexeme starts.
pub open spec fn scanned(text: Seq<char>) -> Result<Seq<Scanned>, Place> {
    rows_tokens(lines_of(text), 0)
}

/// Whether `e` says that no lexeme starts at `place`.
pub open spec fn reports(e: ScanError, place: Place) -> bool {
    e matches ScanError::InvalidCharacter((row, column)) && row == place.0 && column == place.1
}

/// Whether `tokens` and `table` are the two streams that hold `found`: entry `i` of the
/// table describes token `i`, and token `i` points to it.
pub open spec fn streams(found: Seq<Scanned>, tokens: Seq<TokenUnit>, table: Seq<TableItem>) -> bool {
    &&& tokens.len() == found.len()
    &&& table.len() == found.len()
    &&& forall|i: int|
        0 <= i < found.len() ==> {
            &&& (#[trigger] tokens[i]).token_type == found[i].kind
            &&& tokens[i].table_ptr == i
        }
    &&& forall|i: int| 0 <= i < found.len() ==> (#[trigger] table[i])@ == found[i].entry
}

/// Whether the entries of `table` hold a literal for the constants and the identifiers
/// among `tokens`, and for no other token.
pub open spec fn literals_in_place(tokens: Seq<TokenUnit>, table: Seq<TableItem>) -> bool {
    forall|i: int|
        0 <= i < tokens.len() && i < table.len() ==> ((#[trigger] table[i]).value is Some
            <==> carries_literal(tokens[i].token_type))
}

/// Whether `a` stands in front of `b` in the text: in an earlier row, or in the same row
/// at an earlier column.
pub open spec fn comes_before(a: Entry, b: Entry) -> bool {
    a.row < b.row || (a.row == b.row && a.column < b.column)
}

/// Whether the positions that `table` records ascend.
pub open spec fn in_order(table: Seq<TableItem>) -> bool {
    forall|i: int, j: int|
        0 <= i < j < table.len() ==> comes_before((#[trigger] table[i])@, (#[trigger] table[j])@)
}

/// The texts of `lines`.
pub open spec fn texts(lines: Seq<&str>) -> Seq<Seq<char>> {
    lines.map_values(|line: &str| line@)
}

/// The tokens of a line stand in its row, at or behind the column it starts at, each
/// behind the one before.
pub proof fn lemma_line_in_order(line: Seq<char>, row: nat, column: nat)
    requires
        line_tokens(line, row, column) is Ok,
    ensures
        ({
            let found = line_tokens(line, row, column)->Ok_0;
            &&& forall|i: int|
                0 <= i < found.len() ==> (#[trigger] found[i]).entry.row == row
                    && found[i].entry.column >= column
            &&& forall|i: int, j: int|
                0 <= i < j < found.len() ==> (#[trigger] found[i]).entry.column < (
                #[trigger] found[j]).entry.column
        }),
    decreases line.len(),
{
    let blank = leading(line, CharClass::Whitespace);
    let rest = line.skip(blank as int);
    if rest.len() > 0 {
        let first = lexeme(rest)->0;
        lemma_lexeme_len(rest);
        lemma_leading_skipped(line, CharClass::Whitespace);
        lemma_line_in_order(rest.skip(first.len as int), row, column + blank + first.len);
    }
}

/// The tokens of the rows from `row` on stand in those rows, each behind the one before.
pub proof fn lemma_rows_in_order(lines: Seq<Seq<char>>, row: nat)
    requires
        rows_tokens(lines, row) is Ok,
    ensures
        ({
            let found = rows_tokens(lines, row)->Ok_0;
            &&& forall|i: int| 0 <= i < found.len() ==> (#[trigger] found[i]).entry.row >= row
            &&& forall|i: int, j: int|
                0 <= i < j < found.len() ==> comes_before(
                    (#[trigger] found[i]).entry,
                    (#[trigger] found[j]).entry,
                )
        }),
    decreases lines.len(),
{
    if lines.len() > 0 {
        lemma_line_in_order(lines[0], row, 0);
        lemma_rows_in_order(lines.drop_first(), row + 1);
    }
}

/// In what a scan finds, every token stands behind the one before: rows never go back,
/// and within a row the columns go up.
pub proof fn lemma_positions_ascend(text: Seq<char>)
    requires
        scanned(text) is Ok,
    ensures
        forall|i: int, j: int|
            0 <= i < j < scanned(text)->Ok_0.len() ==> comes_before(
                (#[trigger] scanned(text)->Ok_0[i]).entry,
                (#[trigger] scanned(text)->Ok_0[j]).entry,
            ),
{
    lemma_rows_in_order(lines_of(text), 0);
}

/// Whether `one` describes a token that stands in `lines`: at its column of its row
/// starts the lexeme of its kind that denotes its value.
pub open spec fn stands_in(one: Scanned, lines: Seq<Seq<char>>) -> bool {
    &&& one.entry.row < lines.len()
    &&& one.entry.column < lines[one.entry.row as int].len()
    &&& lexeme(lines[one.entry.row as int].skip(one.entry.column as int)) matches Some(found)
        && found.kind == one.kind && found.value == one.entry.value
}

proof fn lemma_line_describes(lines: Seq<Seq<char>>, row: nat, column: nat)
    requires
        row < lines.len(),
        column <= lines[row as int].len(),
        line_tokens(lines[row as int].skip(column as int), row, column) is Ok,
    ensures
        ({
            let found = line_tokens(lines[row as int].skip(column as int), row, column)->Ok_0;
            forall|i: int| 0 <= i < found.len() ==> stands_in(#[trigger] found[i], lines)
        }),
    decreases lines[row as int].len() - column,
{
    let line = lines[row as int];
    let left = line.skip(column as int);
    let blank = leading(left, CharClass::Whitespace);
    let rest = left.skip(blank as int);
    let at = column + blank;
    lemma_leading_skipped(left, CharClass::Whitespace);
    assert(rest =~= line.skip(at as int));
    if rest.len() > 0 {
        let first = lexeme(rest)->0;
        lemma_lexeme_len(rest);
        assert(rest.skip(first.len as int) =~= line.skip((at + first.len) as int));
        lemma_line_describes(lines, row, at + first.len);
        let more = line_tokens(line.skip((at + first.len) as int), row, at + first.len)->Ok_0;
        let found = line_tokens(left, row, column)->Ok_0;
        assert forall|i: int| 0 <= i < found.len() implies stands_in(
            #[trigger] found[i],
            lines,
        ) by {
            if i > 0 {
                assert(found[i] == more[i - 1]);
            }
        }
    }
}

proof fn lemma_rows_describe(lines: Seq<Seq<char>>, row: nat)
    requires
        row <= lines.len(),
        rows_tokens(lines.skip(row as int), row) is Ok,
    ensures
        ({
            let found = rows_tokens(lines.skip(row as int), row)->Ok_0;
            forall|i: int| 0 <= i < found.len() ==> stands_in(#[trigger] found[i], lines)
        }),
    decreases lines.len() - row,
{
    if row < lines.len() {
        let left = lines.skip(row as int);
        assert(left[0] == lines[row as int]);
        assert(left.drop_first() =~= lines.skip(row as int + 1));
        assert(lines[row as int].skip(0) =~= lines[row as int]);
        lemma_line_describes(lines, row, 0);
        lemma_rows_describe(lines, row + 1);
        let here = line_tokens(lines[row as int], row, 0)->Ok_0;
        let more = rows_tokens(lines.skip(row as int + 1), row + 1)->Ok_0;
        let found = rows_tokens(left, row)->Ok_0;
        assert forall|i: int| 0 <= i < found.len() implies stands_in(
            #[trigger] found[i],
            lines,
        ) by {
            if i < here.len() {
                assert(found[i] == here[i]);
            } else {
                assert(found[i] == more[i - here.len()]);
            }
        }
    }
}

/// Every token that a scan finds stands in the text where its entry says: at that column
/// of that line starts the lexeme of that kind, which denotes that value.
pub proof fn lemma_entries_describe_tokens(text: Seq<char>)
    requires
        scanned(text) is Ok,
    ensures
        forall|i: int|
            0 <= i < scanned(text)->Ok_0.len() ==> stands_in(
                #[trigger] scanned(text)->Ok_0[i],
                lines_of(text),
            ),
{
    assert(lines_of(text).skip(0) =~= lines_of(text));
    lemma_rows_describe(lines_of(text), 0);
}

/// The number of whitespace characters that `line` starts with.
pub fn whitespace_cnt(line: &str) -> (ws_cnt: usize)
    ensures
        ws_cnt == leading(line@, CharClass::Whitespace),
{
    count_leading(line, CharClass::Whitespace)
}

/// `line`, of `len` characters, without the carriage return that it may end with.
fn strip_return<'a>(line: &'a str, len: usize) -> (stripped: &'a str)
    requires
        len == line@.len(),
    ensures
        stripped@ == without_return(line@),
{
    if len > 0 {
        let (front, last) = split_chars(line, len - 1);
        if let Some('\r') = first_char(last) {
            assert(front@ =~= line@.drop_last());
            return front;
        }
    }
    line
}

/// Cuts `input` into its lines.
fn split_lines<'a>(input: &'a str) -> (lines: Vec<&'a str>)
    ensures
        texts(lines@) == lines_of(input@),
{
    let mut lines: Vec<&str> = Vec::new();
    let mut rest = input;
    assert(texts(lines@) + lines_of(rest@) =~= lines_of(input@));
    while !rest.is_empty()
        invariant
            texts(lines@) + lines_of(rest@) == lines_of(input@),
        decreases rest@.len(),
    {
        let len = count_leading(rest, CharClass::InLine);
        let ghost before = texts(lines@);
        let ghost text = rest@;
        proof {
            lemma_leading(text, CharClass::InLine, len as int);
        }
        let (line, tail) = split_chars(rest, len);
        if tail.is_empty() {
            // The last line, which no line feed ends.
            lines.push(line);
            rest = tail;
            proof {
                assert(line@ =~= text);
                assert(texts(lines@) =~= before + seq![text]);
                assert(before + lines_of(text) =~= texts(lines@) + lines_of(rest@));
            }
        } else {
            lines.push(strip_return(line, len));
            rest = split_chars(tail, 1).1;
            proof {
                assert(rest@ =~= text.skip(len + 1));
                assert(texts(lines@) =~= before + seq![without_return(text.take(len as int))]);
                assert(before + lines_of(text) =~= texts(lines@) + lines_of(rest@));
            }
        }
    }
    assert(texts(lines@) + lines_of(rest@) =~= texts(lines@));
    lines
}

/// Scans `input`: the token stream and the position table that goes with it, or the
/// first place where no token starts.
///
/// Entry `i` of the table describes token `i`, whose `table_ptr` is `i`. Rows are lines
/// and columns are characters, both counted from zero. The same lexeme gets an entry of
/// its own each time it occurs.
pub fn scan(input: &str) -> (result: Result<(Vec<TokenUnit>, Vec<TableItem>), ScanError>)
    ensures
        match result {
            Ok((tokens, token_table)) => scanned(input@) is Ok && streams(
                scanned(input@)->Ok_0,
                tokens@,
                token_table@,
            ),
            Err(e) => scanned(input@) is Err && reports(e, scanned(input@)->Err_0),
        },
        result matches Ok((tokens, token_table)) ==> tokens@.len() == token_table@.len()
            && in_order(token_table@) && literals_in_place(tokens@, token_table@),
{
    let mut token_table: Vec<TableItem> = Vec::new();
    let mut tokens: Vec<TokenUnit> = Vec::new();
    let lines = split_lines(input);
    let ghost all = lines_of(input@);
    let ghost mut done: Seq<Scanned> = Seq::empty();
    let mut row: usize = 0;
    assert(all.skip(0) =~= all);
    assert(glue(done, rows_tokens(all, 0)) == scanned(input@)) by {
        if rows_tokens(all, 0) is Ok {
            assert(done + rows_tokens(all, 0)->Ok_0 =~= rows_tokens(all, 0)->Ok_0);
        }
    }
    while row < lines.len()
        invariant
            row <= lines.len(),
            all == lines_of(input@),
            texts(lines@) == all,
            streams(done, tokens@, token_table@),
            glue(done, rows_tokens(all.skip(row as int), row as nat)) == scanned(input@),
        decreases lines.len() - row,
    {
        let mut line: &str = lines[row];
        let ghost whole = line@;
        let ghost below = rows_tokens(all.skip(row + 1), (row + 1) as nat);
        let limit = byte_len(line);
        let mut column = whitespace_cnt(line);
        proof {
            assert(whole == all[row as int]);
            assert(all.skip(row as int).drop_first() =~= all.skip(row + 1));
            lemma_leading_skipped(whole, CharClass::Whitespace);
            lemma_skip_blank(whole, row as nat, 0);
        }
        line = split_chars(line, column).1;

        while !line.is_empty()
            invariant
                streams(done, tokens@, token_table@),
                column + line@.len() == whole.len() <= limit,
                leading(line@, CharClass::Whitespace) == 0,
                glue(done, and_then(line_tokens(line@, row as nat, column as nat), below))
                    == scanned(input@),
            decreases line@.len(),
        {
            let ghost here = line@;
            proof {
                lemma_lexeme_len(here);
                assert(here.skip(0) =~= here);
            }
            let (mut token, table_item) = tokenize(line, row, column)?;
            let len = token.table_ptr;
            let ghost found = lexeme(here)->0;
            let ghost one = Scanned {
                kind: found.kind,
                entry: Entry { row: row as nat, column: column as nat, value: found.value },
            };

            // The token points to the next free entry of the table, which describes it.
            token.table_ptr = token_table.len();
            tokens.push(token);
            token_table.push(table_item);

            // Cut the lexeme off, and the whitespace behind it.
            column += len;
            line = split_chars(line, len).1;
            let ws_cnt = whitespace_cnt(line);
            proof {
                lemma_leading_skipped(line@, CharClass::Whitespace);
                lemma_skip_blank(line@, row as nat, column as nat);
                let next = line_tokens(line@, row as nat, column as nat);
                assert(line_tokens(here, row as nat, (column - len) as nat) == glue(seq![one], next));
                if and_then(next, below) is Ok {
                    let more = and_then(next, below)->Ok_0;
                    assert(done + (seq![one] + more) =~= done.push(one) + more);
                    if next is Ok {
                        assert((seq![one] + next->Ok_0) + below->Ok_0 =~= seq![one] + more);
                    }
                }
                done = done.push(one);
            }
            column += ws_cnt;
            line = split_chars(line, ws_cnt).1;
        }
        proof {
            if below is Ok {
                assert(Seq::<Scanned>::empty() + below->Ok_0 =~= below->Ok_0);
            }
        }
        row += 1;
    }
    proof {
        assert(done + Seq::<Scanned>::empty() =~= done);
        lemma_positions_ascend(input@);
        lemma_entries_describe_tokens(input@);
        assert forall|i: int| 0 <= i < tokens@.len() implies ((#[trigger] token_table@[i]).value
            is Some <==> carries_literal(tokens@[i].token_type)) by {
            let one = done[i];
            let line = lines_of(input@)[one.entry.row as int];
            assert(stands_in(one, lines_of(input@)));
            lemma_literal_goes_with_kind(line.skip(one.entry.column as int));
            assert(token_table@[i]@ == one.entry);
        }
    }
    Ok((tokens, token_table))
}

/// The whitespace that a line starts with changes the columns of its tokens and nothing
/// else.
proof fn lemma_skip_blank(line: Seq<char>, row: nat, column: nat)
    ensures
        line_tokens(line, row, column) == line_tokens(
            line.skip(leading(line, CharClass::Whitespace) as int),
            row,
            column + leading(line, CharClass::Whitespace),
        ),
{
    let blank = leading(line, CharClass::Whitespace);
    let rest = line.skip(blank as int);
    lemma_leading_skipped(line, CharClass::Whitespace);
    assert(rest.skip(0) =~= rest);
}

} // verus!
