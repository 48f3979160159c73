//! Characters and their classes, and what ties a count of characters to a count of bytes.
use vstd::prelude::*;
use vstd::std_specs::iter::IteratorSpec;
use vstd::utf8::*;

verus! {

/// Whether the Unicode Character Database marks `c` as `White_Space`.
pub uninterp spec fn unicode_whitespace(c: char) -> bool;

/// Whether the Unicode Character Database marks `c` as `Alphabetic`.
pub uninterp spec fn unicode_alphabetic(c: char) -> bool;

/// Whether `c` is in one of the Unicode general categories for numbers: `Nd`, `Nl`, `No`.
pub uninterp spec fn unicode_numeric(c: char) -> bool;

/// `char::is_whitespace` looks `c` up in the tables of the Unicode Character Database that
/// the standard library was built with. The tables are not restated here: the answer is
/// [`unicode_whitespace`], of which nothing more is said.
pub assume_specification[ char::is_whitespace ](c: char) -> (b: bool)
    ensures
        b == unicode_whitespace(c),
;

/// `char::is_alphabetic`, by the same tables: the answer is [`unicode_alphabetic`].
pub assume_specification[ char::is_alphabetic ](c: char) -> (b: bool)
    ensures
        b == unicode_alphabetic(c),
;

/// `char::is_numeric`, by the same tables: the answer is [`unicode_numeric`].
pub assume_specification[ char::is_numeric ](c: char) -> (b: bool)
    ensures
        b == unicode_numeric(c),
;

/// `char::len_utf8` returns the number of bytes that `c` takes up in UTF-8.
pub assume_specification[ char::len_utf8 ](c: char) -> (n: usize)
    ensures
        n == encode_utf8(seq![c]).len(),
;

/// One of the decimal digits `0` to `9`.
pub open spec fn is_digit(c: char) -> bool {
    '0' <= c <= '9'
}

/// A character that ends a token wherever it stands: a parenthesis or a double quote.
pub open spec fn is_delimiter(c: char) -> bool {
    c == '(' || c == ')' || c == '"'
}

/// The classes of characters that the scanner counts runs of.
#[derive(Debug, PartialEq, Eq, Clone, Copy, Structural)]
pub enum CharClass {
    /// Unicode whitespace.
    Whitespace,
    /// What can stand inside a token that is neither a delimiter nor a string: anything
    /// but whitespace and the delimiters.
    Word,
    /// What can stand inside an identifier: letters, numbers and the underscore.
    Identifier,
    /// The decimal digits.
    Digit,
    /// Anything but a line feed.
    InLine,
}

impl CharClass {
    /// Whether `c` belongs to the class.
    pub open spec fn holds(self, c: char) -> bool {
        match self {
            CharClass::Whitespace => unicode_whitespace(c),
            CharClass::Word => !unicode_whitespace(c) && !is_delimiter(c),
            CharClass::Identifier => unicode_alphabetic(c) || unicode_numeric(c) || c == '_',
            CharClass::Digit => is_digit(c),
            CharClass::InLine => c != '\n',
        }
    }

    /// Whether `c` belongs to the class.
    pub fn contains(self, c: char) -> (b: bool)
        ensures
            b == self.holds(c),
    {
        match self {
            CharClass::Whitespace => c.is_whitespace(),
            CharClass::Word => !c.is_whitespace() && c != '(' && c != ')' && c != '"',
            CharClass::Identifier => c.is_alphabetic() || c.is_numeric() || c == '_',
            CharClass::Digit => '0' <= c && c <= '9',
            CharClass::InLine => c != '\n',
        }
    }
}

/// The length of the longest prefix of `s` whose characters all belong to `class`.
pub open spec fn leading(s: Seq<char>, class: CharClass) -> nat
    decreases s.len(),
{
    if s.len() > 0 && class.holds(s[0]) {
        1 + leading(s.drop_first(), class)
    } else {
        0
    }
}

/// [`leading`] is the one `n` such that the first `n` characters belong to the class and
/// the next one, if there is a next one, does not.
pub proof fn lemma_leading(s: Seq<char>, class: CharClass, n: int)
    ensures
        leading(s, class) == n <==> {
            &&& 0 <= n <= s.len()
            &&& forall|i: int| 0 <= i < n ==> class.holds(#[trigger] s[i])
            &&& n < s.len() ==> !class.holds(s[n])
        },
    decreases s.len(),
{
    if s.len() > 0 && class.holds(s[0]) {
        let rest = s.drop_first();
        lemma_leading(rest, class, n - 1);
        if leading(s, class) == n {
            assert forall|i: int| 0 <= i < n implies class.holds(#[trigger] s[i]) by {
                if i > 0 {
                    assert(s[i] == rest[i - 1]);
                }
            }
        }
        if 1 <= n <= s.len() && forall|i: int| 0 <= i < n ==> class.holds(#[trigger] s[i]) {
            assert forall|i: int| 0 <= i < n - 1 implies class.holds(#[trigger] rest[i]) by {
                assert(rest[i] == s[i + 1]);
            }
        }
    } else if s.len() > 0 && n > 0 {
        assert(!class.holds(s[0]));
    }
}

/// Behind the longest prefix of a class nothing of the class stands in front.
pub proof fn lemma_leading_skipped(s: Seq<char>, class: CharClass)
    ensures
        leading(s, class) <= s.len(),
        leading(s.skip(leading(s, class) as int), class) == 0,
{
    let n = leading(s, class) as int;
    lemma_leading(s, class, n);
    lemma_leading(s.skip(n), class, 0);
}

/// Every character takes at least one byte.
pub proof fn lemma_chars_within_bytes(s: Seq<char>)
    ensures
        s.len() <= encode_utf8(s).len(),
    decreases s.len(),
{
    if s.len() > 0 {
        lemma_chars_within_bytes(s.drop_first());
    }
}

/// The encoding of a concatenation is the concatenation of the encodings.
pub proof fn lemma_encode_concat(a: Seq<char>, b: Seq<char>)
    ensures
        encode_utf8(a + b) == encode_utf8(a) + encode_utf8(b),
    decreases a.len(),
{
    if a.len() == 0 {
        assert(a + b =~= b);
        assert(encode_utf8(a) + encode_utf8(b) =~= encode_utf8(b));
    } else {
        lemma_encode_concat(a.drop_first(), b);
        assert((a + b).drop_first() =~= a.drop_first() + b);
        assert(encode_utf8(a + b) =~= encode_utf8(a) + encode_utf8(b));
    }
}

/// The encoding of a prefix ends on a character boundary of the encoding of the whole.
pub proof fn lemma_prefix_ends_on_boundary(a: Seq<char>, b: Seq<char>)
    ensures
        is_char_boundary(encode_utf8(a + b), encode_utf8(a).len() as int),
    decreases a.len(),
{
    let whole = a + b;
    let bytes = encode_utf8(whole);
    encode_utf8_valid_utf8(whole);
    if a.len() > 0 {
        encode_utf8_first_scalar(whole);
        lemma_encode_concat(a, b);
        assert(whole.drop_first() =~= a.drop_first() + b);
        assert(pop_first_scalar(bytes) =~= encode_utf8(whole.drop_first()));
        lemma_prefix_ends_on_boundary(a.drop_first(), b);
    }
}

/// The number of bytes of `text`, which bounds its number of characters.
pub fn byte_len(text: &str) -> (n: usize)
    ensures
        n == encode_utf8(text@).len(),
        text@.len() <= n,
{
    proof {
        lemma_chars_within_bytes(text@);
    }
    text.as_bytes().len()
}

/// The first character of `text`, if it has one.
pub fn first_char(text: &str) -> (first: Option<char>)
    ensures
        first == if text@.len() > 0 {
            Some(text@[0])
        } else {
            None
        },
{
    let mut chars = text.chars();
    chars.next()
}

/// Counts the characters at the start of `text` that belong to `class`.
pub fn count_leading(text: &str, class: CharClass) -> (n: usize)
    ensures
        n == leading(text@, class),
{
    let limit = byte_len(text);
    let mut chars = text.chars();
    let mut n: usize = 0;
    loop
        invariant
            chars.obeys_prophetic_iter_laws(),
            n <= text@.len() <= limit,
            chars.remaining() == text@.skip(n as int),
            forall|i: int| 0 <= i < n ==> class.holds(#[trigger] text@[i]),
        decreases text@.len() - n,
    {
        match chars.next() {
            Some(ch) if class.contains(ch) => {
                assert(text@.skip(n as int).drop_first() =~= text@.skip(n + 1));
                n += 1;
            },
            _ => {
                proof {
                    lemma_leading(text@, class, n as int);
                }
                return n;
            },
        }
    }
}

} // verus!
