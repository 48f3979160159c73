//! The grammar of the language, and what it comes to in terms of nesting.
//!
//! ```text
//! program := start*
//! start   := '(' list ')'  |  atom
//! list    := start list | ε
//! atom    := any token but a parenthesis
//! ```
//!
//! A `list` and a `program` are both a run of forms, so one predicate, [`is_forms`], serves
//! for the two. A sequence of kinds is such a run exactly when its parentheses balance,
//! which [`nesting`] computes in one pass; the lemmas of this module prove that the two
//! say the same.
use vstd::prelude::*;
use crate::TokenType;
use crate::TokenUnit;

verus! {

/// An atom is any token but a parenthesis.
pub open spec fn is_atom_kind(kind: TokenType) -> bool {
    kind != TokenType::LParen && kind != TokenType::RParen
}

/// The kinds of a token stream, in order.
pub open spec fn kinds_of(tokens: Seq<TokenUnit>) -> Seq<TokenType> {
    tokens.map_values(|token: TokenUnit| token.token_type)
}

/// `start`: one atom, or a run of forms between a pair of parentheses.
pub open spec fn is_form(s: Seq<TokenType>) -> bool
    decreases s.len(), 0nat,
{
    ||| s.len() == 1 && is_atom_kind(s[0])
    ||| {
        &&& s.len() >= 2
        &&& s[0] == TokenType::LParen
        &&& s[s.len() - 1] == TokenType::RParen
        &&& is_forms(s.subrange(1, s.len() - 1))
    }
}

/// `list` and `program`: zero or more forms, one after the other.
pub open spec fn is_forms(s: Seq<TokenType>) -> bool
    decreases s.len(), 1nat,
{
    s.len() == 0 || exists|k: int|
        #![trigger s.take(k)]
        1 <= k <= s.len() && is_form(s.take(k)) && is_forms(s.skip(k))
}

/// How a sequence of kinds ends when it is read from left to right.
pub enum Nesting {
    /// The token at this index is a `)` that closes nothing.
    Stray(nat),
    /// Every `)` closed something, and this many `(` are still open at the end.
    Open(nat),
}

impl Nesting {
    /// The same outcome for a sequence that has `by` more tokens in front.
    pub open spec fn shifted(self, by: nat) -> Nesting {
        match self {
            Nesting::Stray(i) => Nesting::Stray(i + by),
            Nesting::Open(n) => Nesting::Open(n),
        }
    }
}

/// The outcome of reading `s` with `open` parentheses already open in front of it.
pub open spec fn nesting(s: Seq<TokenType>, open: nat) -> Nesting
    decreases s.len(),
{
    if s.len() == 0 {
        Nesting::Open(open)
    } else if s[0] == TokenType::LParen {
        nesting(s.drop_first(), open + 1).shifted(1)
    } else if s[0] == TokenType::RParen {
        if open == 0 {
            Nesting::Stray(0)
        } else {
            nesting(s.drop_first(), (open - 1) as nat).shifted(1)
        }
    } else {
        nesting(s.drop_first(), open).shifted(1)
    }
}

/// Reading `a + b` is reading `a` and then, unless `a` holds a stray `)`, reading `b` with
/// what `a` left open.
pub proof fn lemma_nesting_concat(a: Seq<TokenType>, b: Seq<TokenType>, open: nat)
    ensures
        nesting(a + b, open) == match nesting(a, open) {
            Nesting::Stray(i) => Nesting::Stray(i),
            Nesting::Open(n) => nesting(b, n).shifted(a.len()),
        },
    decreases a.len(),
{
    if a.len() == 0 {
        assert(a + b =~= b);
    } else {
        assert((a + b).drop_first() =~= a.drop_first() + b);
        let next: nat = if a[0] == TokenType::LParen {
            open + 1
        } else if a[0] == TokenType::RParen {
            (open - 1) as nat
        } else {
            open
        };
        if !(a[0] == TokenType::RParen && open == 0) {
            lemma_nesting_concat(a.drop_first(), b, next);
        }
    }
}

/// With one more parenthesis open in front, a sequence without a stray `)` leaves one more
/// open at its end.
pub proof fn lemma_nesting_raise(s: Seq<TokenType>, open: nat)
    requires
        nesting(s, open) is Open,
    ensures
        nesting(s, open + 1) == Nesting::Open((nesting(s, open)->Open_0 + 1) as nat),
    decreases s.len(),
{
    if s.len() > 0 {
        if s[0] == TokenType::LParen {
            lemma_nesting_raise(s.drop_first(), open + 1);
        } else if s[0] == TokenType::RParen {
            lemma_nesting_raise(s.drop_first(), (open - 1) as nat);
        } else {
            lemma_nesting_raise(s.drop_first(), open);
        }
    }
}

/// What stands in front of the first stray `)` is balanced, and what follows it reads as
/// if it stood alone when that `)` closes a parenthesis opened before the sequence.
pub proof fn lemma_stray_close(s: Seq<TokenType>, j: nat)
    requires
        nesting(s, 0) == Nesting::Stray(j),
    ensures
        j < s.len(),
        s[j as int] == TokenType::RParen,
        nesting(s.take(j as int), 0) == Nesting::Open(0),
        nesting(s, 1) == nesting(s.skip(j as int + 1), 0).shifted(j + 1),
{
    lemma_stray_prefix(s, 0, j);
    let before = s.take(j as int);
    let close = seq![TokenType::RParen];
    let after = s.skip(j as int + 1);
    lemma_nesting_raise(before, 0);
    lemma_nesting_concat(before, close, 1);
    assert(nesting(close, 1) == Nesting::Open(0)) by {
        assert(close.drop_first() =~= Seq::<TokenType>::empty());
        reveal_with_fuel(nesting, 2);
    }
    lemma_nesting_concat(before + close, after, 1);
    assert(s =~= before + close + after);
}

proof fn lemma_stray_prefix(s: Seq<TokenType>, open: nat, j: nat)
    requires
        nesting(s, open) == Nesting::Stray(j),
    ensures
        j < s.len(),
        s[j as int] == TokenType::RParen,
        nesting(s.take(j as int), open) == Nesting::Open(0),
    decreases s.len(),
{
    if s[0] == TokenType::RParen && open == 0 {
        assert(s.take(0) =~= Seq::<TokenType>::empty());
    } else {
        let next: nat = if s[0] == TokenType::LParen {
            open + 1
        } else if s[0] == TokenType::RParen {
            (open - 1) as nat
        } else {
            open
        };
        let rest = s.drop_first();
        lemma_stray_prefix(rest, next, (j - 1) as nat);
        assert(s.take(j as int).drop_first() =~= rest.take(j - 1));
    }
}

/// A form is balanced.
pub proof fn lemma_form_is_balanced(s: Seq<TokenType>)
    requires
        is_form(s),
    ensures
        nesting(s, 0) == Nesting::Open(0),
    decreases s.len(), 0nat,
{
    if s.len() == 1 && is_atom_kind(s[0]) {
        reveal_with_fuel(nesting, 2);
        assert(s.drop_first().len() == 0);
    } else {
        let inner = s.subrange(1, s.len() - 1);
        let close = seq![TokenType::RParen];
        lemma_forms_are_balanced(inner);
        lemma_nesting_raise(inner, 0);
        lemma_nesting_concat(inner, close, 1);
        assert(nesting(close, 1) == Nesting::Open(0)) by {
            assert(close.drop_first() =~= Seq::<TokenType>::empty());
            reveal_with_fuel(nesting, 2);
        }
        assert(s.drop_first() =~= inner + close);
    }
}

/// A run of forms is balanced.
pub proof fn lemma_forms_are_balanced(s: Seq<TokenType>)
    requires
        is_forms(s),
    ensures
        nesting(s, 0) == Nesting::Open(0),
    decreases s.len(), 1nat,
{
    if s.len() > 0 {
        let k = choose|k: int|
            #![trigger s.take(k)]
            1 <= k <= s.len() && is_form(s.take(k)) && is_forms(s.skip(k));
        lemma_form_is_balanced(s.take(k));
        lemma_forms_are_balanced(s.skip(k));
        lemma_nesting_concat(s.take(k), s.skip(k), 0);
        assert(s =~= s.take(k) + s.skip(k));
    }
}

/// A balanced sequence is a run of forms.
pub proof fn lemma_balanced_is_forms(s: Seq<TokenType>)
    requires
        nesting(s, 0) == Nesting::Open(0),
    ensures
        is_forms(s),
    decreases s.len(),
{
    if s.len() > 0 {
        let rest = s.drop_first();
        if s[0] == TokenType::LParen {
            if nesting(rest, 0) is Open {
                lemma_nesting_raise(rest, 0);
            }
            let j = nesting(rest, 0)->Stray_0;
            lemma_stray_close(rest, j);
            let k: int = j as int + 2;
            lemma_balanced_is_forms(rest.take(j as int));
            assert(s.take(k).subrange(1, k - 1) =~= rest.take(j as int));
            assert(is_form(s.take(k)));
            assert(s.skip(k) =~= rest.skip(j as int + 1));
            lemma_balanced_is_forms(s.skip(k));
        } else {
            assert(is_form(s.take(1)));
            assert(s.skip(1) =~= rest);
            lemma_balanced_is_forms(rest);
        }
    }
}

/// Where the form that starts a sequence ends: the number of tokens it takes up. There is
/// none when the sequence is empty, starts with a `)`, or starts with a `(` that nothing
/// closes.
pub open spec fn form_end(s: Seq<TokenType>) -> Option<nat> {
    if s.len() == 0 || s[0] == TokenType::RParen {
        None
    } else if s[0] == TokenType::LParen {
        match nesting(s.skip(1), 0) {
            Nesting::Stray(j) => Some(j + 2),
            Nesting::Open(_) => None,
        }
    } else {
        Some(1)
    }
}

/// Reading on behind the form at the front is reading the whole sequence.
pub proof fn lemma_form_end_skips(s: Seq<TokenType>)
    requires
        form_end(s) is Some,
    ensures
        1 <= form_end(s)->0 <= s.len(),
        nesting(s, 0) == nesting(s.skip(form_end(s)->0 as int), 0).shifted(form_end(s)->0),
{
    if s[0] == TokenType::LParen {
        let rest = s.skip(1);
        let j = nesting(rest, 0)->Stray_0;
        lemma_stray_close(rest, j);
        assert(s.drop_first() =~= rest);
        assert(rest.skip(j as int + 1) =~= s.skip(j as int + 2));
    } else {
        assert(s.drop_first() =~= s.skip(1));
    }
}

/// A `(` that nothing closes stays open to the end.
pub proof fn lemma_unclosed_stays_open(s: Seq<TokenType>)
    requires
        s.len() > 0,
        s[0] == TokenType::LParen,
        form_end(s) is None,
    ensures
        nesting(s, 0) is Open,
        nesting(s, 0)->Open_0 >= 1,
{
    lemma_nesting_raise(s.skip(1), 0);
    assert(s.drop_first() =~= s.skip(1));
}

/// [`form_end`] finds the one prefix that is a form: no form is the start of a longer one.
pub proof fn lemma_form_end_is_the_form(s: Seq<TokenType>, n: int)
    ensures
        form_end(s) == Some(n as nat) && 0 <= n <==> 1 <= n <= s.len() && is_form(s.take(n)),
{
    if form_end(s) == Some(n as nat) && 0 <= n {
        lemma_form_end_skips(s);
        if s[0] == TokenType::LParen {
            let rest = s.skip(1);
            let j = nesting(rest, 0)->Stray_0;
            lemma_stray_close(rest, j);
            lemma_balanced_is_forms(rest.take(j as int));
            assert(s.take(n).subrange(1, n - 1) =~= rest.take(j as int));
        }
    }
    if 1 <= n <= s.len() && is_form(s.take(n)) {
        let form = s.take(n);
        if !(form.len() == 1 && is_atom_kind(form[0])) {
            let inner = form.subrange(1, n - 1);
            let rest = s.skip(1);
            lemma_forms_are_balanced(inner);
            lemma_nesting_concat(inner, rest.skip(n - 2), 0);
            assert(rest =~= inner + rest.skip(n - 2));
            assert(rest.skip(n - 2)[0] == TokenType::RParen);
        }
    }
}

/// The grammar and the count of parentheses agree: a sequence of kinds is a program
/// exactly when no `)` is stray and no `(` stays open.
pub proof fn lemma_forms_iff_balanced(s: Seq<TokenType>)
    ensures
        is_forms(s) <==> nesting(s, 0) == Nesting::Open(0),
{
    if is_forms(s) {
        lemma_forms_are_balanced(s);
    }
    if nesting(s, 0) == Nesting::Open(0) {
        lemma_balanced_is_forms(s);
    }
}

/// `n` closing parentheses.
pub open spec fn closing(n: nat) -> Seq<TokenType> {
    Seq::new(n, |i: int| TokenType::RParen)
}

/// A stray `)` is where the sequence stops being the start of a program: what stands in
/// front of it is a program, and nothing that follows it can mend it.
pub proof fn lemma_stray_cannot_be_mended(s: Seq<TokenType>, i: nat, more: Seq<TokenType>)
    requires
        nesting(s, 0) == Nesting::Stray(i),
    ensures
        is_forms(s.take(i as int)),
        !is_forms(s.take(i as int + 1) + more),
{
    lemma_stray_close(s, i);
    lemma_balanced_is_forms(s.take(i as int));
    let upto = s.take(i as int + 1);
    lemma_nesting_concat(s.take(i as int), seq![TokenType::RParen], 0);
    assert(upto =~= s.take(i as int) + seq![TokenType::RParen]);
    assert(nesting(seq![TokenType::RParen], 0) == Nesting::Stray(0));
    lemma_nesting_concat(upto, more, 0);
    lemma_forms_iff_balanced(upto + more);
}

/// A sequence without a stray `)` is the start of a program: closing what it leaves open
/// completes it. It is a program itself only when it leaves nothing open.
pub proof fn lemma_open_can_be_closed(s: Seq<TokenType>, open: nat)
    requires
        nesting(s, 0) == Nesting::Open(open),
    ensures
        is_forms(s + closing(open)),
        is_forms(s) <==> open == 0,
{
    lemma_all_closed(open);
    lemma_nesting_concat(s, closing(open), 0);
    lemma_forms_iff_balanced(s + closing(open));
    lemma_forms_iff_balanced(s);
}

proof fn lemma_all_closed(open: nat)
    ensures
        nesting(closing(open), open) == Nesting::Open(0),
    decreases open,
{
    if open > 0 {
        lemma_all_closed((open - 1) as nat);
        assert(closing(open).drop_first() =~= closing((open - 1) as nat));
    }
}

} // verus!
