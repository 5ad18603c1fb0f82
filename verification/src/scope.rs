//! Which bindings a piece of code may name.
//!
//! Code refers to a binding by the binding's name, as an identifier. Code is
//! in scope of `n` when every binding that it names has a number below `n`:
//! such code can stand behind the first `n` bindings of a block.

use crate::naming::{binding_name, binding_prefix};
use crate::tokens::Token;
use vstd::prelude::*;

verus! {

/// Whether a token, and every token inside it, names no binding but those
/// numbered below `n`.
pub open spec fn token_in_scope(t: Token, n: nat) -> bool
    decreases t,
{
    match t {
        Token::Ident(text) => forall|k: nat| text == #[trigger] binding_name(k) ==> k < n,
        Token::Group(_, inner) => forall|i: int|
            0 <= i < inner.len() ==> token_in_scope(#[trigger] inner[i], n),
        _ => true,
    }
}

/// Whether a sequence of tokens names no binding but those numbered below
/// `n`.
pub open spec fn in_scope(tokens: Seq<Token>, n: nat) -> bool {
    forall|i: int| 0 <= i < tokens.len() ==> token_in_scope(#[trigger] tokens[i], n)
}

/// A type annotation is in scope when it is absent or its tokens are.
pub open spec fn ty_in_scope(ty: Option<Seq<Token>>, n: nat) -> bool {
    match ty {
        Some(tokens) => in_scope(tokens, n),
        None => true,
    }
}

/// A token that is in scope of `n` is in scope of every larger number.
pub proof fn lemma_token_scope_grows(t: Token, n: nat, m: nat)
    requires
        token_in_scope(t, n),
        n <= m,
    ensures
        token_in_scope(t, m),
    decreases t,
{
    match t {
        Token::Group(_, inner) => {
            assert forall|i: int| 0 <= i < inner.len() implies token_in_scope(
                #[trigger] inner[i],
                m,
            ) by {
                lemma_token_scope_grows(inner[i], n, m);
            }
        },
        _ => {},
    }
}

/// Tokens that are in scope of `n` are in scope of every larger number.
pub proof fn lemma_scope_grows(tokens: Seq<Token>, n: nat, m: nat)
    requires
        in_scope(tokens, n),
        n <= m,
    ensures
        in_scope(tokens, m),
{
    assert forall|i: int| 0 <= i < tokens.len() implies token_in_scope(#[trigger] tokens[i], m) by {
        lemma_token_scope_grows(tokens[i], n, m);
    }
}

/// Two sequences are in scope exactly when the one followed by the other is.
pub broadcast proof fn lemma_scope_concat(a: Seq<Token>, b: Seq<Token>, n: nat)
    ensures
        #[trigger] in_scope(a + b, n) <==> in_scope(a, n) && in_scope(b, n),
{
    let ab = a + b;
    if in_scope(ab, n) {
        assert forall|i: int| 0 <= i < a.len() implies token_in_scope(#[trigger] a[i], n) by {
            assert(ab[i] == a[i]);
        }
        assert forall|i: int| 0 <= i < b.len() implies token_in_scope(#[trigger] b[i], n) by {
            assert(ab[a.len() + i] == b[i]);
        }
    }
    if in_scope(a, n) && in_scope(b, n) {
        assert forall|i: int| 0 <= i < ab.len() implies token_in_scope(#[trigger] ab[i], n) by {
            if i < a.len() {
                assert(ab[i] == a[i]);
            } else {
                assert(ab[i] == b[i - a.len()]);
            }
        }
    }
}

/// A sequence with one more token is in scope exactly when the sequence and
/// the token are.
pub broadcast proof fn lemma_scope_push(a: Seq<Token>, t: Token, n: nat)
    ensures
        #[trigger] in_scope(a.push(t), n) <==> in_scope(a, n) && token_in_scope(t, n),
{
    assert(a.push(t) =~= a + seq![t]);
    lemma_scope_concat(a, seq![t], n);
    if in_scope(seq![t], n) {
        assert(seq![t][0] == t);
    }
}

/// A group is in scope exactly when the tokens in it are.
pub broadcast proof fn lemma_scope_group(delim: crate::tokens::Delim, inner: Seq<Token>, n: nat)
    ensures
        #[trigger] token_in_scope(Token::Group(delim, inner), n) <==> in_scope(inner, n),
{
    let group = Token::Group(delim, inner);
    if token_in_scope(group, n) {
        assert forall|i: int| 0 <= i < inner.len() implies token_in_scope(#[trigger] inner[i], n) by {
            assert(group->Group_1[i] == inner[i]);
        }
    }
    if in_scope(inner, n) {
        assert forall|i: int| 0 <= i < group->Group_1.len() implies token_in_scope(
            #[trigger] group->Group_1[i],
            n,
        ) by {
            assert(token_in_scope(inner[i], n));
        }
    }
}

/// A word that no binding is named by: it differs from every binding's name
/// in its first or in its fifth character.
pub open spec fn is_plain(word: Seq<char>) -> bool {
    (word.len() > 0 && word[0] != 'c') || (word.len() > 4 && word[4] != '_')
}

/// A plain word names no binding.
pub broadcast proof fn lemma_plain_word(word: Seq<char>, n: nat)
    requires
        is_plain(word),
    ensures
        #[trigger] token_in_scope(Token::Ident(word), n),
{
    assert forall|k: nat| word == #[trigger] binding_name(k) implies k < n by {
        assert(binding_name(k)[0] == binding_prefix()[0]);
        assert(binding_name(k)[4] == binding_prefix()[4]);
    }
}

/// No tokens name no binding.
pub broadcast proof fn lemma_scope_empty(n: nat)
    ensures
        #[trigger] in_scope(Seq::<Token>::empty(), n),
{
}

/// The name of a binding is in scope exactly of the numbers above the
/// binding's own.
pub proof fn lemma_binding_name_scope(id: nat, n: nat)
    ensures
        token_in_scope(Token::Ident(binding_name(id)), n) <==> id < n,
{
    if id < n {
        assert forall|k: nat| binding_name(id) == #[trigger] binding_name(k) implies k < n by {
            crate::naming::lemma_binding_name_injective(id, k);
        }
    }
}

pub broadcast group group_scope {
    lemma_scope_concat,
    lemma_scope_push,
    lemma_scope_group,
    lemma_scope_empty,
    lemma_plain_word,
}

} // verus!
