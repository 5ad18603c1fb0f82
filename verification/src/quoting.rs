//! The fixed pieces of the code that is written: paths, calls and the words
//! they are made of.

use crate::scope::{in_scope, is_plain};
use crate::tokens::{is_word, push_group, push_punct, push_word, stream_tokens, Delim, Token};
use proc_macro2::TokenStream;
use vstd::prelude::*;

verus! {

/// The path separator `::`.
pub open spec fn path_sep() -> Seq<Token> {
    seq![Token::Punct(':', true), Token::Punct(':', false)]
}

/// The path of an item that the written code imports:
/// `structdump_import::<name>`.
pub open spec fn imported(name: Seq<char>) -> Seq<Token> {
    seq![Token::Ident("structdump_import"@)] + path_sep() + seq![Token::Ident(name)]
}

/// One group in round brackets.
pub open spec fn parenthesized(inner: Seq<Token>) -> Seq<Token> {
    seq![Token::Group(Delim::Parenthesis, inner)]
}

/// The import path is a word that names no binding.
pub proof fn lemma_import_word()
    ensures
        is_word("structdump_import"@),
        is_plain("structdump_import"@),
{
    reveal_strlit("structdump_import");
}

/// An imported path names what its last word names.
pub proof fn lemma_imported_scope(name: Seq<char>, n: nat)
    requires
        is_plain(name),
    ensures
        in_scope(imported(name), n),
{
    broadcast use crate::scope::group_scope;

    lemma_import_word();
}

/// Writes `::`.
pub(crate) fn push_path_sep(ts: &mut TokenStream)
    ensures
        stream_tokens(*final(ts)) == stream_tokens(*old(ts)) + path_sep(),
{
    push_punct(ts, ':', true);
    push_punct(ts, ':', false);
    assert(stream_tokens(*ts) =~= stream_tokens(*old(ts)) + path_sep());
}

/// Writes `structdump_import::<name>`.
pub(crate) fn push_imported(ts: &mut TokenStream, name: &str)
    requires
        is_word(name@),
    ensures
        stream_tokens(*final(ts)) == stream_tokens(*old(ts)) + imported(name@),
{
    proof {
        lemma_import_word();
    }
    push_word(ts, "structdump_import");
    push_path_sep(ts);
    push_word(ts, name);
    assert(stream_tokens(*ts) =~= stream_tokens(*old(ts)) + imported(name@));
}

/// Writes `( <inner> )`.
pub(crate) fn push_parenthesized(ts: &mut TokenStream, inner: TokenStream)
    ensures
        stream_tokens(*final(ts)) == stream_tokens(*old(ts)) + parenthesized(stream_tokens(inner)),
{
    push_group(ts, Delim::Parenthesis, inner);
    assert(stream_tokens(*ts) =~= stream_tokens(*old(ts)) + parenthesized(stream_tokens(inner)));
}

} // verus!
