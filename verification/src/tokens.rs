//! The token model, and the calls into `proc_macro2` and `quote`.
//!
//! Verus sees a `proc_macro2::TokenStream` as an opaque value. What it holds is
//! named by [`stream_tokens`], a sequence of [`Token`]s, and every function in
//! this module that touches a stream says what it does to that sequence. The
//! functions marked `external_body` are the only places where the two outside
//! crates are called; their contracts are taken from the sources of
//! `proc_macro2` and of `quote`, and are not proved. They describe the token
//! implementation of `proc_macro2` itself, which is the one in use outside of
//! a procedural macro, and the only one when `proc_macro2` is built without
//! its `proc-macro` feature, as this crate asks for it.

use proc_macro2::{Ident, TokenStream};
use vstd::prelude::*;

verus! {

/// `proc_macro2::TokenStream`, carried through as an opaque value.
#[verifier::external_type_specification]
#[verifier::external_body]
pub struct ExTokenStream(proc_macro2::TokenStream);

/// `proc_macro2::Ident`, carried through as an opaque value.
#[verifier::external_type_specification]
#[verifier::external_body]
pub struct ExIdent(proc_macro2::Ident);

/// The brackets around a group of tokens.
#[derive(Clone, Copy, Debug)]
pub enum Delim {
    /// `( ... )`
    Parenthesis,
    /// `{ ... }`
    Brace,
    /// `[ ... ]`
    Bracket,
    /// No brackets at all.
    Invisible,
}

/// One token tree, without its span.
pub enum Token {
    /// A word, given by the text it prints as.
    Ident(Seq<char>),
    /// One punctuation character; the flag says that it is joined to the
    /// punctuation that follows it, as the first `:` of `::` is.
    Punct(char, bool),
    /// A literal, given by its source text.
    Literal(Seq<char>),
    /// A bracketed stream.
    Group(Delim, Seq<Token>),
}

/// The tokens that a stream holds, in order.
pub uninterp spec fn stream_tokens(ts: TokenStream) -> Seq<Token>;

/// The text that an identifier prints as.
pub uninterp spec fn ident_text(id: Ident) -> Seq<char>;

/// The text that `proc_macro2` prints for a sequence of tokens.
pub uninterp spec fn token_text(tokens: Seq<Token>) -> Seq<char>;

/// The source text of the string literal that `proc_macro2` writes for a
/// string: the string in double quotes, with its escapes.
pub uninterp spec fn str_literal_text(s: Seq<char>) -> Seq<char>;

/// A letter of the ASCII alphabet, or `_`.
pub open spec fn is_word_start(c: char) -> bool {
    ('a' <= c && c <= 'z') || ('A' <= c && c <= 'Z') || c == '_'
}

/// A character that may follow the first one of a word.
pub open spec fn is_word_char(c: char) -> bool {
    is_word_start(c) || ('0' <= c && c <= '9')
}

/// A non-empty ASCII word that does not start with a digit. Every such text
/// is accepted as an identifier.
pub open spec fn is_word(s: Seq<char>) -> bool {
    &&& s.len() > 0
    &&& is_word_start(s[0])
    &&& forall|i: int| 0 < i < s.len() ==> is_word_char(#[trigger] s[i])
}

/// The characters that can stand as one punctuation token.
pub open spec fn is_punct_char(c: char) -> bool {
    c == '!' || c == '#' || c == '$' || c == '%' || c == '&' || c == '\'' || c == '*' || c == '+'
        || c == ',' || c == '-' || c == '.' || c == '/' || c == ':' || c == ';' || c == '<' || c
        == '=' || c == '>' || c == '?' || c == '@' || c == '^' || c == '|' || c == '~'
}

/// The ten decimal digits.
pub open spec fn decimal_digits() -> Seq<char> {
    seq!['0', '1', '2', '3', '4', '5', '6', '7', '8', '9']
}

/// A natural number in decimal, without leading zeros.
pub open spec fn decimal_text(n: nat) -> Seq<char>
    decreases n,
{
    if n < 10 {
        seq![decimal_digits()[n as int]]
    } else {
        decimal_text(n / 10).push(decimal_digits()[(n % 10) as int])
    }
}

/// The tokens of an integer literal with a type suffix. A negative number is
/// a `-` followed by the literal of its absolute value.
pub open spec fn int_literal(v: int, suffix: Seq<char>) -> Seq<Token> {
    if v < 0 {
        seq![Token::Punct('-', false), Token::Literal(decimal_text((-v) as nat) + suffix)]
    } else {
        seq![Token::Literal(decimal_text(v as nat) + suffix)]
    }
}

/// `TokenStream::new`: a stream without tokens.
#[verifier::external_body]
pub(crate) fn new_stream() -> (ts: TokenStream)
    ensures
        stream_tokens(ts) == Seq::<Token>::empty(),
{
    TokenStream::new()
}

/// `Ident::new`, appended with `TokenStreamExt::append`: one more identifier
/// at the end of the stream. `Ident::new` panics on a text that is no
/// identifier; an ASCII word always is one.
#[verifier::external_body]
pub(crate) fn push_word(ts: &mut TokenStream, word: &str)
    requires
        is_word(word@),
    ensures
        stream_tokens(*final(ts)) == stream_tokens(*old(ts)).push(Token::Ident(word@)),
{
    quote::TokenStreamExt::append(ts, Ident::new(word, proc_macro2::Span::call_site()));
}

/// `ToTokens::to_tokens` of an `Ident`: a copy of the identifier at the end of
/// the stream.
#[verifier::external_body]
pub(crate) fn push_ident(ts: &mut TokenStream, id: &Ident)
    ensures
        stream_tokens(*final(ts)) == stream_tokens(*old(ts)).push(Token::Ident(ident_text(*id))),
{
    quote::ToTokens::to_tokens(id, ts);
}

/// `Punct::new`, appended with `TokenStreamExt::append`: one more punctuation
/// character at the end of the stream. `Punct::new` panics on a character
/// outside of `is_punct_char`.
#[verifier::external_body]
pub(crate) fn push_punct(ts: &mut TokenStream, c: char, joint: bool)
    requires
        is_punct_char(c),
    ensures
        stream_tokens(*final(ts)) == stream_tokens(*old(ts)).push(Token::Punct(c, joint)),
{
    let spacing = if joint {
        proc_macro2::Spacing::Joint
    } else {
        proc_macro2::Spacing::Alone
    };
    quote::TokenStreamExt::append(ts, proc_macro2::Punct::new(c, spacing));
}

/// `Group::new`, appended with `TokenStreamExt::append`: the inner stream, in
/// brackets, as one more token at the end of the stream.
#[verifier::external_body]
pub(crate) fn push_group(ts: &mut TokenStream, delim: Delim, inner: TokenStream)
    ensures
        stream_tokens(*final(ts)) == stream_tokens(*old(ts)).push(
            Token::Group(delim, stream_tokens(inner)),
        ),
{
    let delimiter = match delim {
        Delim::Parenthesis => proc_macro2::Delimiter::Parenthesis,
        Delim::Brace => proc_macro2::Delimiter::Brace,
        Delim::Bracket => proc_macro2::Delimiter::Bracket,
        Delim::Invisible => proc_macro2::Delimiter::None,
    };
    quote::TokenStreamExt::append(ts, proc_macro2::Group::new(delimiter, inner));
}

/// `ToTokens::to_tokens` of a `TokenStream`: the tokens of `other`, in their
/// order, at the end of the stream.
#[verifier::external_body]
pub(crate) fn push_stream(ts: &mut TokenStream, other: &TokenStream)
    ensures
        stream_tokens(*final(ts)) == stream_tokens(*old(ts)) + stream_tokens(*other),
{
    quote::ToTokens::to_tokens(other, ts);
}

/// `ToTokens::to_tokens` of a `str`: the string as one string literal at the
/// end of the stream.
#[verifier::external_body]
pub(crate) fn push_str_literal(ts: &mut TokenStream, s: &str)
    ensures
        stream_tokens(*final(ts)) == stream_tokens(*old(ts)).push(
            Token::Literal(str_literal_text(s@)),
        ),
{
    quote::ToTokens::to_tokens(s, ts);
}

/// `ToTokens::to_tokens` of an `u8`, which appends `Literal::u8_suffixed`:
/// the number in decimal with the suffix `u8`, at the end of the stream.
#[verifier::external_body]
pub(crate) fn push_u8(ts: &mut TokenStream, v: u8)
    ensures
        stream_tokens(*final(ts)) == stream_tokens(*old(ts)) + int_literal(v as int, "u8"@),
{
    quote::ToTokens::to_tokens(&v, ts);
}

/// `ToTokens::to_tokens` of an `u16`, which appends `Literal::u16_suffixed`:
/// the number in decimal with the suffix `u16`, at the end of the stream.
#[verifier::external_body]
pub(crate) fn push_u16(ts: &mut TokenStream, v: u16)
    ensures
        stream_tokens(*final(ts)) == stream_tokens(*old(ts)) + int_literal(v as int, "u16"@),
{
    quote::ToTokens::to_tokens(&v, ts);
}

/// `ToTokens::to_tokens` of an `u32`, which appends `Literal::u32_suffixed`:
/// the number in decimal with the suffix `u32`, at the end of the stream.
#[verifier::external_body]
pub(crate) fn push_u32(ts: &mut TokenStream, v: u32)
    ensures
        stream_tokens(*final(ts)) == stream_tokens(*old(ts)) + int_literal(v as int, "u32"@),
{
    quote::ToTokens::to_tokens(&v, ts);
}

/// `ToTokens::to_tokens` of an `u64`, which appends `Literal::u64_suffixed`:
/// the number in decimal with the suffix `u64`, at the end of the stream.
#[verifier::external_body]
pub(crate) fn push_u64(ts: &mut TokenStream, v: u64)
    ensures
        stream_tokens(*final(ts)) == stream_tokens(*old(ts)) + int_literal(v as int, "u64"@),
{
    quote::ToTokens::to_tokens(&v, ts);
}

/// `ToTokens::to_tokens` of an `u128`, which appends `Literal::u128_suffixed`:
/// the number in decimal with the suffix `u128`, at the end of the stream.
#[verifier::external_body]
pub(crate) fn push_u128(ts: &mut TokenStream, v: u128)
    ensures
        stream_tokens(*final(ts)) == stream_tokens(*old(ts)) + int_literal(v as int, "u128"@),
{
    quote::ToTokens::to_tokens(&v, ts);
}

/// `ToTokens::to_tokens` of an `usize`, which appends `Literal::usize_suffixed`:
/// the number in decimal with the suffix `usize`, at the end of the stream.
#[verifier::external_body]
pub(crate) fn push_usize(ts: &mut TokenStream, v: usize)
    ensures
        stream_tokens(*final(ts)) == stream_tokens(*old(ts)) + int_literal(v as int, "usize"@),
{
    quote::ToTokens::to_tokens(&v, ts);
}

/// `ToTokens::to_tokens` of an `i8`, which appends `Literal::i8_suffixed`:
/// the number in decimal with the suffix `i8`, at the end of the stream.
#[verifier::external_body]
pub(crate) fn push_i8(ts: &mut TokenStream, v: i8)
    ensures
        stream_tokens(*final(ts)) == stream_tokens(*old(ts)) + int_literal(v as int, "i8"@),
{
    quote::ToTokens::to_tokens(&v, ts);
}

/// `ToTokens::to_tokens` of an `i16`, which appends `Literal::i16_suffixed`:
/// the number in decimal with the suffix `i16`, at the end of the stream.
#[verifier::external_body]
pub(crate) fn push_i16(ts: &mut TokenStream, v: i16)
    ensures
        stream_tokens(*final(ts)) == stream_tokens(*old(ts)) + int_literal(v as int, "i16"@),
{
    quote::ToTokens::to_tokens(&v, ts);
}

/// `ToTokens::to_tokens` of an `i32`, which appends `Literal::i32_suffixed`:
/// the number in decimal with the suffix `i32`, at the end of the stream.
#[verifier::external_body]
pub(crate) fn push_i32(ts: &mut TokenStream, v: i32)
    ensures
        stream_tokens(*final(ts)) == stream_tokens(*old(ts)) + int_literal(v as int, "i32"@),
{
    quote::ToTokens::to_tokens(&v, ts);
}

/// `ToTokens::to_tokens` of an `i64`, which appends `Literal::i64_suffixed`:
/// the number in decimal with the suffix `i64`, at the end of the stream.
#[verifier::external_body]
pub(crate) fn push_i64(ts: &mut TokenStream, v: i64)
    ensures
        stream_tokens(*final(ts)) == stream_tokens(*old(ts)) + int_literal(v as int, "i64"@),
{
    quote::ToTokens::to_tokens(&v, ts);
}

/// `ToTokens::to_tokens` of an `i128`, which appends `Literal::i128_suffixed`:
/// the number in decimal with the suffix `i128`, at the end of the stream.
#[verifier::external_body]
pub(crate) fn push_i128(ts: &mut TokenStream, v: i128)
    ensures
        stream_tokens(*final(ts)) == stream_tokens(*old(ts)) + int_literal(v as int, "i128"@),
{
    quote::ToTokens::to_tokens(&v, ts);
}

/// `ToTokens::to_tokens` of an `isize`, which appends `Literal::isize_suffixed`:
/// the number in decimal with the suffix `isize`, at the end of the stream.
#[verifier::external_body]
pub(crate) fn push_isize(ts: &mut TokenStream, v: isize)
    ensures
        stream_tokens(*final(ts)) == stream_tokens(*old(ts)) + int_literal(v as int, "isize"@),
{
    quote::ToTokens::to_tokens(&v, ts);
}

/// `ToString::to_string` of an `Ident`: the text that the identifier prints
/// as.
#[verifier::external_body]
pub(crate) fn ident_string(id: &Ident) -> (text: String)
    ensures
        text@ == ident_text(*id),
{
    id.to_string()
}

/// `ToString::to_string` of a `TokenStream`: the text of its tokens.
#[verifier::external_body]
pub(crate) fn stream_text(ts: &TokenStream) -> (text: String)
    ensures
        text@ == token_text(stream_tokens(*ts)),
{
    ts.to_string()
}

} // verus!
