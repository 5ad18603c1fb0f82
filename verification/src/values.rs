//! How the values of the standard library are emitted.

use crate::quoting::{
    imported, lemma_imported_scope, parenthesized, path_sep, push_imported, push_parenthesized,
    push_path_sep,
};
use crate::scope::{in_scope, is_plain};
use crate::session::{interned, lemma_interned, scoped, Binding, Codegen, CodegenResult, Emitted};
use crate::tokens::{
    int_literal, new_stream, push_i128, push_i16, push_i32, push_i64, push_i8, push_isize,
    push_punct, push_str_literal, push_u128, push_u16, push_u32, push_u64, push_u8, push_usize,
    push_word, str_literal_text, stream_tokens, Token,
};
use proc_macro2::TokenStream;
use vstd::prelude::*;

verus! {

broadcast use crate::scope::group_scope;

/// A reference is emitted as what it points to.
impl<'a, T: Codegen> Codegen for &'a T {
    open spec fn emitted(&self, before: Seq<Binding>, unique: bool) -> Emitted {
        (**self).emitted(before, unique)
    }

    fn gen_code(&self, res: &mut CodegenResult, unique: bool) -> (code: TokenStream) {
        (*self).gen_code(res, unique)
    }
}

/// The literal `true` or `false`.
pub open spec fn bool_code(b: bool) -> Seq<Token> {
    if b {
        seq![Token::Ident("true"@)]
    } else {
        seq![Token::Ident("false"@)]
    }
}

/// A boolean is written in place and never bound.
impl Codegen for bool {
    open spec fn emitted(&self, before: Seq<Binding>, unique: bool) -> Emitted {
        Emitted { code: bool_code(*self), bindings: before }
    }

    fn gen_code(&self, res: &mut CodegenResult, unique: bool) -> (code: TokenStream) {
        proof {
            reveal_strlit("true");
            reveal_strlit("false");
            assert(is_plain("true"@));
            assert(is_plain("false"@));
        }
        let mut code = new_stream();
        if *self {
            push_word(&mut code, "true");
        } else {
            push_word(&mut code, "false");
        }
        code
    }
}

/// The literal of an integer names no binding.
proof fn lemma_int_literal_scope(v: int, suffix: Seq<char>, n: nat)
    ensures
        in_scope(int_literal(v, suffix), n),
{
}

/// An `u8` is a literal with its type as suffix, written in place and never
/// bound.
impl Codegen for u8 {
    open spec fn emitted(&self, before: Seq<Binding>, unique: bool) -> Emitted {
        Emitted { code: int_literal(*self as int, "u8"@), bindings: before }
    }

    fn gen_code(&self, res: &mut CodegenResult, unique: bool) -> (code: TokenStream) {
        proof {
            lemma_int_literal_scope(*self as int, "u8"@, res@.len());
        }
        let mut code = new_stream();
        push_u8(&mut code, *self);
        code
    }
}

/// An `u16` is a literal with its type as suffix, written in place and never
/// bound.
impl Codegen for u16 {
    open spec fn emitted(&self, before: Seq<Binding>, unique: bool) -> Emitted {
        Emitted { code: int_literal(*self as int, "u16"@), bindings: before }
    }

    fn gen_code(&self, res: &mut CodegenResult, unique: bool) -> (code: TokenStream) {
        proof {
            lemma_int_literal_scope(*self as int, "u16"@, res@.len());
        }
        let mut code = new_stream();
        push_u16(&mut code, *self);
        code
    }
}

/// An `u32` is a literal with its type as suffix, written in place and never
/// bound.
impl Codegen for u32 {
    open spec fn emitted(&self, before: Seq<Binding>, unique: bool) -> Emitted {
        Emitted { code: int_literal(*self as int, "u32"@), bindings: before }
    }

    fn gen_code(&self, res: &mut CodegenResult, unique: bool) -> (code: TokenStream) {
        proof {
            lemma_int_literal_scope(*self as int, "u32"@, res@.len());
        }
        let mut code = new_stream();
        push_u32(&mut code, *self);
        code
    }
}

/// An `u64` is a literal with its type as suffix, written in place and never
/// bound.
impl Codegen for u64 {
    open spec fn emitted(&self, before: Seq<Binding>, unique: bool) -> Emitted {
        Emitted { code: int_literal(*self as int, "u64"@), bindings: before }
    }

    fn gen_code(&self, res: &mut CodegenResult, unique: bool) -> (code: TokenStream) {
        proof {
            lemma_int_literal_scope(*self as int, "u64"@, res@.len());
        }
        let mut code = new_stream();
        push_u64(&mut code, *self);
        code
    }
}

/// An `u128` is a literal with its type as suffix, written in place and never
/// bound.
impl Codegen for u128 {
    open spec fn emitted(&self, before: Seq<Binding>, unique: bool) -> Emitted {
        Emitted { code: int_literal(*self as int, "u128"@), bindings: before }
    }

    fn gen_code(&self, res: &mut CodegenResult, unique: bool) -> (code: TokenStream) {
        proof {
            lemma_int_literal_scope(*self as int, "u128"@, res@.len());
        }
        let mut code = new_stream();
        push_u128(&mut code, *self);
        code
    }
}

/// An `usize` is a literal with its type as suffix, written in place and never
/// bound.
impl Codegen for usize {
    open spec fn emitted(&self, before: Seq<Binding>, unique: bool) -> Emitted {
        Emitted { code: int_literal(*self as int, "usize"@), bindings: before }
    }

    fn gen_code(&self, res: &mut CodegenResult, unique: bool) -> (code: TokenStream) {
        proof {
            lemma_int_literal_scope(*self as int, "usize"@, res@.len());
        }
        let mut code = new_stream();
        push_usize(&mut code, *self);
        code
    }
}

/// An `i8` is a literal with its type as suffix, written in place and never
/// bound.
impl Codegen for i8 {
    open spec fn emitted(&self, before: Seq<Binding>, unique: bool) -> Emitted {
        Emitted { code: int_literal(*self as int, "i8"@), bindings: before }
    }

    fn gen_code(&self, res: &mut CodegenResult, unique: bool) -> (code: TokenStream) {
        proof {
            lemma_int_literal_scope(*self as int, "i8"@, res@.len());
        }
        let mut code = new_stream();
        push_i8(&mut code, *self);
        code
    }
}

/// An `i16` is a literal with its type as suffix, written in place and never
/// bound.
impl Codegen for i16 {
    open spec fn emitted(&self, before: Seq<Binding>, unique: bool) -> Emitted {
        Emitted { code: int_literal(*self as int, "i16"@), bindings: before }
    }

    fn gen_code(&self, res: &mut CodegenResult, unique: bool) -> (code: TokenStream) {
        proof {
            lemma_int_literal_scope(*self as int, "i16"@, res@.len());
        }
        let mut code = new_stream();
        push_i16(&mut code, *self);
        code
    }
}

/// An `i32` is a literal with its type as suffix, written in place and never
/// bound.
impl Codegen for i32 {
    open spec fn emitted(&self, before: Seq<Binding>, unique: bool) -> Emitted {
        Emitted { code: int_literal(*self as int, "i32"@), bindings: before }
    }

    fn gen_code(&self, res: &mut CodegenResult, unique: bool) -> (code: TokenStream) {
        proof {
            lemma_int_literal_scope(*self as int, "i32"@, res@.len());
        }
        let mut code = new_stream();
        push_i32(&mut code, *self);
        code
    }
}

/// An `i64` is a literal with its type as suffix, written in place and never
/// bound.
impl Codegen for i64 {
    open spec fn emitted(&self, before: Seq<Binding>, unique: bool) -> Emitted {
        Emitted { code: int_literal(*self as int, "i64"@), bindings: before }
    }

    fn gen_code(&self, res: &mut CodegenResult, unique: bool) -> (code: TokenStream) {
        proof {
            lemma_int_literal_scope(*self as int, "i64"@, res@.len());
        }
        let mut code = new_stream();
        push_i64(&mut code, *self);
        code
    }
}

/// An `i128` is a literal with its type as suffix, written in place and never
/// bound.
impl Codegen for i128 {
    open spec fn emitted(&self, before: Seq<Binding>, unique: bool) -> Emitted {
        Emitted { code: int_literal(*self as int, "i128"@), bindings: before }
    }

    fn gen_code(&self, res: &mut CodegenResult, unique: bool) -> (code: TokenStream) {
        proof {
            lemma_int_literal_scope(*self as int, "i128"@, res@.len());
        }
        let mut code = new_stream();
        push_i128(&mut code, *self);
        code
    }
}

/// An `isize` is a literal with its type as suffix, written in place and never
/// bound.
impl Codegen for isize {
    open spec fn emitted(&self, before: Seq<Binding>, unique: bool) -> Emitted {
        Emitted { code: int_literal(*self as int, "isize"@), bindings: before }
    }

    fn gen_code(&self, res: &mut CodegenResult, unique: bool) -> (code: TokenStream) {
        proof {
            lemma_int_literal_scope(*self as int, "isize"@, res@.len());
        }
        let mut code = new_stream();
        push_isize(&mut code, *self);
        code
    }
}

/// The literal of a text: the text in double quotes.
pub open spec fn str_code(s: Seq<char>) -> Seq<Token> {
    seq![Token::Literal(str_literal_text(s))]
}

/// The type of a text literal: `&'static str`.
pub open spec fn str_type() -> Seq<Token> {
    seq![
        Token::Punct('&', false),
        Token::Punct('\'', true),
        Token::Ident("static"@),
        Token::Ident("str"@),
    ]
}

/// Writes the literal of a text.
pub(crate) fn str_tokens(s: &str) -> (code: TokenStream)
    ensures
        stream_tokens(code) == str_code(s@),
{
    let mut code = new_stream();
    push_str_literal(&mut code, s);
    code
}

/// Writes `&'static str`.
fn str_type_tokens() -> (ty: TokenStream)
    ensures
        stream_tokens(ty) == str_type(),
{
    proof {
        reveal_strlit("static");
        reveal_strlit("str");
    }
    let mut ty = new_stream();
    push_punct(&mut ty, '&', false);
    push_punct(&mut ty, '\'', true);
    push_word(&mut ty, "static");
    push_word(&mut ty, "str");
    ty
}

/// The literal of a text and its type name no binding.
pub proof fn lemma_str_scope(s: Seq<char>, n: nat)
    ensures
        in_scope(str_code(s), n),
        in_scope(str_type(), n),
{
    reveal_strlit("static");
    reveal_strlit("str");
    assert(is_plain("static"@));
    assert(is_plain("str"@));
}

/// A text is a literal, offered to the cache: equal texts share one binding.
impl<'a> Codegen for &'a str {
    open spec fn emitted(&self, before: Seq<Binding>, unique: bool) -> Emitted {
        interned(before, str_code(self@), Some(str_type()), unique)
    }

    fn gen_code(&self, res: &mut CodegenResult, unique: bool) -> (code: TokenStream) {
        proof {
            lemma_str_scope(self@, res@.len());
            lemma_interned(res@, str_code(self@), Some(str_type()), unique);
        }
        res.add_code(str_tokens(self), Some(str_type_tokens()), unique)
    }
}

/// The expression of a present optional value: `structdump_import::Option::Some(<payload>)`.
pub open spec fn some_code(payload: Seq<Token>) -> Seq<Token> {
    imported("Option"@) + path_sep() + seq![Token::Ident("Some"@)] + parenthesized(payload)
}

/// The expression of an absent optional value: `structdump_import::Option::None`.
pub open spec fn none_code() -> Seq<Token> {
    imported("Option"@) + path_sep() + seq![Token::Ident("None"@)]
}

/// The expressions of optional values name what the payload names.
proof fn lemma_option_scope(payload: Seq<Token>, n: nat)
    requires
        in_scope(payload, n),
    ensures
        in_scope(some_code(payload), n),
        in_scope(none_code(), n),
{
    reveal_strlit("Option");
    reveal_strlit("Some");
    reveal_strlit("None");
    assert(is_plain("Option"@));
    assert(is_plain("Some"@));
    assert(is_plain("None"@));
    lemma_imported_scope("Option"@, n);
}

/// An optional value is `Some` around its payload, or `None`; the wrapper is
/// never bound by itself.
impl<T: Codegen> Codegen for Option<T> {
    open spec fn emitted(&self, before: Seq<Binding>, unique: bool) -> Emitted {
        match self {
            Some(v) => Emitted {
                code: some_code(v.emitted(before, unique).code),
                bindings: v.emitted(before, unique).bindings,
            },
            None => Emitted { code: none_code(), bindings: before },
        }
    }

    fn gen_code(&self, res: &mut CodegenResult, unique: bool) -> (code: TokenStream) {
        proof {
            reveal_strlit("Option");
            reveal_strlit("Some");
            reveal_strlit("None");
        }
        let mut code = new_stream();
        push_imported(&mut code, "Option");
        push_path_sep(&mut code);
        match self {
            Some(v) => {
                let payload = v.gen_code(res, unique);
                push_word(&mut code, "Some");
                push_parenthesized(&mut code, payload);
                assert(stream_tokens(code) =~= some_code(stream_tokens(payload)));
                proof {
                    if scoped(old(res)@) {
                        lemma_option_scope(stream_tokens(payload), res@.len());
                    }
                }
            },
            None => {
                push_word(&mut code, "None");
                assert(stream_tokens(code) =~= none_code());
                proof {
                    lemma_option_scope(Seq::empty(), res@.len());
                }
            },
        }
        code
    }
}

} // verus!
