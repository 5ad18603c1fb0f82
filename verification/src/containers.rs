//! How owned texts, sequences and shared values are emitted.

use crate::chain::{
    chain_all, chain_lawful, chain_start, chain_step, lemma_chain_interned, lemma_chain_step,
    lemma_lawful_interned, lemma_list_scope, separated,
};
use crate::quoting::{
    imported, lemma_imported_scope, parenthesized, path_sep, push_imported, push_parenthesized,
    push_path_sep,
};
use crate::scope::{in_scope, is_plain};
use crate::session::{
    interned, lawful, lemma_interned, scoped, Binding, Codegen, CodegenResult, Emitted,
};
use crate::tokens::{
    new_stream, push_group, push_punct, push_stream, push_word, stream_tokens, Delim, Token,
};
use crate::values::{lemma_str_scope, str_code, str_tokens, str_type};
use proc_macro2::TokenStream;
use std::borrow::Cow;
use std::rc::Rc;
use vstd::prelude::*;

verus! {

broadcast use crate::scope::group_scope;

/// The owned form of a text: `<text>.to_owned()`.
pub open spec fn owned_code(text: Seq<Token>) -> Seq<Token> {
    text + seq![Token::Punct('.', false), Token::Ident("to_owned"@)] + parenthesized(Seq::empty())
}

/// An owned text is its literal, offered to the cache, turned into an owned
/// text; that expression is offered to the cache too, with
/// `structdump_import::String` as its type.
impl Codegen for String {
    open spec fn emitted(&self, before: Seq<Binding>, unique: bool) -> Emitted {
        let literal = interned(before, str_code(self@), Some(str_type()), unique);
        interned(
            literal.bindings,
            owned_code(literal.code),
            Some(imported("String"@)),
            unique,
        )
    }

    fn gen_code(&self, res: &mut CodegenResult, unique: bool) -> (code: TokenStream) {
        proof {
            reveal_strlit("to_owned");
            reveal_strlit("String");
            assert(is_plain("to_owned"@));
            assert(is_plain("String"@));
            let literal = interned(res@, str_code(self@), Some(str_type()), unique);
            lemma_str_scope(self@, res@.len());
            lemma_interned(res@, str_code(self@), Some(str_type()), unique);
            lemma_imported_scope("String"@, literal.bindings.len());
            lemma_lawful_interned(
                res@,
                literal,
                unique,
                owned_code(literal.code),
                Some(imported("String"@)),
                unique,
            );
        }
        let text: &str = self.as_str();
        let literal = text.gen_code(res, unique);
        let mut code = new_stream();
        push_stream(&mut code, &literal);
        push_punct(&mut code, '.', false);
        push_word(&mut code, "to_owned");
        push_parenthesized(&mut code, new_stream());
        assert(stream_tokens(code) =~= owned_code(stream_tokens(literal)));
        let mut ty = new_stream();
        push_imported(&mut ty, "String");
        res.add_code(code, Some(ty), unique)
    }
}

/// The expression of a sequence: `structdump_import::vec![<items>]`.
pub open spec fn vec_code(items: Seq<Seq<Token>>) -> Seq<Token> {
    imported("vec"@) + seq![
        Token::Punct('!', false),
        Token::Group(Delim::Bracket, separated(items)),
    ]
}

/// The type of a sequence: `structdump_import::Vec<_>`.
pub open spec fn vec_type() -> Seq<Token> {
    imported("Vec"@) + seq![
        Token::Punct('<', false),
        Token::Ident("_"@),
        Token::Punct('>', false),
    ]
}

/// The expression and the type of a sequence name what the items name.
proof fn lemma_vec_scope(items: Seq<Seq<Token>>, n: nat)
    requires
        forall|i: int| 0 <= i < items.len() ==> in_scope(#[trigger] items[i], n),
    ensures
        in_scope(vec_code(items), n),
        in_scope(vec_type(), n),
{
    reveal_strlit("vec");
    reveal_strlit("Vec");
    reveal_strlit("_");
    assert(is_plain("vec"@));
    assert(is_plain("Vec"@));
    assert(is_plain("_"@));
    lemma_imported_scope("vec"@, n);
    lemma_imported_scope("Vec"@, n);
    lemma_list_scope(items, n);
}

/// A sequence emits its items in their order, each under the caller's flag,
/// and offers the list of their expressions to the cache.
impl<T: Codegen> Codegen for Vec<T> {
    open spec fn emitted(&self, before: Seq<Binding>, unique: bool) -> Emitted {
        let items = chain_all(self@, before, unique);
        interned(items.bindings, vec_code(items.codes), Some(vec_type()), unique)
    }

    fn gen_code(&self, res: &mut CodegenResult, unique: bool) -> (code: TokenStream) {
        proof {
            reveal_strlit("vec");
            reveal_strlit("Vec");
            reveal_strlit("_");
        }
        let ghost before = res@;
        let ghost mut items = chain_start(before);
        let mut list = new_stream();
        let mut i: usize = 0;
        assert(self@.take(0) =~= Seq::<T>::empty());
        while i < self.len()
            invariant
                i <= self.len(),
                res.wf(),
                items == chain_all(self@.take(i as int), before, unique),
                chain_lawful(before, unique, items),
                items.codes.len() == i,
                res@ == items.bindings,
                stream_tokens(list) == separated(items.codes),
            decreases self.len() - i,
        {
            let item = self[i].gen_code(res, unique);
            if i > 0 {
                push_punct(&mut list, ',', false);
            }
            push_stream(&mut list, &item);
            proof {
                let next = self@.take(i + 1);
                assert(next.drop_last() =~= self@.take(i as int));
                assert(next.last() == self@[i as int]);
                let grown = chain_step(items, &self@[i as int], unique);
                lemma_chain_step(before, items, &self@[i as int], unique);
                assert(grown.codes.drop_last() =~= items.codes);
                assert(stream_tokens(list) =~= separated(grown.codes));
                items = grown;
            }
            i = i + 1;
        }
        assert(self@.take(i as int) =~= self@);
        let mut code = new_stream();
        push_imported(&mut code, "vec");
        push_punct(&mut code, '!', false);
        push_group(&mut code, Delim::Bracket, list);
        assert(stream_tokens(code) =~= vec_code(items.codes));
        let mut ty = new_stream();
        push_imported(&mut ty, "Vec");
        push_punct(&mut ty, '<', false);
        push_word(&mut ty, "_");
        push_punct(&mut ty, '>', false);
        assert(stream_tokens(ty) =~= vec_type());
        proof {
            if scoped(before) {
                lemma_vec_scope(items.codes, items.bindings.len());
            }
            lemma_chain_interned(before, items, vec_code(items.codes), Some(vec_type()), unique);
        }
        res.add_code(code, Some(ty), unique)
    }
}

/// The expression of a shared value: `structdump_import::Rc::new(<pointee>)`.
pub open spec fn rc_code(pointee: Seq<Token>) -> Seq<Token> {
    imported("Rc"@) + path_sep() + seq![Token::Ident("new"@)] + parenthesized(pointee)
}

/// The type of a shared value: `structdump_import::Rc<_>`.
pub open spec fn rc_type() -> Seq<Token> {
    imported("Rc"@) + seq![Token::Punct('<', false), Token::Ident("_"@), Token::Punct('>', false)]
}

/// What `add_rc_value` gives: the pointee is written in place, whatever the
/// flag, and the allocation around it is offered to the cache.
pub open spec fn shared<T: Codegen>(pointee: &T, before: Seq<Binding>, unique: bool) -> Emitted {
    let inner = pointee.emitted(before, true);
    interned(inner.bindings, rc_code(inner.code), Some(rc_type()), unique)
}

/// The expression and the type of a shared value name what the pointee names.
proof fn lemma_rc_scope(pointee: Seq<Token>, n: nat)
    requires
        in_scope(pointee, n),
    ensures
        in_scope(rc_code(pointee), n),
        in_scope(rc_type(), n),
{
    reveal_strlit("Rc");
    reveal_strlit("new");
    reveal_strlit("_");
    assert(is_plain("Rc"@));
    assert(is_plain("new"@));
    assert(is_plain("_"@));
    lemma_imported_scope("Rc"@, n);
}

/// A shared value keeps to the rules of the session when its pointee does.
pub proof fn lemma_shared<T: Codegen>(pointee: &T, before: Seq<Binding>, unique: bool)
    requires
        lawful(before, true, pointee.emitted(before, true)),
    ensures
        lawful(before, unique, shared(pointee, before, unique)),
{
    let inner = pointee.emitted(before, true);
    if scoped(before) {
        lemma_rc_scope(inner.code, inner.bindings.len());
    }
    lemma_lawful_interned(before, inner, true, rc_code(inner.code), Some(rc_type()), unique);
}

impl CodegenResult {
    /// Emits a value as the pointee of a shared allocation: the value itself
    /// is written in place, and `structdump_import::Rc::new(<value>)` is
    /// offered to the cache. Two allocations of equal text become one
    /// binding.
    pub fn add_rc_value<T: Codegen>(&mut self, s: &T, unique: bool) -> (code: TokenStream)
        requires
            old(self).wf(),
        ensures
            final(self).wf(),
            stream_tokens(code) == shared(s, old(self)@, unique).code,
            final(self)@ == shared(s, old(self)@, unique).bindings,
            lawful(old(self)@, unique, shared(s, old(self)@, unique)),
    {
        proof {
            reveal_strlit("Rc");
            reveal_strlit("new");
            reveal_strlit("_");
        }
        let pointee = s.gen_code(self, true);
        proof {
            lemma_shared(s, old(self)@, unique);
        }
        let mut code = new_stream();
        push_imported(&mut code, "Rc");
        push_path_sep(&mut code);
        push_word(&mut code, "new");
        push_parenthesized(&mut code, pointee);
        assert(stream_tokens(code) =~= rc_code(stream_tokens(pointee)));
        let mut ty = new_stream();
        push_imported(&mut ty, "Rc");
        push_punct(&mut ty, '<', false);
        push_word(&mut ty, "_");
        push_punct(&mut ty, '>', false);
        assert(stream_tokens(ty) =~= rc_type());
        self.add_code(code, Some(ty), unique)
    }
}

/// A shared value is an allocation around its pointee: see `add_rc_value`.
impl<T: Codegen> Codegen for Rc<T> {
    open spec fn emitted(&self, before: Seq<Binding>, unique: bool) -> Emitted {
        shared(&**self, before, unique)
    }

    fn gen_code(&self, res: &mut CodegenResult, unique: bool) -> (code: TokenStream) {
        let pointee: &T = &**self;
        res.add_rc_value(pointee, unique)
    }
}

/// The expression of a shared text: `<structdump_import::Rc<str>>::from(<literal>)`.
pub open spec fn rc_str_code(s: Seq<char>) -> Seq<Token> {
    seq![Token::Punct('<', false)] + imported("Rc"@) + seq![
        Token::Punct('<', false),
        Token::Ident("str"@),
        Token::Punct('>', true),
        Token::Punct('>', false),
    ] + path_sep() + seq![Token::Ident("from"@)] + parenthesized(str_code(s))
}

/// `structdump_import::Rc<<ty>>`, the type of a shared value of type `ty`.
pub open spec fn rc_of(ty: Seq<Token>) -> Seq<Token> {
    imported("Rc"@) + seq![Token::Punct('<', false)] + ty + seq![Token::Punct('>', false)]
}

/// The type of a text without its reference: `str`.
pub open spec fn str_word() -> Seq<Token> {
    seq![Token::Ident("str"@)]
}

/// The expression and the type of a shared text name no binding.
proof fn lemma_rc_str_scope(s: Seq<char>, n: nat)
    ensures
        in_scope(rc_str_code(s), n),
        in_scope(rc_of(str_word()), n),
{
    reveal_strlit("Rc");
    reveal_strlit("str");
    reveal_strlit("from");
    assert(is_plain("Rc"@));
    assert(is_plain("str"@));
    assert(is_plain("from"@));
    lemma_imported_scope("Rc"@, n);
    lemma_str_scope(s, n);
}

/// A shared text is an allocation made from its literal, offered to the
/// cache: equal texts share one allocation.
impl Codegen for Rc<str> {
    open spec fn emitted(&self, before: Seq<Binding>, unique: bool) -> Emitted {
        interned(before, rc_str_code((**self)@), Some(rc_of(str_word())), unique)
    }

    fn gen_code(&self, res: &mut CodegenResult, unique: bool) -> (code: TokenStream) {
        proof {
            reveal_strlit("Rc");
            reveal_strlit("str");
            reveal_strlit("from");
            lemma_rc_str_scope((**self)@, res@.len());
            lemma_interned(res@, rc_str_code((**self)@), Some(rc_of(str_word())), unique);
        }
        let text: &str = &**self;
        let mut code = new_stream();
        push_punct(&mut code, '<', false);
        push_imported(&mut code, "Rc");
        push_punct(&mut code, '<', false);
        push_word(&mut code, "str");
        push_punct(&mut code, '>', true);
        push_punct(&mut code, '>', false);
        push_path_sep(&mut code);
        push_word(&mut code, "from");
        push_parenthesized(&mut code, str_tokens(text));
        assert(stream_tokens(code) =~= rc_str_code(text@));
        let mut ty = new_stream();
        push_imported(&mut ty, "Rc");
        push_punct(&mut ty, '<', false);
        push_word(&mut ty, "str");
        push_punct(&mut ty, '>', false);
        assert(stream_tokens(ty) =~= rc_of(str_word()));
        res.add_code(code, Some(ty), unique)
    }
}

/// The conversion of a value into what its place asks for: `<value>.into()`.
pub open spec fn into_code(value: Seq<Token>) -> Seq<Token> {
    value + seq![Token::Punct('.', false), Token::Ident("into"@)] + parenthesized(Seq::empty())
}

/// What `add_into_rc_value` gives: the value is written in place, whatever
/// the flag, and its conversion is offered to the cache as a shared value of
/// type `ty`.
pub open spec fn shared_from<T: Codegen>(
    value: &T,
    ty: Seq<Token>,
    before: Seq<Binding>,
    unique: bool,
) -> Emitted {
    let inner = value.emitted(before, true);
    interned(inner.bindings, into_code(inner.code), Some(rc_of(ty)), unique)
}

/// A converted value keeps to the rules of the session when the value does,
/// as long as its type names only bindings that exist.
pub proof fn lemma_shared_from<T: Codegen>(
    value: &T,
    ty: Seq<Token>,
    before: Seq<Binding>,
    unique: bool,
)
    requires
        in_scope(ty, before.len()),
        lawful(before, true, value.emitted(before, true)),
    ensures
        lawful(before, unique, shared_from(value, ty, before, unique)),
{
    reveal_strlit("Rc");
    reveal_strlit("into");
    assert(is_plain("Rc"@));
    assert(is_plain("into"@));
    let inner = value.emitted(before, true);
    lemma_imported_scope("Rc"@, inner.bindings.len());
    lemma_lawful_interned(before, inner, true, into_code(inner.code), Some(rc_of(ty)), unique);
}

impl CodegenResult {
    /// Emits a value as what a shared allocation is made from: the value
    /// itself is written in place, and `<value>.into()` is offered to the
    /// cache, with `structdump_import::Rc<<ty>>` as the type of the binding.
    pub fn add_into_rc_value<T: Codegen>(&mut self, s: &T, ty: TokenStream, unique: bool) -> (code:
        TokenStream)
        requires
            old(self).wf(),
        ensures
            final(self).wf(),
            stream_tokens(code) == shared_from(s, stream_tokens(ty), old(self)@, unique).code,
            final(self)@ == shared_from(s, stream_tokens(ty), old(self)@, unique).bindings,
            in_scope(stream_tokens(ty), old(self)@.len()) ==> lawful(
                old(self)@,
                unique,
                shared_from(s, stream_tokens(ty), old(self)@, unique),
            ),
    {
        proof {
            reveal_strlit("Rc");
            reveal_strlit("into");
        }
        let value = s.gen_code(self, true);
        proof {
            if in_scope(stream_tokens(ty), old(self)@.len()) {
                lemma_shared_from(s, stream_tokens(ty), old(self)@, unique);
            }
        }
        let mut code = new_stream();
        push_stream(&mut code, &value);
        push_punct(&mut code, '.', false);
        push_word(&mut code, "into");
        push_parenthesized(&mut code, new_stream());
        assert(stream_tokens(code) =~= into_code(stream_tokens(value)));
        let mut annotation = new_stream();
        push_imported(&mut annotation, "Rc");
        push_punct(&mut annotation, '<', false);
        push_stream(&mut annotation, &ty);
        push_punct(&mut annotation, '>', false);
        assert(stream_tokens(annotation) =~= rc_of(stream_tokens(ty)));
        self.add_code(code, Some(annotation), unique)
    }
}

/// The expression of a borrowed text: `structdump_import::Cow::Borrowed(<literal>)`.
pub open spec fn cow_code(s: Seq<char>) -> Seq<Token> {
    imported("Cow"@) + path_sep() + seq![Token::Ident("Borrowed"@)] + parenthesized(str_code(s))
}

/// A text that is borrowed or owned is written as a borrowed literal, in
/// place, and never bound.
impl<'a> Codegen for Cow<'a, str> {
    open spec fn emitted(&self, before: Seq<Binding>, unique: bool) -> Emitted {
        Emitted { code: cow_code(self@), bindings: before }
    }

    fn gen_code(&self, res: &mut CodegenResult, unique: bool) -> (code: TokenStream) {
        proof {
            reveal_strlit("Cow");
            reveal_strlit("Borrowed");
            assert(is_plain("Cow"@));
            assert(is_plain("Borrowed"@));
            lemma_imported_scope("Cow"@, res@.len());
            lemma_str_scope(self@, res@.len());
        }
        let text: &str = match self {
            Cow::Borrowed(borrowed) => borrowed,
            Cow::Owned(owned) => owned.as_str(),
        };
        let mut code = new_stream();
        push_imported(&mut code, "Cow");
        push_path_sep(&mut code);
        push_word(&mut code, "Borrowed");
        push_parenthesized(&mut code, str_tokens(text));
        assert(stream_tokens(code) =~= cow_code(self@));
        code
    }
}

/// `std::path::PathBuf`, carried through as an opaque value.
#[verifier::external_type_specification]
#[verifier::external_body]
pub struct ExPathBuf(std::path::PathBuf);

/// What stands for a value that cannot be written: `panic!("pathbuf is not supported")`.
pub open spec fn unsupported_code() -> Seq<Token> {
    seq![Token::Ident("panic"@), Token::Punct('!', false)] + parenthesized(
        str_code("pathbuf is not supported"@),
    )
}

/// A path cannot be written. Emitting one does not fail: the code that is
/// written for it panics when it runs.
impl Codegen for std::path::PathBuf {
    open spec fn emitted(&self, before: Seq<Binding>, unique: bool) -> Emitted {
        Emitted { code: unsupported_code(), bindings: before }
    }

    fn gen_code(&self, res: &mut CodegenResult, unique: bool) -> (code: TokenStream) {
        proof {
            reveal_strlit("panic");
            assert(is_plain("panic"@));
            lemma_str_scope("pathbuf is not supported"@, res@.len());
        }
        let mut code = new_stream();
        push_word(&mut code, "panic");
        push_punct(&mut code, '!', false);
        push_parenthesized(&mut code, str_tokens("pathbuf is not supported"));
        assert(stream_tokens(code) =~= unsupported_code());
        code
    }
}

} // verus!
