//! The serialization session: its bindings, the cache that finds a binding by
//! the text of its code, and the block that comes out at the end.

use crate::naming::{binding_name, binding_name_text};
use crate::scope::{in_scope, is_plain, ty_in_scope};
use crate::tokens::{
    new_stream, push_group, push_punct, push_stream, push_word, stream_text, stream_tokens,
    token_text, Delim, Token,
};
use proc_macro2::TokenStream;
use vstd::hash_map::StringHashMap;
use vstd::prelude::*;

verus! {

/// A binding: the text under which the cache knows it, the code that a `let`
/// of the block holds, and the type that the `let` is annotated with, if any.
/// Its number is its place in the session.
pub struct Binding {
    pub key: Seq<char>,
    pub code: Seq<Token>,
    pub ty: Option<Seq<Token>>,
}

/// The bindings of a session, in the order of their numbers.
pub type Bindings = Seq<Binding>;

/// What emitting a value gives: the expression that stands for the value, and
/// the bindings of the session afterwards.
pub struct Emitted {
    pub code: Seq<Token>,
    pub bindings: Seq<Binding>,
}

/// The text under which the cache knows a binding.
pub open spec fn binding_key(b: Binding) -> Seq<char> {
    b.key
}

/// Every binding is known under the text of its own code.
pub open spec fn keyed_by_text(bindings: Seq<Binding>) -> bool {
    forall|i: int|
        0 <= i < bindings.len() ==> (#[trigger] bindings[i]).key == token_text(bindings[i].code)
}

/// The tokens of an optional stream.
pub open spec fn ty_tokens(ty: Option<TokenStream>) -> Option<Seq<Token>> {
    match ty {
        Some(t) => Some(stream_tokens(t)),
        None => None,
    }
}

/// The expression by which a binding is used: `code_<id>.clone()`.
pub open spec fn handle(id: nat) -> Seq<Token> {
    seq![
        Token::Ident(binding_name(id)),
        Token::Punct('.', false),
        Token::Ident("clone"@),
        Token::Group(Delim::Parenthesis, Seq::empty()),
    ]
}

/// The type annotation of a `let`: nothing, or `: <ty>`.
pub open spec fn annotation(ty: Option<Seq<Token>>) -> Seq<Token> {
    match ty {
        Some(tokens) => seq![Token::Punct(':', false)] + tokens,
        None => Seq::empty(),
    }
}

/// The statement that declares a binding: `let code_<id> [: <ty>] = <code>;`.
pub open spec fn statement(id: nat, b: Binding) -> Seq<Token> {
    seq![Token::Ident("let"@), Token::Ident(binding_name(id))] + annotation(b.ty) + seq![
        Token::Punct('=', false),
    ] + b.code + seq![Token::Punct(';', false)]
}

/// The statements of all bindings, in the order of their numbers.
pub open spec fn statements(bindings: Seq<Binding>) -> Seq<Token>
    decreases bindings.len(),
{
    if bindings.len() == 0 {
        Seq::empty()
    } else {
        statements(bindings.drop_last()) + statement(
            (bindings.len() - 1) as nat,
            bindings.last(),
        )
    }
}

/// The finished block: `{ <statements> <root> }`.
pub open spec fn artifact(bindings: Seq<Binding>, root: Seq<Token>) -> Seq<Token> {
    seq![Token::Group(Delim::Brace, statements(bindings) + root)]
}

/// Whether some binding holds code of the given text.
pub open spec fn has_key(bindings: Seq<Binding>, key: Seq<char>) -> bool {
    exists|i: int| 0 <= i < bindings.len() && #[trigger] binding_key(bindings[i]) == key
}

/// The number of a binding that holds code of the given text.
pub open spec fn key_index(bindings: Seq<Binding>, key: Seq<char>) -> int {
    choose|i: int| 0 <= i < bindings.len() && #[trigger] binding_key(bindings[i]) == key
}

/// No two bindings hold code of the same text.
pub open spec fn distinct_keys(bindings: Seq<Binding>) -> bool {
    forall|i: int, j: int|
        0 <= i < j < bindings.len() ==> #[trigger] binding_key(bindings[i]) != #[trigger] binding_key(
            bindings[j],
        )
}

/// Every binding names only bindings that come before it.
pub open spec fn scoped(bindings: Seq<Binding>) -> bool {
    forall|i: int|
        0 <= i < bindings.len() ==> in_scope((#[trigger] bindings[i]).code, i as nat)
            && ty_in_scope(bindings[i].ty, i as nat)
}

/// What offering code to the cache under a given text gives: the code is
/// bound, unless a binding is known under that text already, and what comes
/// back is the handle of the binding that is known under the text.
pub open spec fn bound(
    bindings: Seq<Binding>,
    key: Seq<char>,
    code: Seq<Token>,
    ty: Option<Seq<Token>>,
) -> Emitted {
    if has_key(bindings, key) {
        Emitted { code: handle(key_index(bindings, key) as nat), bindings }
    } else {
        Emitted { code: handle(bindings.len()), bindings: bindings.push(Binding { key, code, ty }) }
    }
}

/// What offering code to the cache gives.
///
/// With `unique` set the code comes back as it is and nothing is bound.
/// Otherwise the code is offered under its own text: it is bound, unless a
/// binding already holds code of the same text, and what comes back is the
/// handle of the binding that holds it.
pub open spec fn interned(
    bindings: Seq<Binding>,
    code: Seq<Token>,
    ty: Option<Seq<Token>>,
    unique: bool,
) -> Emitted {
    if unique {
        Emitted { code, bindings }
    } else {
        bound(bindings, token_text(code), code, ty)
    }
}

/// What every way of emitting a value keeps to: bindings are only ever added
/// at the end, none with `unique` set, none under a text that is bound
/// already, none under another text than that of its code, and none that
/// names a binding which is not before it; the expression that comes back
/// names only bindings that exist.
pub open spec fn lawful(before: Seq<Binding>, unique: bool, e: Emitted) -> bool {
    &&& before.is_prefix_of(e.bindings)
    &&& unique ==> e.bindings == before
    &&& distinct_keys(before) ==> distinct_keys(e.bindings)
    &&& keyed_by_text(before) ==> keyed_by_text(e.bindings)
    &&& scoped(before) ==> scoped(e.bindings) && in_scope(e.code, e.bindings.len())
}

/// The handle of a binding names that binding and no other.
pub proof fn lemma_handle_scope(id: nat, n: nat)
    ensures
        in_scope(handle(id), n) <==> id < n,
{
    broadcast use crate::scope::group_scope;

    reveal_strlit("clone");
    crate::scope::lemma_binding_name_scope(id, n);
    assert(is_plain("clone"@));
}

/// Offering code under a text only ever adds one binding at the end, leaves
/// every binding with a text of its own, and, as long as the code names only
/// bindings that exist, keeps every binding behind the ones that it names.
pub proof fn lemma_bound(
    bindings: Seq<Binding>,
    key: Seq<char>,
    code: Seq<Token>,
    ty: Option<Seq<Token>>,
)
    ensures
        bindings.is_prefix_of(bound(bindings, key, code, ty).bindings),
        has_key(bound(bindings, key, code, ty).bindings, key),
        distinct_keys(bindings) ==> distinct_keys(bound(bindings, key, code, ty).bindings),
        keyed_by_text(bindings) && key == token_text(code) ==> keyed_by_text(
            bound(bindings, key, code, ty).bindings,
        ),
        scoped(bindings) && in_scope(code, bindings.len()) && ty_in_scope(ty, bindings.len())
            ==> scoped(bound(bindings, key, code, ty).bindings) && in_scope(
            bound(bindings, key, code, ty).code,
            bound(bindings, key, code, ty).bindings.len(),
        ),
{
    let e = bound(bindings, key, code, ty);
    if has_key(bindings, key) {
        let i = key_index(bindings, key);
        lemma_handle_scope(i as nat, bindings.len());
    } else {
        let b = Binding { key, code, ty };
        assert(binding_key(e.bindings[bindings.len() as int]) == key);
        if distinct_keys(bindings) {
            assert forall|i: int, j: int| 0 <= i < j < e.bindings.len() implies #[trigger] binding_key(
                e.bindings[i],
            ) != #[trigger] binding_key(e.bindings[j]) by {
                if j < bindings.len() {
                    assert(e.bindings[i] == bindings[i]);
                    assert(e.bindings[j] == bindings[j]);
                } else {
                    assert(e.bindings[i] == bindings[i]);
                    assert(binding_key(bindings[i]) != key);
                }
            }
        }
        if keyed_by_text(bindings) && key == token_text(code) {
            assert forall|i: int| 0 <= i < e.bindings.len() implies (#[trigger] e.bindings[i]).key
                == token_text(e.bindings[i].code) by {
                if i < bindings.len() {
                    assert(e.bindings[i] == bindings[i]);
                }
            }
        }
        lemma_handle_scope(bindings.len(), e.bindings.len());
        if scoped(bindings) && in_scope(code, bindings.len()) && ty_in_scope(ty, bindings.len()) {
            assert forall|i: int| 0 <= i < e.bindings.len() implies in_scope(
                (#[trigger] e.bindings[i]).code,
                i as nat,
            ) && ty_in_scope(e.bindings[i].ty, i as nat) by {
                if i < bindings.len() {
                    assert(e.bindings[i] == bindings[i]);
                }
            }
        }
    }
}

/// Offering code to the cache keeps to the rules, as long as the code that is
/// offered names only bindings that exist.
pub proof fn lemma_interned(
    bindings: Seq<Binding>,
    code: Seq<Token>,
    ty: Option<Seq<Token>>,
    unique: bool,
)
    ensures
        bindings.is_prefix_of(interned(bindings, code, ty, unique).bindings),
        unique ==> interned(bindings, code, ty, unique).bindings == bindings,
        distinct_keys(bindings) ==> distinct_keys(interned(bindings, code, ty, unique).bindings),
        keyed_by_text(bindings) ==> keyed_by_text(interned(bindings, code, ty, unique).bindings),
        scoped(bindings) && in_scope(code, bindings.len()) && ty_in_scope(ty, bindings.len())
            ==> lawful(bindings, unique, interned(bindings, code, ty, unique)),
{
    if !unique {
        lemma_bound(bindings, token_text(code), code, ty);
    }
}

/// A value that can be turned into code which builds it again.
pub trait Codegen {
    /// The expression that stands for this value, and the bindings of the
    /// session after the value was emitted into a session that held
    /// `before`. With `unique` set, nothing may be bound.
    ///
    /// This is a function of specifications only and is never called when the
    /// program runs. An implementation outside of verified code has to give
    /// it a body all the same; nothing is known of what such a value emits.
    spec fn emitted(&self, before: Bindings, unique: bool) -> Emitted;

    /// Emits this value into the session and returns the expression that
    /// stands for it. What is emitted depends on the value, on the bindings of
    /// the session and on the flag alone, and it keeps to the rules of the
    /// session: see `lawful`.
    fn gen_code(&self, res: &mut CodegenResult, unique: bool) -> (code: TokenStream)
        requires
            old(res).wf(),
        ensures
            final(res).wf(),
            stream_tokens(code) == self.emitted(old(res)@, unique).code,
            final(res)@ == self.emitted(old(res)@, unique).bindings,
            lawful(old(res)@, unique, self.emitted(old(res)@, unique)),
    ;
}

/// One serialization session.
pub struct CodegenResult {
    snippets: Vec<TokenStream>,
    codes: StringHashMap<usize>,
    id: usize,
    bindings: Ghost<Seq<Binding>>,
}

impl View for CodegenResult {
    type V = Seq<Binding>;

    /// The bindings made so far, in the order of their numbers.
    closed spec fn view(&self) -> Seq<Binding> {
        self.bindings@
    }
}

impl Default for CodegenResult {
    fn default() -> (res: Self)
        ensures
            res.wf(),
            res@ == Seq::<Binding>::empty(),
    {
        CodegenResult {
            snippets: Vec::new(),
            codes: StringHashMap::new(),
            id: 0,
            bindings: Ghost(Seq::empty()),
        }
    }
}

impl CodegenResult {
    /// The session holds one statement for each binding, numbers the next
    /// binding after the last one, and its cache finds each binding by the
    /// text of its code and nothing else.
    pub closed spec fn wf(&self) -> bool {
        &&& self.id == self.snippets.len()
        &&& self.bindings@.len() == self.snippets.len()
        &&& forall|i: int|
            0 <= i < self.snippets.len() ==> stream_tokens(#[trigger] self.snippets[i])
                == statement(i as nat, self.bindings@[i])
        &&& forall|i: int|
            0 <= i < self.bindings@.len() ==> self.codes@.contains_key(
                #[trigger] binding_key(self.bindings@[i]),
            ) && self.codes@[binding_key(self.bindings@[i])] == i
        &&& forall|key: Seq<char>| #[trigger]
            self.codes@.contains_key(key) ==> self.codes@[key] < self.bindings@.len()
                && binding_key(self.bindings@[self.codes@[key] as int]) == key
    }

    /// In a session, no two bindings hold code of the same text.
    pub proof fn lemma_distinct_keys(&self)
        requires
            self.wf(),
        ensures
            distinct_keys(self@),
    {
    }

    /// Offers code to the cache under a given text.
    ///
    /// The code is bound to a new name, with `ty` as the type of the `let`,
    /// unless a binding is known under `key` already; what comes back is
    /// `<name>.clone()`, with the name of the binding that is known under
    /// `key`. `add_code` offers code under the code's own text.
    pub fn add_keyed_code(&mut self, key: String, code: TokenStream, ty: Option<TokenStream>) -> (out:
        TokenStream)
        requires
            old(self).wf(),
        ensures
            final(self).wf(),
            stream_tokens(out) == bound(old(self)@, key@, stream_tokens(code), ty_tokens(ty)).code,
            final(self)@ == bound(old(self)@, key@, stream_tokens(code), ty_tokens(ty)).bindings,
    {
        let found = match self.codes.get(key.as_str()) {
            Some(id) => Some(*id),
            None => None,
        };
        let id = match found {
            Some(id) => {
                proof {
                    let i = key_index(self@, key@);
                    assert(binding_key(self@[id as int]) == key@);
                    assert(binding_key(self@[i]) == key@);
                }
                id
            },
            None => {
                proof {
                    if has_key(self@, key@) {
                        let i = key_index(self@, key@);
                        assert(self.codes@.contains_key(binding_key(self@[i])));
                    }
                }
                let id = self.id;
                let name = binding_name_text(id);
                let mut snippet = new_stream();
                proof {
                    reveal_strlit("let");
                }
                push_word(&mut snippet, "let");
                push_word(&mut snippet, name.as_str());
                match &ty {
                    Some(t) => {
                        push_punct(&mut snippet, ':', false);
                        push_stream(&mut snippet, t);
                    },
                    None => {},
                }
                push_punct(&mut snippet, '=', false);
                push_stream(&mut snippet, &code);
                push_punct(&mut snippet, ';', false);
                let ghost binding = Binding {
                    key: key@,
                    code: stream_tokens(code),
                    ty: ty_tokens(ty),
                };
                assert(stream_tokens(snippet) =~= statement(id as nat, binding));
                self.snippets.push(snippet);
                self.codes.insert(key, id);
                proof {
                    vstd::std_specs::vec::axiom_spec_len(&self.snippets);
                }
                self.id = self.id + 1;
                self.bindings = Ghost(self.bindings@.push(binding));
                proof {
                    assert forall|i: int| 0 <= i < self.bindings@.len() implies self.codes@.contains_key(
                        #[trigger] binding_key(self.bindings@[i]),
                    ) && self.codes@[binding_key(self.bindings@[i])] == i by {
                        if i < id {
                            assert(self.bindings@[i] == old(self).bindings@[i]);
                            assert(old(self).codes@.contains_key(binding_key(old(self).bindings@[i])));
                        }
                    }
                }
                id
            },
        };
        let name = binding_name_text(id);
        let mut out = new_stream();
        proof {
            reveal_strlit("clone");
        }
        push_word(&mut out, name.as_str());
        push_punct(&mut out, '.', false);
        push_word(&mut out, "clone");
        push_group(&mut out, Delim::Parenthesis, new_stream());
        assert(stream_tokens(out) =~= handle(id as nat));
        out
    }

    /// Offers code to the cache.
    ///
    /// With `unique` set, `code` comes back as it is. Otherwise `code` is
    /// bound to a new name, with `ty` as the type of the `let`, unless code of
    /// the same text is bound already; what comes back is
    /// `<name>.clone()`, with the name of the binding that holds the code.
    pub fn add_code(&mut self, code: TokenStream, ty: Option<TokenStream>, unique: bool) -> (out:
        TokenStream)
        requires
            old(self).wf(),
        ensures
            final(self).wf(),
            stream_tokens(out) == interned(
                old(self)@,
                stream_tokens(code),
                ty_tokens(ty),
                unique,
            ).code,
            final(self)@ == interned(old(self)@, stream_tokens(code), ty_tokens(ty), unique).bindings,
    {
        if unique {
            return code;
        }
        let key = stream_text(&code);
        self.add_keyed_code(key, code, ty)
    }

    /// Emits a value into the session.
    pub fn add_value<T: Codegen>(&mut self, s: T, unique: bool) -> (code: TokenStream)
        requires
            old(self).wf(),
        ensures
            final(self).wf(),
            stream_tokens(code) == s.emitted(old(self)@, unique).code,
            final(self)@ == s.emitted(old(self)@, unique).bindings,
            lawful(old(self)@, unique, s.emitted(old(self)@, unique)),
    {
        s.gen_code(self, unique)
    }

    /// Closes the session over `root`: a block that declares every binding,
    /// in the order of their numbers, and ends in `root`.
    pub fn finalize(&self, root: TokenStream) -> (block: TokenStream)
        requires
            self.wf(),
        ensures
            stream_tokens(block) == artifact(self@, stream_tokens(root)),
    {
        let mut inner = new_stream();
        let mut i: usize = 0;
        assert(self@.take(0) =~= Seq::<Binding>::empty());
        while i < self.snippets.len()
            invariant
                self.wf(),
                i <= self.snippets.len(),
                stream_tokens(inner) == statements(self@.take(i as int)),
            decreases self.snippets.len() - i,
        {
            push_stream(&mut inner, &self.snippets[i]);
            proof {
                let next = self@.take(i + 1);
                assert(next.drop_last() =~= self@.take(i as int));
                assert(next.last() == self@[i as int]);
            }
            i = i + 1;
        }
        assert(self@.take(i as int) =~= self@);
        push_stream(&mut inner, &root);
        let mut block = new_stream();
        push_group(&mut block, Delim::Brace, inner);
        assert(stream_tokens(block) =~= artifact(self@, stream_tokens(root)));
        block
    }

    /// Emits a value into the session and closes the session over it.
    pub fn codegen<T: Codegen>(&mut self, s: &T, unique: bool) -> (block: TokenStream)
        requires
            old(self).wf(),
        ensures
            final(self).wf(),
            final(self)@ == s.emitted(old(self)@, unique).bindings,
            stream_tokens(block) == artifact(
                s.emitted(old(self)@, unique).bindings,
                s.emitted(old(self)@, unique).code,
            ),
            lawful(old(self)@, unique, s.emitted(old(self)@, unique)),
    {
        let root = s.gen_code(self, unique);
        self.finalize(root)
    }
}

} // verus!
