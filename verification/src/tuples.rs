//! How tuples are emitted, from the empty tuple to tuples of twelve.

use crate::chain::{
    chain_lawful, chain_start, chain_step, lemma_chain_interned, lemma_chain_step,
    lemma_list_scope, terminated, Chain,
};
use crate::quoting::{parenthesized, push_parenthesized};
use crate::session::{interned, lawful, scoped, Binding, Codegen, CodegenResult, Emitted};
use crate::tokens::{new_stream, push_punct, push_stream, stream_tokens, Token};
use proc_macro2::TokenStream;
use vstd::prelude::*;

verus! {

broadcast use crate::scope::group_scope;

/// The expression of a tuple: `(a, b, c,)`.
pub open spec fn tuple_code(parts: Seq<Seq<Token>>) -> Seq<Token> {
    parenthesized(terminated(parts))
}

/// What a tuple gives once its components are emitted: the expression made
/// of theirs, offered to the cache, without a type.
pub open spec fn tuple_of(parts: Chain, unique: bool) -> Emitted {
    interned(parts.bindings, tuple_code(parts.codes), None, unique)
}

/// A tuple whose components keep to the rules keeps to them.
pub proof fn lemma_tuple_of(before: Seq<Binding>, parts: Chain, unique: bool)
    requires
        chain_lawful(before, unique, parts),
    ensures
        lawful(before, unique, tuple_of(parts, unique)),
{
    if scoped(before) {
        lemma_list_scope(parts.codes, parts.bindings.len());
    }
    lemma_chain_interned(before, parts, tuple_code(parts.codes), None, unique);
}

/// Emits one component and writes its expression, with a comma, behind the
/// ones before it.
fn push_part<T: Codegen>(
    value: &T,
    res: &mut CodegenResult,
    unique: bool,
    list: &mut TokenStream,
    Ghost(before): Ghost<Seq<Binding>>,
    Ghost(parts): Ghost<Chain>,
) -> (next: Ghost<Chain>)
    requires
        old(res).wf(),
        old(res)@ == parts.bindings,
        chain_lawful(before, unique, parts),
        stream_tokens(*old(list)) == terminated(parts.codes),
    ensures
        final(res).wf(),
        next@ == chain_step(parts, value, unique),
        final(res)@ == next@.bindings,
        chain_lawful(before, unique, next@),
        stream_tokens(*final(list)) == terminated(next@.codes),
{
    let part = value.gen_code(res, unique);
    push_stream(list, &part);
    push_punct(list, ',', false);
    let ghost next = chain_step(parts, value, unique);
    proof {
        lemma_chain_step(before, parts, value, unique);
    }
    assert(next.codes.drop_last() =~= parts.codes);
    assert(stream_tokens(*list) =~= terminated(next.codes));
    Ghost(next)
}

/// Closes the list of the components' expressions into the tuple and offers
/// it to the cache.
fn close_tuple(
    res: &mut CodegenResult,
    unique: bool,
    list: TokenStream,
    Ghost(before): Ghost<Seq<Binding>>,
    Ghost(parts): Ghost<Chain>,
) -> (code: TokenStream)
    requires
        old(res).wf(),
        old(res)@ == parts.bindings,
        chain_lawful(before, unique, parts),
        stream_tokens(list) == terminated(parts.codes),
    ensures
        final(res).wf(),
        stream_tokens(code) == tuple_of(parts, unique).code,
        final(res)@ == tuple_of(parts, unique).bindings,
        lawful(before, unique, tuple_of(parts, unique)),
{
    proof {
        lemma_tuple_of(before, parts, unique);
    }
    let mut code = new_stream();
    push_parenthesized(&mut code, list);
    assert(stream_tokens(code) =~= tuple_code(parts.codes));
    res.add_code(code, None, unique)
}

/// The empty tuple has no components: `()` is offered to the cache.
impl Codegen for () {
    open spec fn emitted(&self, before: Seq<Binding>, unique: bool) -> Emitted {
        tuple_of(chain_start(before), unique)
    }

    fn gen_code(&self, res: &mut CodegenResult, unique: bool) -> (code: TokenStream) {
        let list = new_stream();
        close_tuple(res, unique, list, Ghost(res@), Ghost(chain_start(res@)))
    }
}

/// A tuple of one emits its component under the caller's flag and offers the
/// tuple of its expression to the cache.
impl<A: Codegen> Codegen for (A,) {
    open spec fn emitted(&self, before: Seq<Binding>, unique: bool) -> Emitted {
        let parts = chain_start(before);
        let parts = chain_step(parts, &self.0, unique);
        tuple_of(parts, unique)
    }

    fn gen_code(&self, res: &mut CodegenResult, unique: bool) -> (code: TokenStream) {
        let before = Ghost(res@);
        let mut list = new_stream();
        let parts = Ghost(chain_start(res@));
        let parts = push_part(&self.0, res, unique, &mut list, before, parts);
        close_tuple(res, unique, list, before, parts)
    }
}

/// A tuple of two emits its two components, from the first to the last, each
/// under the caller's flag, and offers the tuple of their expressions to the
/// cache.
impl<A: Codegen, B: Codegen> Codegen for (A, B) {
    open spec fn emitted(&self, before: Seq<Binding>, unique: bool) -> Emitted {
        let parts = chain_start(before);
        let parts = chain_step(parts, &self.0, unique);
        let parts = chain_step(parts, &self.1, unique);
        tuple_of(parts, unique)
    }

    fn gen_code(&self, res: &mut CodegenResult, unique: bool) -> (code: TokenStream) {
        let before = Ghost(res@);
        let mut list = new_stream();
        let parts = Ghost(chain_start(res@));
        let parts = push_part(&self.0, res, unique, &mut list, before, parts);
        let parts = push_part(&self.1, res, unique, &mut list, before, parts);
        close_tuple(res, unique, list, before, parts)
    }
}

/// A tuple of three emits its three components, from the first to the last, each
/// under the caller's flag, and offers the tuple of their expressions to the
/// cache.
impl<A: Codegen, B: Codegen, C: Codegen> Codegen for (A, B, C) {
    open spec fn emitted(&self, before: Seq<Binding>, unique: bool) -> Emitted {
        let parts = chain_start(before);
        let parts = chain_step(parts, &self.0, unique);
        let parts = chain_step(parts, &self.1, unique);
        let parts = chain_step(parts, &self.2, unique);
        tuple_of(parts, unique)
    }

    fn gen_code(&self, res: &mut CodegenResult, unique: bool) -> (code: TokenStream) {
        let before = Ghost(res@);
        let mut list = new_stream();
        let parts = Ghost(chain_start(res@));
        let parts = push_part(&self.0, res, unique, &mut list, before, parts);
        let parts = push_part(&self.1, res, unique, &mut list, before, parts);
        let parts = push_part(&self.2, res, unique, &mut list, before, parts);
        close_tuple(res, unique, list, before, parts)
    }
}

/// A tuple of four emits its four components, from the first to the last, each
/// under the caller's flag, and offers the tuple of their expressions to the
/// cache.
impl<A: Codegen, B: Codegen, C: Codegen, D: Codegen> Codegen for (A, B, C, D) {
    open spec fn emitted(&self, before: Seq<Binding>, unique: bool) -> Emitted {
        let parts = chain_start(before);
        let parts = chain_step(parts, &self.0, unique);
        let parts = chain_step(parts, &self.1, unique);
        let parts = chain_step(parts, &self.2, unique);
        let parts = chain_step(parts, &self.3, unique);
        tuple_of(parts, unique)
    }

    fn gen_code(&self, res: &mut CodegenResult, unique: bool) -> (code: TokenStream) {
        let before = Ghost(res@);
        let mut list = new_stream();
        let parts = Ghost(chain_start(res@));
        let parts = push_part(&self.0, res, unique, &mut list, before, parts);
        let parts = push_part(&self.1, res, unique, &mut list, before, parts);
        let parts = push_part(&self.2, res, unique, &mut list, before, parts);
        let parts = push_part(&self.3, res, unique, &mut list, before, parts);
        close_tuple(res, unique, list, before, parts)
    }
}

/// A tuple of five emits its five components, from the first to the last, each
/// under the caller's flag, and offers the tuple of their expressions to the
/// cache.
impl<A: Codegen, B: Codegen, C: Codegen, D: Codegen, E: Codegen> Codegen for (A, B, C, D, E) {
    open spec fn emitted(&self, before: Seq<Binding>, unique: bool) -> Emitted {
        let parts = chain_start(before);
        let parts = chain_step(parts, &self.0, unique);
        let parts = chain_step(parts, &self.1, unique);
        let parts = chain_step(parts, &self.2, unique);
        let parts = chain_step(parts, &self.3, unique);
        let parts = chain_step(parts, &self.4, unique);
        tuple_of(parts, unique)
    }

    fn gen_code(&self, res: &mut CodegenResult, unique: bool) -> (code: TokenStream) {
        let before = Ghost(res@);
        let mut list = new_stream();
        let parts = Ghost(chain_start(res@));
        let parts = push_part(&self.0, res, unique, &mut list, before, parts);
        let parts = push_part(&self.1, res, unique, &mut list, before, parts);
        let parts = push_part(&self.2, res, unique, &mut list, before, parts);
        let parts = push_part(&self.3, res, unique, &mut list, before, parts);
        let parts = push_part(&self.4, res, unique, &mut list, before, parts);
        close_tuple(res, unique, list, before, parts)
    }
}

/// A tuple of six emits its six components, from the first to the last, each
/// under the caller's flag, and offers the tuple of their expressions to the
/// cache.
impl<
    A: Codegen,
    B: Codegen,
    C: Codegen,
    D: Codegen,
    E: Codegen,
    F: Codegen,
> Codegen for (A, B, C, D, E, F) {
    open spec fn emitted(&self, before: Seq<Binding>, unique: bool) -> Emitted {
        let parts = chain_start(before);
        let parts = chain_step(parts, &self.0, unique);
        let parts = chain_step(parts, &self.1, unique);
        let parts = chain_step(parts, &self.2, unique);
        let parts = chain_step(parts, &self.3, unique);
        let parts = chain_step(parts, &self.4, unique);
        let parts = chain_step(parts, &self.5, unique);
        tuple_of(parts, unique)
    }

    fn gen_code(&self, res: &mut CodegenResult, unique: bool) -> (code: TokenStream) {
        let before = Ghost(res@);
        let mut list = new_stream();
        let parts = Ghost(chain_start(res@));
        let parts = push_part(&self.0, res, unique, &mut list, before, parts);
        let parts = push_part(&self.1, res, unique, &mut list, before, parts);
        let parts = push_part(&self.2, res, unique, &mut list, before, parts);
        let parts = push_part(&self.3, res, unique, &mut list, before, parts);
        let parts = push_part(&self.4, res, unique, &mut list, before, parts);
        let parts = push_part(&self.5, res, unique, &mut list, before, parts);
        close_tuple(res, unique, list, before, parts)
    }
}

/// A tuple of seven emits its seven components, from the first to the last, each
/// under the caller's flag, and offers the tuple of their expressions to the
/// cache.
impl<
    A: Codegen,
    B: Codegen,
    C: Codegen,
    D: Codegen,
    E: Codegen,
    F: Codegen,
    G: Codegen,
> Codegen for (A, B, C, D, E, F, G) {
    open spec fn emitted(&self, before: Seq<Binding>, unique: bool) -> Emitted {
        let parts = chain_start(before);
        let parts = chain_step(parts, &self.0, unique);
        let parts = chain_step(parts, &self.1, unique);
        let parts = chain_step(parts, &self.2, unique);
        let parts = chain_step(parts, &self.3, unique);
        let parts = chain_step(parts, &self.4, unique);
        let parts = chain_step(parts, &self.5, unique);
        let parts = chain_step(parts, &self.6, unique);
        tuple_of(parts, unique)
    }

    fn gen_code(&self, res: &mut CodegenResult, unique: bool) -> (code: TokenStream) {
        let before = Ghost(res@);
        let mut list = new_stream();
        let parts = Ghost(chain_start(res@));
        let parts = push_part(&self.0, res, unique, &mut list, before, parts);
        let parts = push_part(&self.1, res, unique, &mut list, before, parts);
        let parts = push_part(&self.2, res, unique, &mut list, before, parts);
        let parts = push_part(&self.3, res, unique, &mut list, before, parts);
        let parts = push_part(&self.4, res, unique, &mut list, before, parts);
        let parts = push_part(&self.5, res, unique, &mut list, before, parts);
        let parts = push_part(&self.6, res, unique, &mut list, before, parts);
        close_tuple(res, unique, list, before, parts)
    }
}

/// A tuple of eight emits its eight components, from the first to the last, each
/// under the caller's flag, and offers the tuple of their expressions to the
/// cache.
impl<
    A: Codegen,
    B: Codegen,
    C: Codegen,
    D: Codegen,
    E: Codegen,
    F: Codegen,
    G: Codegen,
    H: Codegen,
> Codegen for (A, B, C, D, E, F, G, H) {
    open spec fn emitted(&self, before: Seq<Binding>, unique: bool) -> Emitted {
        let parts = chain_start(before);
        let parts = chain_step(parts, &self.0, unique);
        let parts = chain_step(parts, &self.1, unique);
        let parts = chain_step(parts, &self.2, unique);
        let parts = chain_step(parts, &self.3, unique);
        let parts = chain_step(parts, &self.4, unique);
        let parts = chain_step(parts, &self.5, unique);
        let parts = chain_step(parts, &self.6, unique);
        let parts = chain_step(parts, &self.7, unique);
        tuple_of(parts, unique)
    }

    fn gen_code(&self, res: &mut CodegenResult, unique: bool) -> (code: TokenStream) {
        let before = Ghost(res@);
        let mut list = new_stream();
        let parts = Ghost(chain_start(res@));
        let parts = push_part(&self.0, res, unique, &mut list, before, parts);
        let parts = push_part(&self.1, res, unique, &mut list, before, parts);
        let parts = push_part(&self.2, res, unique, &mut list, before, parts);
        let parts = push_part(&self.3, res, unique, &mut list, before, parts);
        let parts = push_part(&self.4, res, unique, &mut list, before, parts);
        let parts = push_part(&self.5, res, unique, &mut list, before, parts);
        let parts = push_part(&self.6, res, unique, &mut list, before, parts);
        let parts = push_part(&self.7, res, unique, &mut list, before, parts);
        close_tuple(res, unique, list, before, parts)
    }
}

/// A tuple of nine emits its nine components, from the first to the last, each
/// under the caller's flag, and offers the tuple of their expressions to the
/// cache.
impl<
    A: Codegen,
    B: Codegen,
    C: Codegen,
    D: Codegen,
    E: Codegen,
    F: Codegen,
    G: Codegen,
    H: Codegen,
    I: Codegen,
> Codegen for (A, B, C, D, E, F, G, H, I) {
    open spec fn emitted(&self, before: Seq<Binding>, unique: bool) -> Emitted {
        let parts = chain_start(before);
        let parts = chain_step(parts, &self.0, unique);
        let parts = chain_step(parts, &self.1, unique);
        let parts = chain_step(parts, &self.2, unique);
        let parts = chain_step(parts, &self.3, unique);
        let parts = chain_step(parts, &self.4, unique);
        let parts = chain_step(parts, &self.5, unique);
        let parts = chain_step(parts, &self.6, unique);
        let parts = chain_step(parts, &self.7, unique);
        let parts = chain_step(parts, &self.8, unique);
        tuple_of(parts, unique)
    }

    fn gen_code(&self, res: &mut CodegenResult, unique: bool) -> (code: TokenStream) {
        let before = Ghost(res@);
        let mut list = new_stream();
        let parts = Ghost(chain_start(res@));
        let parts = push_part(&self.0, res, unique, &mut list, before, parts);
        let parts = push_part(&self.1, res, unique, &mut list, before, parts);
        let parts = push_part(&self.2, res, unique, &mut list, before, parts);
        let parts = push_part(&self.3, res, unique, &mut list, before, parts);
        let parts = push_part(&self.4, res, unique, &mut list, before, parts);
        let parts = push_part(&self.5, res, unique, &mut list, before, parts);
        let parts = push_part(&self.6, res, unique, &mut list, before, parts);
        let parts = push_part(&self.7, res, unique, &mut list, before, parts);
        let parts = push_part(&self.8, res, unique, &mut list, before, parts);
        close_tuple(res, unique, list, before, parts)
    }
}

/// A tuple of ten emits its ten components, from the first to the last, each
/// under the caller's flag, and offers the tuple of their expressions to the
/// cache.
impl<
    A: Codegen,
    B: Codegen,
    C: Codegen,
    D: Codegen,
    E: Codegen,
    F: Codegen,
    G: Codegen,
    H: Codegen,
    I: Codegen,
    J: Codegen,
> Codegen for (A, B, C, D, E, F, G, H, I, J) {
    open spec fn emitted(&self, before: Seq<Binding>, unique: bool) -> Emitted {
        let parts = chain_start(before);
        let parts = chain_step(parts, &self.0, unique);
        let parts = chain_step(parts, &self.1, unique);
        let parts = chain_step(parts, &self.2, unique);
        let parts = chain_step(parts, &self.3, unique);
        let parts = chain_step(parts, &self.4, unique);
        let parts = chain_step(parts, &self.5, unique);
        let parts = chain_step(parts, &self.6, unique);
        let parts = chain_step(parts, &self.7, unique);
        let parts = chain_step(parts, &self.8, unique);
        let parts = chain_step(parts, &self.9, unique);
        tuple_of(parts, unique)
    }

    fn gen_code(&self, res: &mut CodegenResult, unique: bool) -> (code: TokenStream) {
        let before = Ghost(res@);
        let mut list = new_stream();
        let parts = Ghost(chain_start(res@));
        let parts = push_part(&self.0, res, unique, &mut list, before, parts);
        let parts = push_part(&self.1, res, unique, &mut list, before, parts);
        let parts = push_part(&self.2, res, unique, &mut list, before, parts);
        let parts = push_part(&self.3, res, unique, &mut list, before, parts);
        let parts = push_part(&self.4, res, unique, &mut list, before, parts);
        let parts = push_part(&self.5, res, unique, &mut list, before, parts);
        let parts = push_part(&self.6, res, unique, &mut list, before, parts);
        let parts = push_part(&self.7, res, unique, &mut list, before, parts);
        let parts = push_part(&self.8, res, unique, &mut list, before, parts);
        let parts = push_part(&self.9, res, unique, &mut list, before, parts);
        close_tuple(res, unique, list, before, parts)
    }
}

/// A tuple of eleven emits its eleven components, from the first to the last, each
/// under the caller's flag, and offers the tuple of their expressions to the
/// cache.
impl<
    A: Codegen,
    B: Codegen,
    C: Codegen,
    D: Codegen,
    E: Codegen,
    F: Codegen,
    G: Codegen,
    H: Codegen,
    I: Codegen,
    J: Codegen,
    K: Codegen,
> Codegen for (A, B, C, D, E, F, G, H, I, J, K) {
    open spec fn emitted(&self, before: Seq<Binding>, unique: bool) -> Emitted {
        let parts = chain_start(before);
        let parts = chain_step(parts, &self.0, unique);
        let parts = chain_step(parts, &self.1, unique);
        let parts = chain_step(parts, &self.2, unique);
        let parts = chain_step(parts, &self.3, unique);
        let parts = chain_step(parts, &self.4, unique);
        let parts = chain_step(parts, &self.5, unique);
        let parts = chain_step(parts, &self.6, unique);
        let parts = chain_step(parts, &self.7, unique);
        let parts = chain_step(parts, &self.8, unique);
        let parts = chain_step(parts, &self.9, unique);
        let parts = chain_step(parts, &self.10, unique);
        tuple_of(parts, unique)
    }

    fn gen_code(&self, res: &mut CodegenResult, unique: bool) -> (code: TokenStream) {
        let before = Ghost(res@);
        let mut list = new_stream();
        let parts = Ghost(chain_start(res@));
        let parts = push_part(&self.0, res, unique, &mut list, before, parts);
        let parts = push_part(&self.1, res, unique, &mut list, before, parts);
        let parts = push_part(&self.2, res, unique, &mut list, before, parts);
        let parts = push_part(&self.3, res, unique, &mut list, before, parts);
        let parts = push_part(&self.4, res, unique, &mut list, before, parts);
        let parts = push_part(&self.5, res, unique, &mut list, before, parts);
        let parts = push_part(&self.6, res, unique, &mut list, before, parts);
        let parts = push_part(&self.7, res, unique, &mut list, before, parts);
        let parts = push_part(&self.8, res, unique, &mut list, before, parts);
        let parts = push_part(&self.9, res, unique, &mut list, before, parts);
        let parts = push_part(&self.10, res, unique, &mut list, before, parts);
        close_tuple(res, unique, list, before, parts)
    }
}

/// A tuple of twelve emits its twelve components, from the first to the last, each
/// under the caller's flag, and offers the tuple of their expressions to the
/// cache.
impl<
    A: Codegen,
    B: Codegen,
    C: Codegen,
    D: Codegen,
    E: Codegen,
    F: Codegen,
    G: Codegen,
    H: Codegen,
    I: Codegen,
    J: Codegen,
    K: Codegen,
    L: Codegen,
> Codegen for (A, B, C, D, E, F, G, H, I, J, K, L) {
    open spec fn emitted(&self, before: Seq<Binding>, unique: bool) -> Emitted {
        let parts = chain_start(before);
        let parts = chain_step(parts, &self.0, unique);
        let parts = chain_step(parts, &self.1, unique);
        let parts = chain_step(parts, &self.2, unique);
        let parts = chain_step(parts, &self.3, unique);
        let parts = chain_step(parts, &self.4, unique);
        let parts = chain_step(parts, &self.5, unique);
        let parts = chain_step(parts, &self.6, unique);
        let parts = chain_step(parts, &self.7, unique);
        let parts = chain_step(parts, &self.8, unique);
        let parts = chain_step(parts, &self.9, unique);
        let parts = chain_step(parts, &self.10, unique);
        let parts = chain_step(parts, &self.11, unique);
        tuple_of(parts, unique)
    }

    fn gen_code(&self, res: &mut CodegenResult, unique: bool) -> (code: TokenStream) {
        let before = Ghost(res@);
        let mut list = new_stream();
        let parts = Ghost(chain_start(res@));
        let parts = push_part(&self.0, res, unique, &mut list, before, parts);
        let parts = push_part(&self.1, res, unique, &mut list, before, parts);
        let parts = push_part(&self.2, res, unique, &mut list, before, parts);
        let parts = push_part(&self.3, res, unique, &mut list, before, parts);
        let parts = push_part(&self.4, res, unique, &mut list, before, parts);
        let parts = push_part(&self.5, res, unique, &mut list, before, parts);
        let parts = push_part(&self.6, res, unique, &mut list, before, parts);
        let parts = push_part(&self.7, res, unique, &mut list, before, parts);
        let parts = push_part(&self.8, res, unique, &mut list, before, parts);
        let parts = push_part(&self.9, res, unique, &mut list, before, parts);
        let parts = push_part(&self.10, res, unique, &mut list, before, parts);
        let parts = push_part(&self.11, res, unique, &mut list, before, parts);
        close_tuple(res, unique, list, before, parts)
    }
}

} // verus!
