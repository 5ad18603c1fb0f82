//! Values that are emitted one after the other, each into the session as the
//! one before left it: the elements of a sequence, the components of a tuple,
//! the fields of a struct.

use crate::scope::{in_scope, lemma_scope_grows, ty_in_scope};
use crate::session::{
    distinct_keys, interned, keyed_by_text, lawful, lemma_interned, scoped, Binding, Codegen,
    Emitted,
};
use crate::tokens::Token;
use vstd::prelude::*;

verus! {

broadcast use crate::scope::group_scope;

/// The expressions of the values emitted so far, in their order, and the
/// bindings of the session after the last of them.
pub struct Chain {
    pub codes: Seq<Seq<Token>>,
    pub bindings: Seq<Binding>,
}

/// Nothing emitted yet.
pub open spec fn chain_start(before: Seq<Binding>) -> Chain {
    Chain { codes: Seq::empty(), bindings: before }
}

/// One more value emitted.
pub open spec fn chain_step<T: Codegen>(chain: Chain, value: &T, unique: bool) -> Chain {
    Chain {
        codes: chain.codes.push(value.emitted(chain.bindings, unique).code),
        bindings: value.emitted(chain.bindings, unique).bindings,
    }
}

/// All the items emitted, from the first to the last.
pub open spec fn chain_all<T: Codegen>(items: Seq<T>, before: Seq<Binding>, unique: bool) -> Chain
    decreases items.len(),
{
    if items.len() == 0 {
        chain_start(before)
    } else {
        chain_step(chain_all(items.drop_last(), before, unique), &items.last(), unique)
    }
}

/// The rules of the session, for several values: see `lawful`.
pub open spec fn chain_lawful(before: Seq<Binding>, unique: bool, chain: Chain) -> bool {
    &&& before.is_prefix_of(chain.bindings)
    &&& unique ==> chain.bindings == before
    &&& distinct_keys(before) ==> distinct_keys(chain.bindings)
    &&& keyed_by_text(before) ==> keyed_by_text(chain.bindings)
    &&& scoped(before) ==> scoped(chain.bindings) && forall|i: int|
        0 <= i < chain.codes.len() ==> in_scope(#[trigger] chain.codes[i], chain.bindings.len())
}

/// One more value that keeps to the rules leaves the rules kept.
pub proof fn lemma_chain_step<T: Codegen>(
    before: Seq<Binding>,
    chain: Chain,
    value: &T,
    unique: bool,
)
    requires
        chain_lawful(before, unique, chain),
        lawful(chain.bindings, unique, value.emitted(chain.bindings, unique)),
    ensures
        chain_lawful(before, unique, chain_step(chain, value, unique)),
{
    let next = chain_step(chain, value, unique);
    if scoped(before) {
        assert forall|i: int| 0 <= i < next.codes.len() implies in_scope(
            #[trigger] next.codes[i],
            next.bindings.len(),
        ) by {
            if i < chain.codes.len() {
                assert(next.codes[i] == chain.codes[i]);
                lemma_scope_grows(chain.codes[i], chain.bindings.len(), next.bindings.len());
            }
        }
    }
}

/// A value that emits its parts and then offers to the cache an expression
/// made of theirs keeps to the rules.
pub proof fn lemma_chain_interned(
    before: Seq<Binding>,
    chain: Chain,
    code: Seq<Token>,
    ty: Option<Seq<Token>>,
    unique: bool,
)
    requires
        chain_lawful(before, unique, chain),
        scoped(before) ==> in_scope(code, chain.bindings.len()) && ty_in_scope(
            ty,
            chain.bindings.len(),
        ),
    ensures
        lawful(before, unique, interned(chain.bindings, code, ty, unique)),
{
    lemma_interned(chain.bindings, code, ty, unique);
}

/// A value that emits one part and then offers to the cache an expression
/// made of the part's keeps to the rules.
pub proof fn lemma_lawful_interned(
    before: Seq<Binding>,
    part: Emitted,
    inner_unique: bool,
    code: Seq<Token>,
    ty: Option<Seq<Token>>,
    unique: bool,
)
    requires
        lawful(before, inner_unique, part),
        unique ==> inner_unique,
        scoped(before) ==> in_scope(code, part.bindings.len()) && ty_in_scope(
            ty,
            part.bindings.len(),
        ),
    ensures
        lawful(before, unique, interned(part.bindings, code, ty, unique)),
{
    lemma_interned(part.bindings, code, ty, unique);
}

/// The expressions with a comma between each two: `a, b, c`.
pub open spec fn separated(codes: Seq<Seq<Token>>) -> Seq<Token>
    decreases codes.len(),
{
    if codes.len() == 0 {
        Seq::empty()
    } else if codes.len() == 1 {
        codes[0]
    } else {
        separated(codes.drop_last()) + seq![Token::Punct(',', false)] + codes.last()
    }
}

/// The expressions with a comma behind each: `a, b, c,`.
pub open spec fn terminated(codes: Seq<Seq<Token>>) -> Seq<Token>
    decreases codes.len(),
{
    if codes.len() == 0 {
        Seq::empty()
    } else {
        terminated(codes.drop_last()) + codes.last() + seq![Token::Punct(',', false)]
    }
}

/// A list of expressions names what the expressions name.
pub proof fn lemma_list_scope(codes: Seq<Seq<Token>>, n: nat)
    requires
        forall|i: int| 0 <= i < codes.len() ==> in_scope(#[trigger] codes[i], n),
    ensures
        in_scope(separated(codes), n),
        in_scope(terminated(codes), n),
    decreases codes.len(),
{
    if codes.len() > 0 {
        assert forall|i: int| 0 <= i < codes.drop_last().len() implies in_scope(
            #[trigger] codes.drop_last()[i],
            n,
        ) by {
            assert(codes.drop_last()[i] == codes[i]);
        }
        lemma_list_scope(codes.drop_last(), n);
        assert(in_scope(codes.last(), n));
        assert(in_scope(codes[0], n));
    }
}

/// A list with one more expression is the list, the expression and a comma.
pub proof fn lemma_terminated_push(codes: Seq<Seq<Token>>, code: Seq<Token>)
    ensures
        terminated(codes.push(code)) == terminated(codes) + code + seq![Token::Punct(',', false)],
{
    assert(codes.push(code).drop_last() =~= codes);
}

} // verus!
