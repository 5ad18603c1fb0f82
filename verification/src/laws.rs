//! What holds of every session and of every value, stated over the models of
//! the other modules.

use crate::driver::serialized;
use crate::naming::binding_name;
use crate::scope::{in_scope, token_in_scope, ty_in_scope};
use crate::session::{
    binding_key, distinct_keys, handle, has_key, interned, key_index, scoped, statement, Binding,
    Codegen, Emitted,
};
use crate::tokens::{token_text, Token};
use vstd::prelude::*;

verus! {

/// Serializing is a function of the value: equal values give blocks of the
/// same tokens, and so of the same text, whatever session they are emitted
/// into, as long as the sessions hold the same bindings.
pub proof fn law_deterministic<T: Codegen>(
    first: &T,
    second: &T,
    before: Seq<Binding>,
    unique: bool,
)
    requires
        *first == *second,
    ensures
        first.emitted(before, unique) == second.emitted(before, unique),
        serialized(first) == serialized(second),
        token_text(serialized(first)) == token_text(serialized(second)),
{
}

/// Code that is offered to the cache while a binding holds code of the same
/// text is not bound again: the session stays as it is, and what comes back
/// is the handle of that one binding, the same that came back when the
/// binding was made.
///
/// `later` is any session that the one after the first offer has grown into.
pub proof fn law_dedup(
    bindings: Seq<Binding>,
    first: Seq<Token>,
    first_ty: Option<Seq<Token>>,
    later: Seq<Binding>,
    second: Seq<Token>,
    second_ty: Option<Seq<Token>>,
)
    requires
        distinct_keys(later),
        interned(bindings, first, first_ty, false).bindings.is_prefix_of(later),
        token_text(first) == token_text(second),
    ensures
        interned(later, second, second_ty, false).bindings == later,
        interned(later, second, second_ty, false).code == interned(
            bindings,
            first,
            first_ty,
            false,
        ).code,
        forall|i: int, j: int|
            0 <= i < later.len() && 0 <= j < later.len() && binding_key(later[i]) == token_text(
                first,
            ) && binding_key(later[j]) == token_text(first) ==> i == j,
{
    let key = token_text(first);
    let once = interned(bindings, first, first_ty, false);
    let at = if has_key(bindings, key) {
        key_index(bindings, key)
    } else {
        bindings.len() as int
    };
    assert(0 <= at < once.bindings.len());
    assert(binding_key(once.bindings[at]) == key);
    assert(once.code == handle(at as nat));
    assert(later[at] == once.bindings[at]);
    assert(binding_key(later[at]) == key);
    let again = key_index(later, key);
    assert(binding_key(later[again]) == key);
    assert(again == at);
    assert forall|i: int, j: int|
        0 <= i < later.len() && 0 <= j < later.len() && binding_key(later[i]) == key
            && binding_key(later[j]) == key implies i == j by {
        if i < j {
            assert(binding_key(later[i]) != binding_key(later[j]));
        }
        if j < i {
            assert(binding_key(later[j]) != binding_key(later[i]));
        }
    }
}

/// Offering code to the cache leaves every binding with a text of its own.
pub proof fn law_one_binding_per_text(
    bindings: Seq<Binding>,
    code: Seq<Token>,
    ty: Option<Seq<Token>>,
    unique: bool,
)
    requires
        distinct_keys(bindings),
    ensures
        distinct_keys(interned(bindings, code, ty, unique).bindings),
        !unique ==> has_key(interned(bindings, code, ty, unique).bindings, token_text(code)),
{
    crate::session::lemma_interned(bindings, code, ty, unique);
    let after = interned(bindings, code, ty, unique).bindings;
    if !unique && !has_key(bindings, token_text(code)) {
        assert(binding_key(after[bindings.len() as int]) == token_text(code));
    }
}

/// Offering code that names only bindings which exist keeps the order: the
/// new binding, if one is made, names only bindings before it, and the
/// handle that comes back names a binding that exists.
pub proof fn law_ordering_of_offers(
    bindings: Seq<Binding>,
    code: Seq<Token>,
    ty: Option<Seq<Token>>,
    unique: bool,
)
    requires
        scoped(bindings),
        in_scope(code, bindings.len()),
        ty_in_scope(ty, bindings.len()),
    ensures
        scoped(interned(bindings, code, ty, unique).bindings),
        in_scope(
            interned(bindings, code, ty, unique).code,
            interned(bindings, code, ty, unique).bindings.len(),
        ),
{
    crate::session::lemma_interned(bindings, code, ty, unique);
}

/// In a session whose bindings are in order, the statement of a binding
/// names, besides the binding that it declares, only bindings that were
/// declared before it.
pub proof fn law_statements_in_order(bindings: Seq<Binding>, i: int)
    requires
        scoped(bindings),
        0 <= i < bindings.len(),
    ensures
        in_scope(statement(i as nat, bindings[i]), (i + 1) as nat),
        !in_scope(statement(i as nat, bindings[i]), i as nat),
{
    broadcast use crate::scope::group_scope;

    reveal_strlit("let");
    assert(crate::scope::is_plain("let"@));
    let b = bindings[i];
    crate::scope::lemma_binding_name_scope(i as nat, (i + 1) as nat);
    crate::scope::lemma_binding_name_scope(i as nat, i as nat);
    crate::scope::lemma_scope_grows(b.code, i as nat, (i + 1) as nat);
    match b.ty {
        Some(tokens) => {
            crate::scope::lemma_scope_grows(tokens, i as nat, (i + 1) as nat);
        },
        None => {},
    }
}

/// Code that is offered with `unique` set comes back as it is, and the
/// session holds the bindings that it held before.
pub proof fn law_unique_offer(bindings: Seq<Binding>, code: Seq<Token>, ty: Option<Seq<Token>>)
    ensures
        interned(bindings, code, ty, true) == (Emitted { code, bindings }),
{
}

/// The names of two bindings are equal only if the bindings are the same.
pub proof fn law_names_are_unique(a: nat, b: nat)
    ensures
        binding_name(a) == binding_name(b) <==> a == b,
        token_in_scope(Token::Ident(binding_name(a)), b) <==> a < b,
{
    if binding_name(a) == binding_name(b) {
        crate::naming::lemma_binding_name_injective(a, b);
    }
    crate::scope::lemma_binding_name_scope(a, b);
}

} // verus!
