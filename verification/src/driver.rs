//! The one call that turns a value into a block of code.

use crate::session::{artifact, lawful, Binding, Codegen, CodegenResult};
use crate::tokens::{stream_tokens, Token};
use proc_macro2::TokenStream;
use vstd::prelude::*;

verus! {

/// The block that a value is serialized to: the value emitted into an empty
/// session, with nothing forced in place, and the session closed over it.
pub open spec fn serialized<T: Codegen>(value: &T) -> Seq<Token> {
    artifact(
        value.emitted(Seq::<Binding>::empty(), false).bindings,
        value.emitted(Seq::<Binding>::empty(), false).code,
    )
}

/// Serializes a value in a session of its own: the block declares every
/// binding that the value needs and ends in the value's expression.
pub fn serialize<T: Codegen>(value: &T) -> (block: TokenStream)
    ensures
        stream_tokens(block) == serialized(value),
        lawful(Seq::empty(), false, value.emitted(Seq::empty(), false)),
{
    let mut res = CodegenResult::default();
    res.codegen(value, false)
}

} // verus!
