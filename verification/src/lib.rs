//! Turns values into token streams of Rust source that build them again.
//!
//! A [`CodegenResult`] is one serialization session. Every value that
//! implements [`Codegen`] can be emitted into it; an expression that is worth
//! sharing is bound once, by a `let`, and used by its name afterwards. At the
//! end the session is closed into one block that declares the bindings and
//! ends in the expression of the value.

pub mod builder;
pub mod chain;
pub mod containers;
pub mod derive;
pub mod driver;
pub mod laws;
pub mod naming;
pub mod quoting;
pub mod scope;
pub mod session;
pub mod tokens;
pub mod tuples;
pub mod values;

pub use builder::{Named, StructBuilder, Unit, Unnamed};
pub use driver::serialize;
pub use proc_macro2::TokenStream;
pub use quote::format_ident;
pub use session::{Bindings, Codegen, CodegenResult, Emitted};
