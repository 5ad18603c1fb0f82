//! The builder for values of structs and of enum variants: it takes the
//! fields one by one, in the order of their declaration, and writes the
//! constructor.

use crate::quoting::{imported, path_sep, push_path_sep};
use crate::scope::{in_scope, is_plain};
use crate::session::{interned, lawful, Codegen, CodegenResult};
use crate::tokens::{
    ident_text, new_stream, push_group, push_ident, push_punct, push_stream, push_word,
    stream_tokens, Delim, Token,
};
use proc_macro2::{Ident, TokenStream};
use std::marker::PhantomData;
use vstd::prelude::*;

verus! {

broadcast use crate::scope::group_scope;

/// Marks the builder of a value with named fields: `Name { a: .., b: .. }`.
pub struct Named;

/// Marks the builder of a value with fields by position: `Name(.., ..)`.
pub struct Unnamed;

/// Marks the builder of a value without fields: `Name`.
pub struct Unit;

/// What a builder holds.
pub struct Shape {
    /// The name of the type.
    pub name: Seq<char>,
    /// Nothing for a struct; `::<Variant>` for a variant of an enum.
    pub variant: Seq<Token>,
    /// The fields taken so far, each as it is written in the constructor.
    pub fields: Seq<Seq<Token>>,
    /// Whether the value and its fields are written in place.
    pub unique: bool,
}

/// Accumulates the fields of one value and writes its constructor.
pub struct StructBuilder<Type> {
    name: Ident,
    variant: Option<TokenStream>,
    fields: Vec<TokenStream>,
    unique: bool,
    _marker: PhantomData<Type>,
}

/// The tokens behind the type's name: `::<Variant>` for a variant.
pub open spec fn variant_path(variant: Option<Ident>) -> Seq<Token> {
    match variant {
        Some(id) => path_sep() + seq![Token::Ident(ident_text(id))],
        None => Seq::empty(),
    }
}

/// One named field of a constructor: `<name>: <value>,`.
pub open spec fn named_field(name: Seq<char>, value: Seq<Token>) -> Seq<Token> {
    seq![Token::Ident(name), Token::Punct(':', false)] + value + seq![Token::Punct(',', false)]
}

/// One field by position of a constructor: `<value>,`.
pub open spec fn unnamed_field(value: Seq<Token>) -> Seq<Token> {
    value + seq![Token::Punct(',', false)]
}

/// The parts, one after the other.
pub open spec fn flatten(parts: Seq<Seq<Token>>) -> Seq<Token>
    decreases parts.len(),
{
    if parts.len() == 0 {
        Seq::empty()
    } else {
        flatten(parts.drop_last()) + parts.last()
    }
}

/// Parts with one more part are the parts put together, and the part.
pub proof fn lemma_flatten_push(parts: Seq<Seq<Token>>, part: Seq<Token>)
    ensures
        flatten(parts.push(part)) == flatten(parts) + part,
{
    assert(parts.push(part).drop_last() =~= parts);
}

/// The path of the value's constructor: `structdump_import::<Name>[::<Variant>]`.
pub open spec fn constructor(shape: Shape) -> Seq<Token> {
    imported(shape.name) + shape.variant
}

/// The constructor with named fields: `<path> { <fields> }`.
pub open spec fn named_code(shape: Shape) -> Seq<Token> {
    constructor(shape) + seq![Token::Group(Delim::Brace, flatten(shape.fields))]
}

/// The constructor with fields by position: `<path>(<fields>)`.
pub open spec fn unnamed_code(shape: Shape) -> Seq<Token> {
    constructor(shape) + seq![Token::Group(Delim::Parenthesis, flatten(shape.fields))]
}

/// Parts that are all in scope are in scope when put together.
pub proof fn lemma_flatten_scope(parts: Seq<Seq<Token>>, n: nat)
    requires
        forall|i: int| 0 <= i < parts.len() ==> in_scope(#[trigger] parts[i], n),
    ensures
        in_scope(flatten(parts), n),
    decreases parts.len(),
{
    if parts.len() > 0 {
        assert forall|i: int| 0 <= i < parts.drop_last().len() implies in_scope(
            #[trigger] parts.drop_last()[i],
            n,
        ) by {
            assert(parts.drop_last()[i] == parts[i]);
        }
        lemma_flatten_scope(parts.drop_last(), n);
        assert(in_scope(parts.last(), n));
    }
}

/// A constructor names what its fields name, as long as the names of the
/// type, of the variant and of the fields are not themselves names of
/// bindings.
pub proof fn lemma_constructor_scope(shape: Shape, n: nat)
    requires
        is_plain(shape.name),
        in_scope(shape.variant, n),
        forall|i: int| 0 <= i < shape.fields.len() ==> in_scope(#[trigger] shape.fields[i], n),
    ensures
        in_scope(constructor(shape), n),
        in_scope(named_code(shape), n),
        in_scope(unnamed_code(shape), n),
        in_scope(imported(shape.name), n),
{
    crate::quoting::lemma_imported_scope(shape.name, n);
    lemma_flatten_scope(shape.fields, n);
}

/// Writes the parts one after the other.
fn concat(parts: &Vec<TokenStream>) -> (all: TokenStream)
    ensures
        stream_tokens(all) == flatten(parts@.map_values(|part: TokenStream| stream_tokens(part))),
{
    let ghost tokens = parts@.map_values(|part: TokenStream| stream_tokens(part));
    let mut all = new_stream();
    let mut i: usize = 0;
    assert(tokens.take(0) =~= Seq::<Seq<Token>>::empty());
    while i < parts.len()
        invariant
            i <= parts.len(),
            tokens == parts@.map_values(|part: TokenStream| stream_tokens(part)),
            stream_tokens(all) == flatten(tokens.take(i as int)),
        decreases parts.len() - i,
    {
        push_stream(&mut all, &parts[i]);
        proof {
            let next = tokens.take(i + 1);
            assert(next.drop_last() =~= tokens.take(i as int));
            assert(next.last() == stream_tokens(parts[i as int]));
        }
        i = i + 1;
    }
    assert(tokens.take(i as int) =~= tokens);
    all
}

impl<Type> View for StructBuilder<Type> {
    type V = Shape;

    closed spec fn view(&self) -> Shape {
        Shape {
            name: ident_text(self.name),
            variant: match self.variant {
                Some(path) => stream_tokens(path),
                None => Seq::empty(),
            },
            fields: self.fields@.map_values(|field: TokenStream| stream_tokens(field)),
            unique: self.unique,
        }
    }
}

impl<Type> StructBuilder<Type> {
    /// Starts the value of the struct `name`, or of the variant `variant` of
    /// the enum `name`. With `unique` set, the value and its fields are
    /// written in place.
    pub fn new(name: Ident, variant: Option<Ident>, unique: bool) -> (builder: Self)
        ensures
            builder@ == (Shape {
                name: ident_text(name),
                variant: variant_path(variant),
                fields: Seq::empty(),
                unique,
            }),
    {
        let variant = match variant {
            Some(id) => {
                let mut path = new_stream();
                push_path_sep(&mut path);
                push_ident(&mut path, &id);
                assert(stream_tokens(path) =~= variant_path(Some(id)));
                Some(path)
            },
            None => None,
        };
        let builder = StructBuilder { name, variant, fields: Vec::new(), unique, _marker: PhantomData };
        assert(builder@.fields =~= Seq::empty());
        builder
    }

    /// Writes `structdump_import::<Name>[::<Variant>]`.
    fn constructor_tokens(&self) -> (path: TokenStream)
        ensures
            stream_tokens(path) == constructor(self@),
    {
        proof {
            crate::quoting::lemma_import_word();
        }
        let mut path = new_stream();
        push_word(&mut path, "structdump_import");
        push_path_sep(&mut path);
        push_ident(&mut path, &self.name);
        assert(stream_tokens(path) =~= imported(self@.name));
        match &self.variant {
            Some(variant) => {
                push_stream(&mut path, variant);
            },
            None => {
                assert(stream_tokens(path) =~= constructor(self@));
            },
        }
        path
    }

    /// Writes `structdump_import::<Name>`.
    fn type_tokens(&self) -> (path: TokenStream)
        ensures
            stream_tokens(path) == imported(self@.name),
    {
        proof {
            crate::quoting::lemma_import_word();
        }
        let mut path = new_stream();
        push_word(&mut path, "structdump_import");
        push_path_sep(&mut path);
        push_ident(&mut path, &self.name);
        assert(stream_tokens(path) =~= imported(self@.name));
        path
    }
}

impl StructBuilder<Named> {
    /// Emits `value` into the session, under the builder's flag, and takes
    /// the result as the field `name`.
    pub fn field<T: Codegen>(self, res: &mut CodegenResult, name: Ident, value: &T) -> (builder:
        Self)
        requires
            old(res).wf(),
        ensures
            final(res).wf(),
            final(res)@ == value.emitted(old(res)@, self@.unique).bindings,
            lawful(old(res)@, self@.unique, value.emitted(old(res)@, self@.unique)),
            builder@ == (Shape {
                fields: self@.fields.push(
                    named_field(ident_text(name), value.emitted(old(res)@, self@.unique).code),
                ),
                ..self@
            }),
    {
        let mut builder = self;
        let val = res.add_value(value, builder.unique);
        let mut field = new_stream();
        push_ident(&mut field, &name);
        push_punct(&mut field, ':', false);
        push_stream(&mut field, &val);
        push_punct(&mut field, ',', false);
        assert(stream_tokens(field) =~= named_field(ident_text(name), stream_tokens(val)));
        builder.fields.push(field);
        assert(builder@.fields =~= self@.fields.push(stream_tokens(field)));
        builder
    }

    /// Writes the constructor and offers it to the cache, under the
    /// builder's flag, with the type's path as the type of the binding.
    pub fn build(self, res: &mut CodegenResult) -> (code: TokenStream)
        requires
            old(res).wf(),
        ensures
            final(res).wf(),
            stream_tokens(code) == interned(
                old(res)@,
                named_code(self@),
                Some(imported(self@.name)),
                self@.unique,
            ).code,
            final(res)@ == interned(
                old(res)@,
                named_code(self@),
                Some(imported(self@.name)),
                self@.unique,
            ).bindings,
    {
        let mut code = self.constructor_tokens();
        push_group(&mut code, Delim::Brace, concat(&self.fields));
        assert(stream_tokens(code) =~= named_code(self@));
        res.add_code(code, Some(self.type_tokens()), self.unique)
    }
}

impl StructBuilder<Unnamed> {
    /// Emits `value` into the session, under the builder's flag, and takes
    /// the result as the next field.
    pub fn field<T: Codegen>(self, res: &mut CodegenResult, value: &T) -> (builder: Self)
        requires
            old(res).wf(),
        ensures
            final(res).wf(),
            final(res)@ == value.emitted(old(res)@, self@.unique).bindings,
            lawful(old(res)@, self@.unique, value.emitted(old(res)@, self@.unique)),
            builder@ == (Shape {
                fields: self@.fields.push(
                    unnamed_field(value.emitted(old(res)@, self@.unique).code),
                ),
                ..self@
            }),
    {
        let mut builder = self;
        let val = res.add_value(value, builder.unique);
        let mut field = new_stream();
        push_stream(&mut field, &val);
        push_punct(&mut field, ',', false);
        assert(stream_tokens(field) =~= unnamed_field(stream_tokens(val)));
        builder.fields.push(field);
        assert(builder@.fields =~= self@.fields.push(stream_tokens(field)));
        builder
    }

    /// Writes the constructor and offers it to the cache, under the
    /// builder's flag, with the type's path as the type of the binding.
    pub fn build(self, res: &mut CodegenResult) -> (code: TokenStream)
        requires
            old(res).wf(),
        ensures
            final(res).wf(),
            stream_tokens(code) == interned(
                old(res)@,
                unnamed_code(self@),
                Some(imported(self@.name)),
                self@.unique,
            ).code,
            final(res)@ == interned(
                old(res)@,
                unnamed_code(self@),
                Some(imported(self@.name)),
                self@.unique,
            ).bindings,
    {
        let mut code = self.constructor_tokens();
        push_group(&mut code, Delim::Parenthesis, concat(&self.fields));
        assert(stream_tokens(code) =~= unnamed_code(self@));
        res.add_code(code, Some(self.type_tokens()), self.unique)
    }
}

impl StructBuilder<Unit> {
    /// Writes the constructor, which is the path alone, and offers it to the
    /// cache, under the builder's flag, with the type's path as the type of
    /// the binding.
    pub fn build(self, res: &mut CodegenResult) -> (code: TokenStream)
        requires
            old(res).wf(),
        ensures
            final(res).wf(),
            stream_tokens(code) == interned(
                old(res)@,
                constructor(self@),
                Some(imported(self@.name)),
                self@.unique,
            ).code,
            final(res)@ == interned(
                old(res)@,
                constructor(self@),
                Some(imported(self@.name)),
                self@.unique,
            ).bindings,
    {
        let code = self.constructor_tokens();
        res.add_code(code, Some(self.type_tokens()), self.unique)
    }
}

} // verus!
