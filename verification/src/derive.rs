//! The code of a `Codegen` implementation for a struct or an enum, written
//! from the shape of the type: the implementation takes the value apart and
//! hands its fields to a `StructBuilder`, in the order of their declaration.

use crate::builder::{flatten, lemma_flatten_push};
use crate::chain::{lemma_terminated_push, terminated};
use crate::naming::{positional_name, positional_name_text};
use crate::quoting::{parenthesized, path_sep, push_parenthesized, push_path_sep};
use crate::tokens::{
    ident_string, ident_text, is_word, new_stream, push_group, push_ident, push_punct, push_stream,
    push_word, stream_tokens, Delim, Token,
};
use crate::values::{str_code, str_tokens};
use proc_macro2::{Ident, TokenStream};
use vstd::prelude::*;

verus! {

/// The fields of a struct or of a variant.
pub enum Fields {
    /// Fields with names, in the order of their declaration.
    Named(Vec<Ident>),
    /// So many fields without names.
    Unnamed(usize),
    /// No fields.
    Unit,
}

/// One variant of an enum.
pub struct Variant {
    pub name: Ident,
    pub fields: Fields,
}

/// What a type is made of.
pub enum Data {
    Struct(Fields),
    Enum(Vec<Variant>),
}

/// The fields of a struct or of a variant, by their names.
pub enum FieldsModel {
    Named(Seq<Seq<char>>),
    Unnamed(nat),
    Unit,
}

/// One variant of an enum, by its names.
pub struct VariantModel {
    pub name: Seq<char>,
    pub fields: FieldsModel,
}

/// What a type is made of, by its names.
pub enum DataModel {
    Struct(FieldsModel),
    Enum(Seq<VariantModel>),
}

impl View for Fields {
    type V = FieldsModel;

    open spec fn view(&self) -> FieldsModel {
        match self {
            Fields::Named(names) => FieldsModel::Named(
                names@.map_values(|id: Ident| ident_text(id)),
            ),
            Fields::Unnamed(count) => FieldsModel::Unnamed(*count as nat),
            Fields::Unit => FieldsModel::Unit,
        }
    }
}

impl View for Variant {
    type V = VariantModel;

    open spec fn view(&self) -> VariantModel {
        VariantModel { name: ident_text(self.name), fields: self.fields@ }
    }
}

impl View for Data {
    type V = DataModel;

    open spec fn view(&self) -> DataModel {
        match self {
            Data::Struct(fields) => DataModel::Struct(fields@),
            Data::Enum(variants) => DataModel::Enum(
                variants@.map_values(|variant: Variant| variant@),
            ),
        }
    }
}

/// The path of an item of this crate: `::structdump::<item>`.
pub open spec fn crate_path(item: Seq<char>) -> Seq<Token> {
    path_sep() + seq![Token::Ident("structdump"@)] + path_sep() + seq![Token::Ident(item)]
}

/// The expression that makes an identifier: `::structdump::format_ident!("<name>")`.
pub open spec fn ident_call(name: Seq<char>) -> Seq<Token> {
    crate_path("format_ident"@) + seq![Token::Punct('!', false)] + parenthesized(str_code(name))
}

/// Each name as one identifier.
pub open spec fn words(names: Seq<Seq<char>>) -> Seq<Seq<Token>> {
    names.map_values(|name: Seq<char>| seq![Token::Ident(name)])
}

/// The names that stand for the first `count` positions.
pub open spec fn positional(count: nat) -> Seq<Seq<char>> {
    Seq::new(count, |i: int| positional_name(i as nat))
}

/// The pattern that takes a value apart: `{ a, b, }` for named fields,
/// `(f0, f1, )` for fields by position, nothing for no fields.
pub open spec fn pattern(fields: FieldsModel) -> Seq<Token> {
    match fields {
        FieldsModel::Named(names) => seq![Token::Group(Delim::Brace, terminated(words(names)))],
        FieldsModel::Unnamed(count) => parenthesized(terminated(words(positional(count)))),
        FieldsModel::Unit => Seq::empty(),
    }
}

/// The tag that the builder is given: `Some(<identifier>)` for a variant,
/// `None` for a struct.
pub open spec fn variant_arg(variant: Option<Seq<char>>) -> Seq<Token> {
    match variant {
        Some(name) => seq![Token::Ident("Some"@)] + parenthesized(ident_call(name)),
        None => seq![Token::Ident("None"@)],
    }
}

/// The start of the builder:
/// `<::structdump::StructBuilder<::structdump::<Kind>>>::new(<name>, <tag>, unique)`.
pub open spec fn builder_new(kind: Seq<char>, name: Seq<char>, variant: Option<Seq<char>>) -> Seq<
    Token,
> {
    seq![Token::Punct('<', false)] + crate_path("StructBuilder"@) + seq![
        Token::Punct('<', false),
    ] + crate_path(kind) + seq![Token::Punct('>', true), Token::Punct('>', false)] + path_sep()
        + seq![Token::Ident("new"@)] + parenthesized(
        ident_call(name) + seq![Token::Punct(',', false)] + variant_arg(variant) + seq![
            Token::Punct(',', false),
            Token::Ident("unique"@),
        ],
    )
}

/// The call that hands over a named field: `.field(res, <identifier>, <name>)`.
pub open spec fn named_call(name: Seq<char>) -> Seq<Token> {
    seq![Token::Punct('.', false), Token::Ident("field"@)] + parenthesized(
        seq![Token::Ident("res"@), Token::Punct(',', false)] + ident_call(name) + seq![
            Token::Punct(',', false),
            Token::Ident(name),
        ],
    )
}

/// The call that hands over a field by position: `.field(res, <name>)`.
pub open spec fn positional_call(name: Seq<char>) -> Seq<Token> {
    seq![Token::Punct('.', false), Token::Ident("field"@)] + parenthesized(
        seq![Token::Ident("res"@), Token::Punct(',', false), Token::Ident(name)],
    )
}

/// The call that ends the builder: `.build(<args>)`.
pub open spec fn build_call(args: Seq<Token>) -> Seq<Token> {
    seq![Token::Punct('.', false), Token::Ident("build"@)] + parenthesized(args)
}

/// The expression that builds the code of a value from its fields: the
/// builder, one call for each field in the order of the declaration, and the
/// call that ends it.
pub open spec fn body(name: Seq<char>, variant: Option<Seq<char>>, fields: FieldsModel) -> Seq<
    Token,
> {
    match fields {
        FieldsModel::Named(names) => builder_new("Named"@, name, variant) + flatten(
            names.map_values(|field: Seq<char>| named_call(field)),
        ) + build_call(seq![Token::Ident("res"@)]),
        FieldsModel::Unnamed(count) => builder_new("Unnamed"@, name, variant) + flatten(
            positional(count).map_values(|field: Seq<char>| positional_call(field)),
        ) + build_call(seq![Token::Ident("res"@)]),
        FieldsModel::Unit => builder_new("Unit"@, name, variant) + build_call(
            seq![Token::Ident("res"@)],
        ),
    }
}

/// One arm of the `match` over an enum:
/// `<Name>::<Variant> <pattern> => { <body> },`.
pub open spec fn arm(name: Seq<char>, variant: VariantModel) -> Seq<Token> {
    seq![Token::Ident(name)] + path_sep() + seq![Token::Ident(variant.name)] + pattern(
        variant.fields,
    ) + seq![
        Token::Punct('=', true),
        Token::Punct('>', false),
        Token::Group(Delim::Brace, body(name, Some(variant.name), variant.fields)),
        Token::Punct(',', false),
    ]
}

/// What the method does: a struct is taken apart by one `let`, an enum by a
/// `match` with one arm for each variant, in the order of the declaration.
pub open spec fn method_body(name: Seq<char>, data: DataModel) -> Seq<Token> {
    match data {
        DataModel::Struct(fields) => seq![Token::Ident("let"@), Token::Ident(name)] + pattern(
            fields,
        ) + seq![
            Token::Punct('=', false),
            Token::Punct('&', false),
            Token::Ident("self"@),
            Token::Punct(';', false),
        ] + body(name, None, fields),
        DataModel::Enum(variants) => seq![
            Token::Ident("match"@),
            Token::Punct('&', false),
            Token::Ident("self"@),
            Token::Group(
                Delim::Brace,
                flatten(variants.map_values(|variant: VariantModel| arm(name, variant))),
            ),
        ],
    }
}

/// The parameters of the method:
/// `&self, res: &mut ::structdump::CodegenResult, unique: bool`.
pub open spec fn method_params() -> Seq<Token> {
    seq![
        Token::Punct('&', false),
        Token::Ident("self"@),
        Token::Punct(',', false),
        Token::Ident("res"@),
        Token::Punct(':', false),
        Token::Punct('&', false),
        Token::Ident("mut"@),
    ] + crate_path("CodegenResult"@) + seq![
        Token::Punct(',', false),
        Token::Ident("unique"@),
        Token::Punct(':', false),
        Token::Ident("bool"@),
    ]
}

/// The method that emits the value:
/// `fn gen_code(<params>) -> ::structdump::TokenStream { <body> }`.
pub open spec fn method(name: Seq<char>, data: DataModel) -> Seq<Token> {
    seq![Token::Ident("fn"@), Token::Ident("gen_code"@)] + parenthesized(method_params()) + seq![
        Token::Punct('-', true),
        Token::Punct('>', false),
    ] + crate_path("TokenStream"@) + seq![Token::Group(Delim::Brace, method_body(name, data))]
}

/// The parameters of the function of specifications:
/// `&self, _before: ::structdump::Bindings, _unique: bool`.
pub open spec fn model_params() -> Seq<Token> {
    seq![
        Token::Punct('&', false),
        Token::Ident("self"@),
        Token::Punct(',', false),
        Token::Ident("_before"@),
        Token::Punct(':', false),
    ] + crate_path("Bindings"@) + seq![
        Token::Punct(',', false),
        Token::Ident("_unique"@),
        Token::Punct(':', false),
        Token::Ident("bool"@),
    ]
}

/// The function of specifications, which the written implementation has to
/// hold and which is never called:
/// `fn emitted(<params>) -> ::structdump::Emitted { unreachable!() }`.
pub open spec fn model() -> Seq<Token> {
    seq![Token::Ident("fn"@), Token::Ident("emitted"@)] + parenthesized(model_params()) + seq![
        Token::Punct('-', true),
        Token::Punct('>', false),
    ] + crate_path("Emitted"@) + seq![
        Token::Group(
            Delim::Brace,
            seq![Token::Ident("unreachable"@), Token::Punct('!', false)] + parenthesized(
                Seq::empty(),
            ),
        ),
    ]
}

/// The implementation:
/// `impl ::structdump::Codegen for <Name> { <method> <function of specifications> }`.
///
/// The implementation stands outside of verified code: it says nothing of
/// what the value emits.
pub open spec fn impl_code(name: Seq<char>, data: DataModel) -> Seq<Token> {
    seq![Token::Ident("impl"@)] + crate_path("Codegen"@) + seq![
        Token::Ident("for"@),
        Token::Ident(name),
        Token::Group(Delim::Brace, method(name, data) + model()),
    ]
}

/// The words that the written code is made of are words.
proof fn lemma_vocabulary()
    ensures
        is_word("structdump"@),
        is_word("format_ident"@),
        is_word("StructBuilder"@),
        is_word("CodegenResult"@),
        is_word("TokenStream"@),
        is_word("Codegen"@),
        is_word("Named"@),
        is_word("Unnamed"@),
        is_word("Unit"@),
        is_word("Some"@),
        is_word("None"@),
        is_word("new"@),
        is_word("unique"@),
        is_word("field"@),
        is_word("build"@),
        is_word("res"@),
        is_word("let"@),
        is_word("self"@),
        is_word("match"@),
        is_word("mut"@),
        is_word("bool"@),
        is_word("impl"@),
        is_word("for"@),
        is_word("fn"@),
        is_word("gen_code"@),
        is_word("emitted"@),
        is_word("Emitted"@),
        is_word("Bindings"@),
        is_word("_before"@),
        is_word("_unique"@),
        is_word("unreachable"@),
{
    reveal_strlit("structdump");
    reveal_strlit("format_ident");
    reveal_strlit("StructBuilder");
    reveal_strlit("CodegenResult");
    reveal_strlit("TokenStream");
    reveal_strlit("Codegen");
    reveal_strlit("Named");
    reveal_strlit("Unnamed");
    reveal_strlit("Unit");
    reveal_strlit("Some");
    reveal_strlit("None");
    reveal_strlit("new");
    reveal_strlit("unique");
    reveal_strlit("field");
    reveal_strlit("build");
    reveal_strlit("res");
    reveal_strlit("let");
    reveal_strlit("self");
    reveal_strlit("match");
    reveal_strlit("mut");
    reveal_strlit("bool");
    reveal_strlit("impl");
    reveal_strlit("for");
    reveal_strlit("fn");
    reveal_strlit("gen_code");
    reveal_strlit("emitted");
    reveal_strlit("Emitted");
    reveal_strlit("Bindings");
    reveal_strlit("_before");
    reveal_strlit("_unique");
    reveal_strlit("unreachable");
}

/// Writes `::structdump::<item>`.
fn push_crate_path(ts: &mut TokenStream, item: &str)
    requires
        is_word(item@),
    ensures
        stream_tokens(*final(ts)) == stream_tokens(*old(ts)) + crate_path(item@),
{
    proof {
        lemma_vocabulary();
    }
    push_path_sep(ts);
    push_word(ts, "structdump");
    push_path_sep(ts);
    push_word(ts, item);
    assert(stream_tokens(*ts) =~= stream_tokens(*old(ts)) + crate_path(item@));
}

/// Writes `::structdump::format_ident!("<name>")`.
fn push_ident_call(ts: &mut TokenStream, name: &str)
    ensures
        stream_tokens(*final(ts)) == stream_tokens(*old(ts)) + ident_call(name@),
{
    proof {
        lemma_vocabulary();
    }
    push_crate_path(ts, "format_ident");
    push_punct(ts, '!', false);
    push_parenthesized(ts, str_tokens(name));
    assert(stream_tokens(*ts) =~= stream_tokens(*old(ts)) + ident_call(name@));
}

/// Writes the names of the fields, each with a comma behind it.
fn named_list(names: &Vec<Ident>) -> (list: TokenStream)
    ensures
        stream_tokens(list) == terminated(words(names@.map_values(|id: Ident| ident_text(id)))),
{
    let ghost all = words(names@.map_values(|id: Ident| ident_text(id)));
    let mut list = new_stream();
    let mut i: usize = 0;
    assert(all.take(0) =~= Seq::<Seq<Token>>::empty());
    while i < names.len()
        invariant
            i <= names.len(),
            all == words(names@.map_values(|id: Ident| ident_text(id))),
            stream_tokens(list) == terminated(all.take(i as int)),
        decreases names.len() - i,
    {
        push_ident(&mut list, &names[i]);
        push_punct(&mut list, ',', false);
        proof {
            lemma_terminated_push(all.take(i as int), all[i as int]);
            assert(all.take(i + 1) =~= all.take(i as int).push(all[i as int]));
            assert(stream_tokens(list) =~= terminated(all.take(i + 1)));
        }
        i = i + 1;
    }
    assert(all.take(i as int) =~= all);
    list
}

/// Writes the names of the first `count` positions, each with a comma behind
/// it.
fn positional_list(count: usize) -> (list: TokenStream)
    ensures
        stream_tokens(list) == terminated(words(positional(count as nat))),
{
    let ghost all = words(positional(count as nat));
    let mut list = new_stream();
    let mut i: usize = 0;
    assert(all.take(0) =~= Seq::<Seq<Token>>::empty());
    while i < count
        invariant
            i <= count,
            all == words(positional(count as nat)),
            stream_tokens(list) == terminated(all.take(i as int)),
        decreases count - i,
    {
        let name = positional_name_text(i);
        push_word(&mut list, name.as_str());
        push_punct(&mut list, ',', false);
        proof {
            lemma_terminated_push(all.take(i as int), all[i as int]);
            assert(all.take(i + 1) =~= all.take(i as int).push(all[i as int]));
            assert(stream_tokens(list) =~= terminated(all.take(i + 1)));
        }
        i = i + 1;
    }
    assert(all.take(i as int) =~= all);
    list
}

/// Writes the pattern that takes a value with these fields apart.
pub fn fields_codegen_match(fields: &Fields) -> (code: TokenStream)
    ensures
        stream_tokens(code) == pattern(fields@),
{
    let mut code = new_stream();
    match fields {
        Fields::Named(names) => {
            push_group(&mut code, Delim::Brace, named_list(names));
            assert(stream_tokens(code) =~= pattern(fields@));
        },
        Fields::Unnamed(count) => {
            push_parenthesized(&mut code, positional_list(*count));
            assert(stream_tokens(code) =~= pattern(fields@));
        },
        Fields::Unit => {},
    }
    code
}

/// Writes the start of the builder.
fn builder_new_tokens(kind: &str, name: &str, variant: Option<&Ident>) -> (code: TokenStream)
    requires
        is_word(kind@),
    ensures
        stream_tokens(code) == builder_new(
            kind@,
            name@,
            match variant {
                Some(id) => Some(ident_text(*id)),
                None => None,
            },
        ),
{
    proof {
        lemma_vocabulary();
    }
    let mut tag = new_stream();
    match variant {
        Some(id) => {
            let text = ident_string(id);
            let mut call = new_stream();
            push_ident_call(&mut call, text.as_str());
            push_word(&mut tag, "Some");
            push_parenthesized(&mut tag, call);
            assert(stream_tokens(tag) =~= variant_arg(Some(ident_text(*id))));
        },
        None => {
            push_word(&mut tag, "None");
            assert(stream_tokens(tag) =~= variant_arg(None));
        },
    }
    let mut args = new_stream();
    push_ident_call(&mut args, name);
    push_punct(&mut args, ',', false);
    push_stream(&mut args, &tag);
    push_punct(&mut args, ',', false);
    push_word(&mut args, "unique");
    assert(stream_tokens(args) =~= ident_call(name@) + seq![Token::Punct(',', false)]
        + stream_tokens(tag) + seq![Token::Punct(',', false), Token::Ident("unique"@)]);
    let mut code = new_stream();
    push_punct(&mut code, '<', false);
    push_crate_path(&mut code, "StructBuilder");
    push_punct(&mut code, '<', false);
    push_crate_path(&mut code, kind);
    push_punct(&mut code, '>', true);
    push_punct(&mut code, '>', false);
    push_path_sep(&mut code);
    push_word(&mut code, "new");
    push_parenthesized(&mut code, args);
    assert(stream_tokens(code) =~= builder_new(
        kind@,
        name@,
        match variant {
            Some(id) => Some(ident_text(*id)),
            None => None,
        },
    ));
    code
}

/// Writes `.build(<args>)`.
fn push_build_call(ts: &mut TokenStream, args: TokenStream)
    ensures
        stream_tokens(*final(ts)) == stream_tokens(*old(ts)) + build_call(stream_tokens(args)),
{
    proof {
        lemma_vocabulary();
    }
    push_punct(ts, '.', false);
    push_word(ts, "build");
    push_parenthesized(ts, args);
    assert(stream_tokens(*ts) =~= stream_tokens(*old(ts)) + build_call(stream_tokens(args)));
}

/// Writes `res`.
fn res_tokens() -> (code: TokenStream)
    ensures
        stream_tokens(code) == seq![Token::Ident("res"@)],
{
    proof {
        lemma_vocabulary();
    }
    let mut code = new_stream();
    push_word(&mut code, "res");
    code
}

/// Writes one call for each named field.
fn named_calls(names: &Vec<Ident>) -> (calls: TokenStream)
    ensures
        stream_tokens(calls) == flatten(
            names@.map_values(|id: Ident| ident_text(id)).map_values(
                |field: Seq<char>| named_call(field),
            ),
        ),
{
    proof {
        lemma_vocabulary();
    }
    let ghost all = names@.map_values(|id: Ident| ident_text(id)).map_values(
        |field: Seq<char>| named_call(field),
    );
    let mut calls = new_stream();
    let mut i: usize = 0;
    assert(all.take(0) =~= Seq::<Seq<Token>>::empty());
    while i < names.len()
        invariant
            i <= names.len(),
            is_word("field"@),
            is_word("res"@),
            all == names@.map_values(|id: Ident| ident_text(id)).map_values(
                |field: Seq<char>| named_call(field),
            ),
            stream_tokens(calls) == flatten(all.take(i as int)),
        decreases names.len() - i,
    {
        let text = ident_string(&names[i]);
        let mut args = new_stream();
        push_word(&mut args, "res");
        push_punct(&mut args, ',', false);
        push_ident_call(&mut args, text.as_str());
        push_punct(&mut args, ',', false);
        push_ident(&mut args, &names[i]);
        assert(stream_tokens(args) =~= seq![Token::Ident("res"@), Token::Punct(',', false)]
            + ident_call(text@) + seq![Token::Punct(',', false), Token::Ident(text@)]);
        push_punct(&mut calls, '.', false);
        push_word(&mut calls, "field");
        push_parenthesized(&mut calls, args);
        proof {
            assert(all[i as int] == named_call(text@));
            assert(stream_tokens(calls) =~= flatten(all.take(i as int)) + named_call(text@));
            lemma_flatten_push(all.take(i as int), all[i as int]);
            assert(all.take(i + 1) =~= all.take(i as int).push(all[i as int]));
            assert(stream_tokens(calls) =~= flatten(all.take(i + 1)));
        }
        i = i + 1;
    }
    assert(all.take(i as int) =~= all);
    calls
}

/// Writes one call for each field by position.
fn positional_calls(count: usize) -> (calls: TokenStream)
    ensures
        stream_tokens(calls) == flatten(
            positional(count as nat).map_values(|field: Seq<char>| positional_call(field)),
        ),
{
    proof {
        lemma_vocabulary();
    }
    let ghost all = positional(count as nat).map_values(
        |field: Seq<char>| positional_call(field),
    );
    let mut calls = new_stream();
    let mut i: usize = 0;
    assert(all.take(0) =~= Seq::<Seq<Token>>::empty());
    while i < count
        invariant
            i <= count,
            is_word("field"@),
            is_word("res"@),
            all == positional(count as nat).map_values(|field: Seq<char>| positional_call(field)),
            stream_tokens(calls) == flatten(all.take(i as int)),
        decreases count - i,
    {
        let name = positional_name_text(i);
        let mut args = new_stream();
        push_word(&mut args, "res");
        push_punct(&mut args, ',', false);
        push_word(&mut args, name.as_str());
        assert(stream_tokens(args) =~= seq![
            Token::Ident("res"@),
            Token::Punct(',', false),
            Token::Ident(name@),
        ]);
        push_punct(&mut calls, '.', false);
        push_word(&mut calls, "field");
        push_parenthesized(&mut calls, args);
        proof {
            assert(all[i as int] == positional_call(name@));
            assert(stream_tokens(calls) =~= flatten(all.take(i as int)) + positional_call(name@));
            lemma_flatten_push(all.take(i as int), all[i as int]);
            assert(all.take(i + 1) =~= all.take(i as int).push(all[i as int]));
            assert(stream_tokens(calls) =~= flatten(all.take(i + 1)));
        }
        i = i + 1;
    }
    assert(all.take(i as int) =~= all);
    calls
}

/// The text of an optional identifier.
pub open spec fn optional_text(id: Option<&Ident>) -> Option<Seq<char>> {
    match id {
        Some(id) => Some(ident_text(*id)),
        None => None,
    }
}

/// Writes the expression that builds the code of a value of the struct
/// `name`, or of the variant `variant` of the enum `name`, from its fields.
pub fn fields_codegen_body(name: &Ident, variant: Option<&Ident>, fields: &Fields) -> (code:
    TokenStream)
    ensures
        stream_tokens(code) == body(ident_text(*name), optional_text(variant), fields@),
{
    proof {
        lemma_vocabulary();
    }
    let text = ident_string(name);
    match fields {
        Fields::Named(names) => {
            let mut code = builder_new_tokens("Named", text.as_str(), variant);
            push_stream(&mut code, &named_calls(names));
            push_build_call(&mut code, res_tokens());
            code
        },
        Fields::Unnamed(count) => {
            let mut code = builder_new_tokens("Unnamed", text.as_str(), variant);
            push_stream(&mut code, &positional_calls(*count));
            push_build_call(&mut code, res_tokens());
            code
        },
        Fields::Unit => {
            let mut code = builder_new_tokens("Unit", text.as_str(), variant);
            push_build_call(&mut code, res_tokens());
            code
        },
    }
}

/// Writes the arms of the `match` over the variants of the enum `name`.
fn arms(name: &Ident, variants: &Vec<Variant>) -> (code: TokenStream)
    ensures
        stream_tokens(code) == flatten(
            variants@.map_values(|variant: Variant| variant@).map_values(
                |variant: VariantModel| arm(ident_text(*name), variant),
            ),
        ),
{
    let ghost all = variants@.map_values(|variant: Variant| variant@).map_values(
        |variant: VariantModel| arm(ident_text(*name), variant),
    );
    let mut code = new_stream();
    let mut i: usize = 0;
    assert(all.take(0) =~= Seq::<Seq<Token>>::empty());
    while i < variants.len()
        invariant
            i <= variants.len(),
            all == variants@.map_values(|variant: Variant| variant@).map_values(
                |variant: VariantModel| arm(ident_text(*name), variant),
            ),
            stream_tokens(code) == flatten(all.take(i as int)),
        decreases variants.len() - i,
    {
        let variant = &variants[i];
        push_ident(&mut code, name);
        push_path_sep(&mut code);
        push_ident(&mut code, &variant.name);
        push_stream(&mut code, &fields_codegen_match(&variant.fields));
        push_punct(&mut code, '=', true);
        push_punct(&mut code, '>', false);
        push_group(
            &mut code,
            Delim::Brace,
            fields_codegen_body(name, Some(&variant.name), &variant.fields),
        );
        push_punct(&mut code, ',', false);
        proof {
            lemma_flatten_push(all.take(i as int), all[i as int]);
            assert(all.take(i + 1) =~= all.take(i as int).push(all[i as int]));
            assert(all[i as int] == arm(ident_text(*name), variants@[i as int]@));
            assert(stream_tokens(code) =~= flatten(all.take(i + 1)));
        }
        i = i + 1;
    }
    assert(all.take(i as int) =~= all);
    code
}

/// Writes the function of specifications of the implementation.
fn model_tokens() -> (code: TokenStream)
    ensures
        stream_tokens(code) == model(),
{
    proof {
        lemma_vocabulary();
    }
    let mut params = new_stream();
    push_punct(&mut params, '&', false);
    push_word(&mut params, "self");
    push_punct(&mut params, ',', false);
    push_word(&mut params, "_before");
    push_punct(&mut params, ':', false);
    push_crate_path(&mut params, "Bindings");
    push_punct(&mut params, ',', false);
    push_word(&mut params, "_unique");
    push_punct(&mut params, ':', false);
    push_word(&mut params, "bool");
    assert(stream_tokens(params) =~= model_params());
    let mut panics = new_stream();
    push_word(&mut panics, "unreachable");
    push_punct(&mut panics, '!', false);
    push_parenthesized(&mut panics, new_stream());
    assert(stream_tokens(panics) =~= seq![Token::Ident("unreachable"@), Token::Punct('!', false)]
        + parenthesized(Seq::empty()));
    let mut code = new_stream();
    push_word(&mut code, "fn");
    push_word(&mut code, "emitted");
    push_parenthesized(&mut code, params);
    push_punct(&mut code, '-', true);
    push_punct(&mut code, '>', false);
    push_crate_path(&mut code, "Emitted");
    push_group(&mut code, Delim::Brace, panics);
    assert(stream_tokens(code) =~= model());
    code
}

/// Writes the implementation of `Codegen` for the type `name`.
pub fn impl_codegen(name: &Ident, data: &Data) -> (code: TokenStream)
    ensures
        stream_tokens(code) == impl_code(ident_text(*name), data@),
{
    proof {
        lemma_vocabulary();
    }
    let mut out = new_stream();
    match data {
        Data::Struct(fields) => {
            push_word(&mut out, "let");
            push_ident(&mut out, name);
            push_stream(&mut out, &fields_codegen_match(fields));
            push_punct(&mut out, '=', false);
            push_punct(&mut out, '&', false);
            push_word(&mut out, "self");
            push_punct(&mut out, ';', false);
            push_stream(&mut out, &fields_codegen_body(name, None, fields));
            assert(stream_tokens(out) =~= method_body(ident_text(*name), data@));
        },
        Data::Enum(variants) => {
            push_word(&mut out, "match");
            push_punct(&mut out, '&', false);
            push_word(&mut out, "self");
            push_group(&mut out, Delim::Brace, arms(name, variants));
            assert(stream_tokens(out) =~= method_body(ident_text(*name), data@));
        },
    }
    let mut params = new_stream();
    push_punct(&mut params, '&', false);
    push_word(&mut params, "self");
    push_punct(&mut params, ',', false);
    push_word(&mut params, "res");
    push_punct(&mut params, ':', false);
    push_punct(&mut params, '&', false);
    push_word(&mut params, "mut");
    push_crate_path(&mut params, "CodegenResult");
    push_punct(&mut params, ',', false);
    push_word(&mut params, "unique");
    push_punct(&mut params, ':', false);
    push_word(&mut params, "bool");
    assert(stream_tokens(params) =~= method_params());
    let mut items = new_stream();
    push_word(&mut items, "fn");
    push_word(&mut items, "gen_code");
    push_parenthesized(&mut items, params);
    push_punct(&mut items, '-', true);
    push_punct(&mut items, '>', false);
    push_crate_path(&mut items, "TokenStream");
    push_group(&mut items, Delim::Brace, out);
    assert(stream_tokens(items) =~= method(ident_text(*name), data@));
    push_stream(&mut items, &model_tokens());
    let mut code = new_stream();
    push_word(&mut code, "impl");
    push_crate_path(&mut code, "Codegen");
    push_word(&mut code, "for");
    push_ident(&mut code, name);
    push_group(&mut code, Delim::Brace, items);
    assert(stream_tokens(code) =~= impl_code(ident_text(*name), data@));
    code
}

} // verus!
