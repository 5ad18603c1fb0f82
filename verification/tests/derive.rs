use proc_macro2::{Ident, Span};
use structdump::derive::{
    fields_codegen_body, fields_codegen_match, impl_codegen, Data, Fields, Variant,
};

fn word(name: &str) -> Ident {
    Ident::new(name, Span::call_site())
}

#[test]
fn pattern_of_named_fields_lists_the_names() {
    let fields = Fields::Named(vec![word("x"), word("y")]);
    assert_eq!(fields_codegen_match(&fields).to_string(), "{ x , y , }");
    assert_eq!(fields_codegen_match(&Fields::Named(vec![])).to_string(), "{ }");
}

#[test]
fn pattern_of_unnamed_fields_numbers_them() {
    assert_eq!(fields_codegen_match(&Fields::Unnamed(2)).to_string(), "(f0 , f1 ,)");
    assert_eq!(fields_codegen_match(&Fields::Unnamed(0)).to_string(), "()");
    assert_eq!(
        fields_codegen_match(&Fields::Unnamed(12)).to_string(),
        "(f0 , f1 , f2 , f3 , f4 , f5 , f6 , f7 , f8 , f9 , f10 , f11 ,)"
    );
}

#[test]
fn pattern_of_no_fields_is_empty() {
    assert_eq!(fields_codegen_match(&Fields::Unit).to_string(), "");
}

#[test]
fn body_of_named_fields_calls_the_builder_for_each() {
    let fields = Fields::Named(vec![word("x"), word("y")]);
    assert_eq!(
        fields_codegen_body(&word("Point"), None, &fields).to_string(),
        "< :: structdump :: StructBuilder < :: structdump :: Named >> :: new \
         (:: structdump :: format_ident ! (\"Point\") , None , unique) \
         . field (res , :: structdump :: format_ident ! (\"x\") , x) \
         . field (res , :: structdump :: format_ident ! (\"y\") , y) \
         . build (res)"
    );
}

#[test]
fn body_of_unnamed_fields_calls_the_builder_for_each() {
    let variant = word("Square");
    assert_eq!(
        fields_codegen_body(&word("Shape"), Some(&variant), &Fields::Unnamed(2)).to_string(),
        "< :: structdump :: StructBuilder < :: structdump :: Unnamed >> :: new \
         (:: structdump :: format_ident ! (\"Shape\") , \
         Some (:: structdump :: format_ident ! (\"Square\")) , unique) \
         . field (res , f0) . field (res , f1) . build (res)"
    );
}

#[test]
fn body_of_no_fields_builds_at_once() {
    assert_eq!(
        fields_codegen_body(&word("Marker"), None, &Fields::Unit).to_string(),
        "< :: structdump :: StructBuilder < :: structdump :: Unit >> :: new \
         (:: structdump :: format_ident ! (\"Marker\") , None , unique) . build (res)"
    );
}

#[test]
fn struct_is_taken_apart_by_a_let() {
    let data = Data::Struct(Fields::Named(vec![word("x"), word("y")]));
    assert_eq!(
        impl_codegen(&word("Point"), &data).to_string(),
        "impl :: structdump :: Codegen for Point { \
         fn gen_code (& self , res : & mut :: structdump :: CodegenResult , unique : bool) \
         -> :: structdump :: TokenStream { \
         let Point { x , y , } = & self ; \
         < :: structdump :: StructBuilder < :: structdump :: Named >> :: new \
         (:: structdump :: format_ident ! (\"Point\") , None , unique) \
         . field (res , :: structdump :: format_ident ! (\"x\") , x) \
         . field (res , :: structdump :: format_ident ! (\"y\") , y) \
         . build (res) } \
         fn emitted (& self , _before : :: structdump :: Bindings , _unique : bool) \
         -> :: structdump :: Emitted { unreachable ! () } }"
    );
}

#[test]
fn unit_struct_is_taken_apart_by_its_name() {
    let data = Data::Struct(Fields::Unit);
    assert_eq!(
        impl_codegen(&word("Marker"), &data).to_string(),
        "impl :: structdump :: Codegen for Marker { \
         fn gen_code (& self , res : & mut :: structdump :: CodegenResult , unique : bool) \
         -> :: structdump :: TokenStream { \
         let Marker = & self ; \
         < :: structdump :: StructBuilder < :: structdump :: Unit >> :: new \
         (:: structdump :: format_ident ! (\"Marker\") , None , unique) . build (res) } \
         fn emitted (& self , _before : :: structdump :: Bindings , _unique : bool) \
         -> :: structdump :: Emitted { unreachable ! () } }"
    );
}

#[test]
fn enum_is_taken_apart_by_a_match() {
    let data = Data::Enum(vec![
        Variant {
            name: word("Circle"),
            fields: Fields::Named(vec![word("radius")]),
        },
        Variant {
            name: word("Square"),
            fields: Fields::Unnamed(1),
        },
        Variant {
            name: word("Empty"),
            fields: Fields::Unit,
        },
    ]);
    assert_eq!(
        impl_codegen(&word("Shape"), &data).to_string(),
        "impl :: structdump :: Codegen for Shape { \
         fn gen_code (& self , res : & mut :: structdump :: CodegenResult , unique : bool) \
         -> :: structdump :: TokenStream { \
         match & self { \
         Shape :: Circle { radius , } => { \
         < :: structdump :: StructBuilder < :: structdump :: Named >> :: new \
         (:: structdump :: format_ident ! (\"Shape\") , \
         Some (:: structdump :: format_ident ! (\"Circle\")) , unique) \
         . field (res , :: structdump :: format_ident ! (\"radius\") , radius) \
         . build (res) } , \
         Shape :: Square (f0 ,) => { \
         < :: structdump :: StructBuilder < :: structdump :: Unnamed >> :: new \
         (:: structdump :: format_ident ! (\"Shape\") , \
         Some (:: structdump :: format_ident ! (\"Square\")) , unique) \
         . field (res , f0) . build (res) } , \
         Shape :: Empty => { \
         < :: structdump :: StructBuilder < :: structdump :: Unit >> :: new \
         (:: structdump :: format_ident ! (\"Shape\") , \
         Some (:: structdump :: format_ident ! (\"Empty\")) , unique) \
         . build (res) } , \
         } } \
         fn emitted (& self , _before : :: structdump :: Bindings , _unique : bool) \
         -> :: structdump :: Emitted { unreachable ! () } }"
    );
}

#[test]
fn enum_without_variants_has_an_empty_match() {
    let data = Data::Enum(vec![]);
    assert_eq!(
        impl_codegen(&word("Never"), &data).to_string(),
        "impl :: structdump :: Codegen for Never { \
         fn gen_code (& self , res : & mut :: structdump :: CodegenResult , unique : bool) \
         -> :: structdump :: TokenStream { match & self { } } \
         fn emitted (& self , _before : :: structdump :: Bindings , _unique : bool) \
         -> :: structdump :: Emitted { unreachable ! () } }"
    );
}
