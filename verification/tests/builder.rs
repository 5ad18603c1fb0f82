use proc_macro2::{Ident, Span};
use structdump::{CodegenResult, Named, StructBuilder, Unit, Unnamed};

fn ident(name: &str) -> Ident {
    Ident::new(name, Span::call_site())
}

#[test]
fn unit_struct_in_place_is_its_path() {
    let mut res = CodegenResult::default();
    let code = StructBuilder::<Unit>::new(ident("Marker"), None, true).build(&mut res);
    assert_eq!(code.to_string(), "structdump_import :: Marker");
    assert_eq!(res.finalize(code).to_string(), "{ structdump_import :: Marker }");
}

#[test]
fn unit_variant_in_place_is_its_path() {
    let mut res = CodegenResult::default();
    let code =
        StructBuilder::<Unit>::new(ident("Shape"), Some(ident("Empty")), true).build(&mut res);
    assert_eq!(code.to_string(), "structdump_import :: Shape :: Empty");
    assert_eq!(
        res.finalize(code).to_string(),
        "{ structdump_import :: Shape :: Empty }"
    );
}

#[test]
fn unit_variant_is_bound_when_it_may_be() {
    let mut res = CodegenResult::default();
    let code = StructBuilder::<Unit>::new(ident("E"), Some(ident("A")), false).build(&mut res);
    assert_eq!(code.to_string(), "code_0 . clone ()");
    assert_eq!(
        res.finalize(code).to_string(),
        "{ let code_0 : structdump_import :: E = structdump_import :: E :: A ; code_0 . clone () }"
    );
}

#[test]
fn unit_values_of_equal_text_share_one_binding() {
    let mut res = CodegenResult::default();
    let first = StructBuilder::<Unit>::new(ident("E"), Some(ident("A")), false).build(&mut res);
    let other = StructBuilder::<Unit>::new(ident("E"), Some(ident("B")), false).build(&mut res);
    let again = StructBuilder::<Unit>::new(ident("E"), Some(ident("A")), false).build(&mut res);
    assert_eq!(first.to_string(), "code_0 . clone ()");
    assert_eq!(other.to_string(), "code_1 . clone ()");
    assert_eq!(again.to_string(), "code_0 . clone ()");
}

#[test]
fn named_struct_lists_its_fields_by_name() {
    let mut res = CodegenResult::default();
    let code = StructBuilder::<Named>::new(ident("Point"), None, true)
        .field(&mut res, ident("x"), &1i32)
        .field(&mut res, ident("y"), &2i32)
        .build(&mut res);
    assert_eq!(
        code.to_string(),
        "structdump_import :: Point { x : 1i32 , y : 2i32 , }"
    );
    assert_eq!(res.finalize(code.clone()).to_string(), format!("{{ {} }}", code));
}

#[test]
fn named_struct_without_fields_has_empty_braces() {
    let mut res = CodegenResult::default();
    let code = StructBuilder::<Named>::new(ident("Empty"), None, true).build(&mut res);
    assert_eq!(code.to_string(), "structdump_import :: Empty { }");
}

#[test]
fn named_variant_carries_its_tag() {
    let mut res = CodegenResult::default();
    let code = StructBuilder::<Named>::new(ident("Shape"), Some(ident("Circle")), true)
        .field(&mut res, ident("radius"), &3u8)
        .build(&mut res);
    assert_eq!(
        code.to_string(),
        "structdump_import :: Shape :: Circle { radius : 3u8 , }"
    );
}

#[test]
fn unnamed_struct_lists_its_fields_by_position() {
    let mut res = CodegenResult::default();
    let code = StructBuilder::<Unnamed>::new(ident("Pair"), None, true)
        .field(&mut res, &1u8)
        .field(&mut res, &"b")
        .build(&mut res);
    assert_eq!(code.to_string(), "structdump_import :: Pair (1u8 , \"b\" ,)");
}

#[test]
fn unnamed_variant_carries_its_tag() {
    let mut res = CodegenResult::default();
    let code = StructBuilder::<Unnamed>::new(ident("Shape"), Some(ident("Square")), true)
        .field(&mut res, &4u8)
        .build(&mut res);
    assert_eq!(code.to_string(), "structdump_import :: Shape :: Square (4u8 ,)");
}

#[test]
fn built_value_is_bound_with_the_type_path() {
    let mut res = CodegenResult::default();
    let code = StructBuilder::<Unnamed>::new(ident("Shape"), Some(ident("Square")), false)
        .field(&mut res, &4u8)
        .build(&mut res);
    assert_eq!(code.to_string(), "code_0 . clone ()");
    assert_eq!(
        res.finalize(code).to_string(),
        "{ let code_0 : structdump_import :: Shape = structdump_import :: Shape :: Square (4u8 ,) ; \
         code_0 . clone () }"
    );
}

#[test]
fn fields_are_emitted_under_the_flag_of_the_builder() {
    let mut res = CodegenResult::default();
    let code = StructBuilder::<Named>::new(ident("Person"), None, false)
        .field(&mut res, ident("first"), &"a")
        .field(&mut res, ident("last"), &"a")
        .build(&mut res);
    assert_eq!(
        res.finalize(code).to_string(),
        "{ let code_0 : & 'static str = \"a\" ; \
         let code_1 : structdump_import :: Person = \
         structdump_import :: Person { first : code_0 . clone () , last : code_0 . clone () , } ; \
         code_1 . clone () }"
    );
}

#[test]
fn fields_keep_the_order_of_the_calls() {
    let mut res = CodegenResult::default();
    let code = StructBuilder::<Named>::new(ident("Pair"), None, false)
        .field(&mut res, ident("b"), &"second")
        .field(&mut res, ident("a"), &"first")
        .build(&mut res);
    assert_eq!(
        res.finalize(code).to_string(),
        "{ let code_0 : & 'static str = \"second\" ; \
         let code_1 : & 'static str = \"first\" ; \
         let code_2 : structdump_import :: Pair = \
         structdump_import :: Pair { b : code_0 . clone () , a : code_1 . clone () , } ; \
         code_2 . clone () }"
    );
}
