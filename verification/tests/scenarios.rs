use proc_macro2::{Ident, Span, TokenStream};
use structdump::{serialize, Bindings, Codegen, CodegenResult, Emitted, Named, StructBuilder};

struct Point {
    x: i32,
    y: i32,
}

impl Codegen for Point {
    fn emitted(&self, _before: Bindings, _unique: bool) -> Emitted {
        unreachable!()
    }

    fn gen_code(&self, res: &mut CodegenResult, unique: bool) -> TokenStream {
        StructBuilder::<Named>::new(Ident::new("Point", Span::call_site()), None, unique)
            .field(res, Ident::new("x", Span::call_site()), &self.x)
            .field(res, Ident::new("y", Span::call_site()), &self.y)
            .build(res)
    }
}

#[test]
fn scalar_is_an_inline_literal() {
    let mut res = CodegenResult::default();
    let code = 42i32.gen_code(&mut res, false);
    assert_eq!(code.to_string(), "42i32");
    assert_eq!(res.finalize(code).to_string(), "{ 42i32 }");
}

#[test]
fn scalar_serializes_without_bindings() {
    assert_eq!(serialize(&42i32).to_string(), "{ 42i32 }");
}

#[test]
fn tuple_of_equal_texts_has_one_text_binding() {
    let block = serialize(&("ab", "ab"));
    assert_eq!(
        block.to_string(),
        "{ let code_0 : & 'static str = \"ab\" ; \
         let code_1 = (code_0 . clone () , code_0 . clone () ,) ; \
         code_1 . clone () }"
    );
    assert_eq!(block.to_string().matches("\"ab\"").count(), 1);
    assert_eq!(block.to_string().matches("code_0 . clone ()").count(), 2);
}

#[test]
fn empty_sequence_in_place_is_an_empty_list() {
    let mut res = CodegenResult::default();
    let value: Vec<bool> = Vec::new();
    let code = value.gen_code(&mut res, true);
    assert_eq!(code.to_string(), "structdump_import :: vec ! []");
    assert_eq!(res.finalize(code).to_string(), "{ structdump_import :: vec ! [] }");
}

#[test]
fn empty_sequence_is_bound_when_it_may_be() {
    let value: Vec<bool> = Vec::new();
    assert_eq!(
        serialize(&value).to_string(),
        "{ let code_0 : structdump_import :: Vec < _ > = structdump_import :: vec ! [] ; \
         code_0 . clone () }"
    );
}

#[test]
fn absent_optional_is_inline() {
    let value: Option<i32> = None;
    assert_eq!(
        serialize(&value).to_string(),
        "{ structdump_import :: Option :: None }"
    );
}

#[test]
fn present_optional_wraps_its_payload() {
    let mut res = CodegenResult::default();
    let code = Some(7u8).gen_code(&mut res, false);
    assert_eq!(code.to_string(), "structdump_import :: Option :: Some (7u8)");
    assert_eq!(
        res.finalize(code).to_string(),
        "{ structdump_import :: Option :: Some (7u8) }"
    );
}

#[test]
fn composite_that_appears_twice_is_bound_once() {
    let value = (Point { x: 1, y: 2 }, Point { x: 1, y: 2 });
    let block = serialize(&value).to_string();
    assert_eq!(
        block,
        "{ let code_0 : structdump_import :: Point = \
         structdump_import :: Point { x : 1i32 , y : 2i32 , } ; \
         let code_1 = (code_0 . clone () , code_0 . clone () ,) ; \
         code_1 . clone () }"
    );
    assert_eq!(block.matches("structdump_import :: Point {").count(), 1);
    assert_eq!(block.matches("code_0 . clone ()").count(), 2);
}

#[test]
fn composite_emitted_twice_gives_the_same_handle() {
    let mut res = CodegenResult::default();
    let first = Point { x: 1, y: 2 }.gen_code(&mut res, false);
    let second = Point { x: 1, y: 2 }.gen_code(&mut res, false);
    assert_eq!(first.to_string(), "code_0 . clone ()");
    assert_eq!(second.to_string(), "code_0 . clone ()");
    let other = Point { x: 1, y: 3 }.gen_code(&mut res, false);
    assert_eq!(other.to_string(), "code_1 . clone ()");
}

#[test]
fn serializing_twice_gives_the_same_text() {
    let value = vec![Some("a".to_string()), None, Some("b".to_string()), Some("a".to_string())];
    let first = serialize(&value).to_string();
    let second = serialize(&value).to_string();
    assert_eq!(first, second);
}
