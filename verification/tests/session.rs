use proc_macro2::TokenStream;
use std::str::FromStr;
use structdump::{serialize, Codegen, CodegenResult};

fn tokens(text: &str) -> TokenStream {
    TokenStream::from_str(text).unwrap()
}

#[test]
fn fresh_session_closes_over_the_root_alone() {
    let res = CodegenResult::default();
    assert_eq!(res.finalize(tokens("1 + 2")).to_string(), "{ 1 + 2 }");
    assert_eq!(res.finalize(TokenStream::new()).to_string(), "{ }");
}

#[test]
fn unique_code_comes_back_unchanged() {
    let mut res = CodegenResult::default();
    let out = res.add_code(tokens("f (1)"), Some(tokens("u8")), true);
    assert_eq!(out.to_string(), "f (1)");
    assert_eq!(res.finalize(out).to_string(), "{ f (1) }");
}

#[test]
fn unique_code_is_not_found_later() {
    let mut res = CodegenResult::default();
    let inline = res.add_code(tokens("f (1)"), None, true);
    assert_eq!(inline.to_string(), "f (1)");
    let bound = res.add_code(tokens("f (1)"), None, false);
    assert_eq!(bound.to_string(), "code_0 . clone ()");
    assert_eq!(
        res.finalize(bound).to_string(),
        "{ let code_0 = f (1) ; code_0 . clone () }"
    );
}

#[test]
fn new_code_is_bound_with_its_type() {
    let mut res = CodegenResult::default();
    let out = res.add_code(tokens("f (1)"), Some(tokens("Vec < u8 >")), false);
    assert_eq!(out.to_string(), "code_0 . clone ()");
    assert_eq!(
        res.finalize(out).to_string(),
        "{ let code_0 : Vec < u8 > = f (1) ; code_0 . clone () }"
    );
}

#[test]
fn new_code_is_bound_without_a_type() {
    let mut res = CodegenResult::default();
    let out = res.add_code(tokens("f (1)"), None, false);
    assert_eq!(
        res.finalize(out).to_string(),
        "{ let code_0 = f (1) ; code_0 . clone () }"
    );
}

#[test]
fn code_of_equal_text_is_bound_once() {
    let mut res = CodegenResult::default();
    let first = res.add_code(tokens("f (1)"), Some(tokens("u8")), false);
    let second = res.add_code(tokens("g (2)"), None, false);
    let third = res.add_code(tokens("f(1)"), Some(tokens("u16")), false);
    assert_eq!(first.to_string(), "code_0 . clone ()");
    assert_eq!(second.to_string(), "code_1 . clone ()");
    assert_eq!(third.to_string(), "code_0 . clone ()");
    assert_eq!(
        res.finalize(third).to_string(),
        "{ let code_0 : u8 = f (1) ; let code_1 = g (2) ; code_0 . clone () }"
    );
}

#[test]
fn different_texts_get_different_bindings() {
    let mut res = CodegenResult::default();
    let first = res.add_code(tokens("1u8"), None, false);
    let second = res.add_code(tokens("1u16"), None, false);
    assert_ne!(first.to_string(), second.to_string());
}

#[test]
fn bindings_are_numbered_in_hexadecimal() {
    let mut res = CodegenResult::default();
    let mut last = TokenStream::new();
    for i in 0..300u32 {
        last = res.add_code(tokens(&format!("f ({})", i)), None, false);
        assert_eq!(last.to_string(), format!("code_{:x} . clone ()", i));
    }
    let block = res.finalize(last).to_string();
    assert!(block.starts_with("{ let code_0 = f (0) ; let code_1 = f (1) ; "));
    assert!(block.contains("let code_9 = f (9) ; let code_a = f (10) ; "));
    assert!(block.contains("let code_f = f (15) ; let code_10 = f (16) ; "));
    assert!(block.contains("let code_ff = f (255) ; let code_100 = f (256) ; "));
    assert!(block.ends_with("let code_12b = f (299) ; code_12b . clone () }"));
}

#[test]
fn add_value_emits_the_value() {
    let mut res = CodegenResult::default();
    let inline = res.add_value(&"ab", true);
    assert_eq!(inline.to_string(), "\"ab\"");
    let bound = res.add_value("ab", false);
    assert_eq!(bound.to_string(), "code_0 . clone ()");
    let number = res.add_value(5u8, false);
    assert_eq!(number.to_string(), "5u8");
}

#[test]
fn codegen_closes_the_session_over_the_value() {
    let mut res = CodegenResult::default();
    let block = res.codegen(&"ab", false);
    assert_eq!(
        block.to_string(),
        "{ let code_0 : & 'static str = \"ab\" ; code_0 . clone () }"
    );
    let again = res.codegen(&"ab", false);
    assert_eq!(again.to_string(), block.to_string());
    let inline = res.codegen(&"cd", true);
    assert_eq!(
        inline.to_string(),
        "{ let code_0 : & 'static str = \"ab\" ; \"cd\" }"
    );
}

#[test]
fn serialize_is_codegen_in_a_fresh_session() {
    let mut res = CodegenResult::default();
    let value = vec![Some(1u8), None];
    assert_eq!(
        serialize(&value).to_string(),
        res.codegen(&value, false).to_string()
    );
}

#[test]
fn unique_values_bind_nothing() {
    let mut res = CodegenResult::default();
    let value = vec![Some("a".to_string()), None, Some("a".to_string())];
    let code = value.gen_code(&mut res, true);
    assert_eq!(
        code.to_string(),
        "structdump_import :: vec ! [structdump_import :: Option :: Some (\"a\" . to_owned ()) , \
         structdump_import :: Option :: None , \
         structdump_import :: Option :: Some (\"a\" . to_owned ())]"
    );
    assert_eq!(res.finalize(TokenStream::new()).to_string(), "{ }");
    let later = "a".gen_code(&mut res, false);
    assert_eq!(later.to_string(), "code_0 . clone ()");
}

#[test]
fn keyed_code_is_found_by_its_key() {
    let mut res = CodegenResult::default();
    let first = res.add_keyed_code("k".to_string(), tokens("f (1)"), None);
    let second = res.add_keyed_code("k".to_string(), tokens("g (2)"), Some(tokens("u8")));
    let third = res.add_keyed_code("other".to_string(), tokens("f (1)"), None);
    assert_eq!(first.to_string(), "code_0 . clone ()");
    assert_eq!(second.to_string(), "code_0 . clone ()");
    assert_eq!(third.to_string(), "code_1 . clone ()");
    assert_eq!(
        res.finalize(third).to_string(),
        "{ let code_0 = f (1) ; let code_1 = f (1) ; code_1 . clone () }"
    );
}

#[test]
fn add_code_offers_code_under_its_own_text() {
    let mut res = CodegenResult::default();
    let keyed = res.add_keyed_code("f (1)".to_string(), tokens("f (1)"), None);
    let found = res.add_code(tokens("f(1)"), None, false);
    assert_eq!(keyed.to_string(), "code_0 . clone ()");
    assert_eq!(found.to_string(), "code_0 . clone ()");
    let other = res.add_code(tokens("f (2)"), None, false);
    assert_eq!(other.to_string(), "code_1 . clone ()");
    let again = res.add_keyed_code("f (2)".to_string(), tokens("h ()"), None);
    assert_eq!(again.to_string(), "code_1 . clone ()");
}
