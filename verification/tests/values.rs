use proc_macro2::TokenStream;
use std::borrow::Cow;
use std::path::PathBuf;
use std::rc::Rc;
use std::str::FromStr;
use structdump::{serialize, Codegen, CodegenResult};

fn tokens(text: &str) -> TokenStream {
    TokenStream::from_str(text).unwrap()
}

fn inline<T: Codegen>(value: T) -> String {
    let mut res = CodegenResult::default();
    let code = value.gen_code(&mut res, true);
    assert_eq!(res.finalize(code.clone()).to_string(), format!("{{ {} }}", code));
    code.to_string()
}

#[test]
fn booleans_are_words() {
    assert_eq!(inline(true), "true");
    assert_eq!(inline(false), "false");
    assert_eq!(serialize(&false).to_string(), "{ false }");
}

#[test]
fn unsigned_integers_carry_their_type() {
    assert_eq!(inline(0u8), "0u8");
    assert_eq!(inline(255u8), "255u8");
    assert_eq!(inline(65535u16), "65535u16");
    assert_eq!(inline(4294967295u32), "4294967295u32");
    assert_eq!(inline(18446744073709551615u64), "18446744073709551615u64");
    assert_eq!(
        inline(340282366920938463463374607431768211455u128),
        "340282366920938463463374607431768211455u128"
    );
    assert_eq!(inline(10usize), "10usize");
}

#[test]
fn signed_integers_carry_their_type() {
    assert_eq!(inline(127i8), "127i8");
    assert_eq!(inline(1000i16), "1000i16");
    assert_eq!(inline(42i32), "42i32");
    assert_eq!(inline(9223372036854775807i64), "9223372036854775807i64");
    assert_eq!(inline(99i128), "99i128");
    assert_eq!(inline(0isize), "0isize");
}

#[test]
fn negative_integers_are_a_minus_and_a_literal() {
    assert_eq!(inline(-128i8), "- 128i8");
    assert_eq!(inline(-1i16), "- 1i16");
    assert_eq!(inline(-5i32), "- 5i32");
    assert_eq!(inline(-9223372036854775808i64), "- 9223372036854775808i64");
    assert_eq!(
        inline(-170141183460469231731687303715884105728i128),
        "- 170141183460469231731687303715884105728i128"
    );
    assert_eq!(inline(-7isize), "- 7isize");
}

#[test]
fn integers_are_never_bound() {
    assert_eq!(serialize(&(1u8, 1u8)).to_string(), "{ let code_0 = (1u8 , 1u8 ,) ; code_0 . clone () }");
}

#[test]
fn text_in_place_is_a_literal() {
    assert_eq!(inline("ab"), "\"ab\"");
    assert_eq!(inline(""), "\"\"");
}

#[test]
fn text_is_escaped() {
    assert_eq!(inline("a\"b\n"), "\"a\\\"b\\n\"");
    assert_eq!(inline("it's"), "\"it's\"");
    assert_eq!(inline("back\\slash"), "\"back\\\\slash\"");
}

#[test]
fn text_is_bound_with_its_type() {
    assert_eq!(
        serialize(&"ab").to_string(),
        "{ let code_0 : & 'static str = \"ab\" ; code_0 . clone () }"
    );
}

#[test]
fn owned_text_in_place_converts_the_literal() {
    assert_eq!(inline("ab".to_string()), "\"ab\" . to_owned ()");
}

#[test]
fn owned_text_reuses_the_binding_of_the_literal() {
    let mut res = CodegenResult::default();
    let borrowed = "ab".gen_code(&mut res, false);
    assert_eq!(borrowed.to_string(), "code_0 . clone ()");
    let owned = "ab".to_string().gen_code(&mut res, false);
    assert_eq!(owned.to_string(), "code_1 . clone ()");
    assert_eq!(
        res.finalize(owned).to_string(),
        "{ let code_0 : & 'static str = \"ab\" ; \
         let code_1 : structdump_import :: String = code_0 . clone () . to_owned () ; \
         code_1 . clone () }"
    );
}

#[test]
fn sequence_lists_its_items_in_order() {
    assert_eq!(
        inline(vec![1u8, 2u8, 3u8]),
        "structdump_import :: vec ! [1u8 , 2u8 , 3u8]"
    );
    assert_eq!(inline(vec![true]), "structdump_import :: vec ! [true]");
}

#[test]
fn sequence_is_bound_after_its_items() {
    assert_eq!(
        serialize(&vec!["x", "y", "x"]).to_string(),
        "{ let code_0 : & 'static str = \"x\" ; \
         let code_1 : & 'static str = \"y\" ; \
         let code_2 : structdump_import :: Vec < _ > = \
         structdump_import :: vec ! [code_0 . clone () , code_1 . clone () , code_0 . clone ()] ; \
         code_2 . clone () }"
    );
}

#[test]
fn nested_sequences_share_equal_rows() {
    assert_eq!(
        serialize(&vec![vec![1i32], vec![1i32]]).to_string(),
        "{ let code_0 : structdump_import :: Vec < _ > = structdump_import :: vec ! [1i32] ; \
         let code_1 : structdump_import :: Vec < _ > = \
         structdump_import :: vec ! [code_0 . clone () , code_0 . clone ()] ; \
         code_1 . clone () }"
    );
}

#[test]
fn optional_payload_goes_through_the_cache() {
    assert_eq!(
        serialize(&Some("ab")).to_string(),
        "{ let code_0 : & 'static str = \"ab\" ; \
         structdump_import :: Option :: Some (code_0 . clone ()) }"
    );
}

#[test]
fn shared_value_holds_its_pointee_in_place() {
    assert_eq!(
        serialize(&Rc::new("ab")).to_string(),
        "{ let code_0 : structdump_import :: Rc < _ > = structdump_import :: Rc :: new (\"ab\") ; \
         code_0 . clone () }"
    );
    assert_eq!(inline(Rc::new(5u32)), "structdump_import :: Rc :: new (5u32)");
}

#[test]
fn shared_values_of_equal_text_are_one_allocation() {
    let first = Rc::new(vec![1u8]);
    let second = Rc::new(vec![1u8]);
    assert_eq!(
        serialize(&(first, second)).to_string(),
        "{ let code_0 : structdump_import :: Rc < _ > = \
         structdump_import :: Rc :: new (structdump_import :: vec ! [1u8]) ; \
         let code_1 = (code_0 . clone () , code_0 . clone () ,) ; \
         code_1 . clone () }"
    );
}

#[test]
fn add_rc_value_is_what_a_shared_value_gives() {
    let mut res = CodegenResult::default();
    let code = res.add_rc_value(&"ab", false);
    assert_eq!(code.to_string(), "code_0 . clone ()");
    let again = Rc::new("ab").gen_code(&mut res, false);
    assert_eq!(again.to_string(), "code_0 . clone ()");
    let in_place = res.add_rc_value(&"ab", true);
    assert_eq!(in_place.to_string(), "structdump_import :: Rc :: new (\"ab\")");
}

#[test]
fn add_into_rc_value_converts_in_place() {
    let mut res = CodegenResult::default();
    let code = res.add_into_rc_value(&"ab", tokens("str"), false);
    assert_eq!(code.to_string(), "code_0 . clone ()");
    assert_eq!(
        res.finalize(code).to_string(),
        "{ let code_0 : structdump_import :: Rc < str > = \"ab\" . into () ; code_0 . clone () }"
    );
    let mut res = CodegenResult::default();
    let code = res.add_into_rc_value(&7u8, tokens("u8"), true);
    assert_eq!(code.to_string(), "7u8 . into ()");
    assert_eq!(res.finalize(code).to_string(), "{ 7u8 . into () }");
}

#[test]
fn add_into_rc_value_takes_any_type() {
    let mut res = CodegenResult::default();
    let code = res.add_into_rc_value(&vec![1u8], tokens("[u8]"), false);
    assert_eq!(
        res.finalize(code).to_string(),
        "{ let code_0 : structdump_import :: Rc < [u8] > = \
         structdump_import :: vec ! [1u8] . into () ; code_0 . clone () }"
    );
}

#[test]
fn shared_text_is_made_from_its_literal() {
    let value: Rc<str> = Rc::from("ab");
    assert_eq!(
        inline(value.clone()),
        "< structdump_import :: Rc < str >> :: from (\"ab\")"
    );
    assert_eq!(
        serialize(&value).to_string(),
        "{ let code_0 : structdump_import :: Rc < str > = \
         < structdump_import :: Rc < str >> :: from (\"ab\") ; \
         code_0 . clone () }"
    );
}

#[test]
fn borrowed_or_owned_text_is_a_borrowed_literal() {
    let borrowed: Cow<'static, str> = Cow::Borrowed("ab");
    let owned: Cow<'static, str> = Cow::Owned("ab".to_string());
    assert_eq!(inline(borrowed), "structdump_import :: Cow :: Borrowed (\"ab\")");
    assert_eq!(
        serialize(&owned).to_string(),
        "{ structdump_import :: Cow :: Borrowed (\"ab\") }"
    );
}

#[test]
fn path_is_written_as_code_that_panics() {
    assert_eq!(
        serialize(&PathBuf::from("/tmp/x")).to_string(),
        "{ panic ! (\"pathbuf is not supported\") }"
    );
}

#[test]
fn reference_is_emitted_as_its_target() {
    let value = 3u16;
    let reference = &value;
    assert_eq!(inline(&reference), "3u16");
    assert_eq!(inline(&&"ab"), "\"ab\"");
}

#[test]
fn empty_tuple_is_offered_to_the_cache() {
    assert_eq!(inline(()), "()");
    assert_eq!(serialize(&()).to_string(), "{ let code_0 = () ; code_0 . clone () }");
}

#[test]
fn tuples_keep_the_order_of_their_components() {
    assert_eq!(inline((1u8,)), "(1u8 ,)");
    assert_eq!(inline((1u8, true, "x")), "(1u8 , true , \"x\" ,)");
    assert_eq!(
        inline((1u8, 2u8, 3u8, 4u8, 5u8, 6u8, 7u8, 8u8, 9u8, 10u8, 11u8, 12u8)),
        "(1u8 , 2u8 , 3u8 , 4u8 , 5u8 , 6u8 , 7u8 , 8u8 , 9u8 , 10u8 , 11u8 , 12u8 ,)"
    );
}

#[test]
fn tuple_components_are_emitted_from_first_to_last() {
    assert_eq!(
        serialize(&("a", "b", "a")).to_string(),
        "{ let code_0 : & 'static str = \"a\" ; \
         let code_1 : & 'static str = \"b\" ; \
         let code_2 = (code_0 . clone () , code_1 . clone () , code_0 . clone () ,) ; \
         code_2 . clone () }"
    );
}
