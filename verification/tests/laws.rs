use proc_macro2::{Delimiter, TokenStream, TokenTree};
use std::rc::Rc;
use structdump::{serialize, Codegen, CodegenResult};

/// The numbers of the bindings that the tokens name.
fn named_bindings(tokens: TokenStream, found: &mut Vec<usize>) {
    for token in tokens {
        match token {
            TokenTree::Ident(id) => {
                let text = id.to_string();
                if let Some(digits) = text.strip_prefix("code_") {
                    found.push(usize::from_str_radix(digits, 16).unwrap());
                }
            }
            TokenTree::Group(group) => named_bindings(group.stream(), found),
            _ => {}
        }
    }
}

/// The statements of a block and its root expression.
fn parts_of(block: TokenStream) -> (Vec<TokenStream>, TokenStream) {
    let mut outer = block.into_iter();
    let inner = match outer.next() {
        Some(TokenTree::Group(group)) => {
            assert_eq!(group.delimiter(), Delimiter::Brace);
            group.stream()
        }
        _ => panic!("a block is one group in braces"),
    };
    assert!(outer.next().is_none());
    let mut statements = Vec::new();
    let mut current = TokenStream::new();
    for token in inner {
        let ends = matches!(&token, TokenTree::Punct(p) if p.as_char() == ';');
        current.extend(std::iter::once(token));
        if ends {
            statements.push(current);
            current = TokenStream::new();
        }
    }
    (statements, current)
}

fn nested_value() -> Vec<(Rc<Vec<String>>, Option<&'static str>, u8)> {
    let mut rows = Vec::new();
    for i in 0..20u8 {
        let words = vec![format!("w{}", i % 3), format!("w{}", i % 5)];
        rows.push((
            Rc::new(words),
            if i % 2 == 0 { Some("even") } else { None },
            i % 4,
        ));
    }
    rows
}

#[test]
fn every_binding_names_only_earlier_bindings() {
    let (statements, root) = parts_of(serialize(&nested_value()));
    assert!(statements.len() > 16);
    for (i, statement) in statements.iter().enumerate() {
        let mut found = Vec::new();
        named_bindings(statement.clone(), &mut found);
        assert_eq!(found[0], i);
        for k in &found[1..] {
            assert!(*k < i);
        }
    }
    let mut found = Vec::new();
    named_bindings(root, &mut found);
    assert_eq!(found, vec![statements.len() - 1]);
}

#[test]
fn every_text_is_bound_at_most_once() {
    let (statements, _) = parts_of(serialize(&nested_value()));
    let mut texts = Vec::new();
    for statement in &statements {
        let text = statement.to_string();
        let code = text.split_once(" = ").unwrap().1.to_string();
        assert!(!texts.contains(&code));
        texts.push(code);
    }
}

#[test]
fn equal_values_give_equal_blocks() {
    let first = serialize(&nested_value()).to_string();
    let second = serialize(&nested_value()).to_string();
    assert_eq!(first, second);
}

#[test]
fn unique_emission_leaves_the_session_as_it_was() {
    let mut res = CodegenResult::default();
    let bound = "kept".gen_code(&mut res, false);
    let before = res.finalize(bound.clone()).to_string();
    let inline = nested_value().gen_code(&mut res, true);
    let mut found = Vec::new();
    named_bindings(inline, &mut found);
    assert!(found.is_empty());
    assert_eq!(res.finalize(bound).to_string(), before);
}

#[test]
fn emission_only_adds_bindings_at_the_end() {
    let mut res = CodegenResult::default();
    let first = ("a", "b").gen_code(&mut res, false);
    let (before, _) = parts_of(res.finalize(first));
    let second = nested_value().gen_code(&mut res, false);
    let (after, _) = parts_of(res.finalize(second));
    assert!(after.len() > before.len());
    for (i, statement) in before.iter().enumerate() {
        assert_eq!(statement.to_string(), after[i].to_string());
    }
}

#[test]
fn later_offer_of_a_bound_text_resolves_to_the_first_binding() {
    let mut res = CodegenResult::default();
    let first = vec![1u8, 2u8].gen_code(&mut res, false);
    let between = vec!["x", "y"].gen_code(&mut res, false);
    let second = vec![1u8, 2u8].gen_code(&mut res, false);
    assert_eq!(first.to_string(), "code_0 . clone ()");
    assert_eq!(between.to_string(), "code_3 . clone ()");
    assert_eq!(second.to_string(), first.to_string());
    let (statements, _) = parts_of(res.finalize(second));
    assert_eq!(statements.len(), 4);
}
