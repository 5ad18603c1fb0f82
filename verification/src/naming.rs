//! The names of bindings: `code_` followed by the binding's number in
//! lower-case hexadecimal, so that different numbers give different names.

use crate::tokens::{decimal_digits, decimal_text, is_word};
use vstd::prelude::*;
use vstd::string::StringExecFns;

verus! {

/// The sixteen hexadecimal digits, in lower case.
pub open spec fn hex_digits() -> Seq<char> {
    seq!['0', '1', '2', '3', '4', '5', '6', '7', '8', '9', 'a', 'b', 'c', 'd', 'e', 'f']
}

/// A natural number in lower-case hexadecimal, without leading zeros.
pub open spec fn hex_text(n: nat) -> Seq<char>
    decreases n,
{
    if n < 16 {
        seq![hex_digits()[n as int]]
    } else {
        hex_text(n / 16).push(hex_digits()[(n % 16) as int])
    }
}

/// What every binding's name starts with.
pub open spec fn binding_prefix() -> Seq<char> {
    seq!['c', 'o', 'd', 'e', '_']
}

/// The name of the binding with the given number.
pub open spec fn binding_name(id: nat) -> Seq<char> {
    binding_prefix() + hex_text(id)
}

/// A hexadecimal text is not empty and consists of hexadecimal digits.
pub proof fn lemma_hex_text_digits(n: nat)
    ensures
        hex_text(n).len() >= 1,
        forall|i: int|
            0 <= i < hex_text(n).len() ==> hex_digits().contains(#[trigger] hex_text(n)[i]),
    decreases n,
{
    if n < 16 {
        assert(hex_digits()[n as int] == hex_text(n)[0]);
    } else {
        lemma_hex_text_digits(n / 16);
        let last = hex_digits()[(n % 16) as int];
        assert(hex_digits().contains(last));
        assert forall|i: int| 0 <= i < hex_text(n).len() implies hex_digits().contains(
            #[trigger] hex_text(n)[i],
        ) by {
            if i < hex_text(n / 16).len() {
                assert(hex_text(n)[i] == hex_text(n / 16)[i]);
            } else {
                assert(hex_text(n)[i] == last);
            }
        }
    }
}

/// Different digits are written with different characters.
proof fn lemma_hex_digit_injective(a: nat, b: nat)
    requires
        a < 16,
        b < 16,
        hex_digits()[a as int] == hex_digits()[b as int],
    ensures
        a == b,
{
}

/// Different numbers have different hexadecimal texts.
pub proof fn lemma_hex_text_injective(a: nat, b: nat)
    requires
        hex_text(a) == hex_text(b),
    ensures
        a == b,
    decreases a,
{
    lemma_hex_text_digits(a / 16);
    lemma_hex_text_digits(b / 16);
    if a < 16 && b < 16 {
        assert(hex_text(a)[0] == hex_digits()[a as int]);
        assert(hex_text(b)[0] == hex_digits()[b as int]);
        lemma_hex_digit_injective(a, b);
    } else if a >= 16 && b >= 16 {
        let ta = hex_text(a / 16);
        let tb = hex_text(b / 16);
        let da = hex_digits()[(a % 16) as int];
        let db = hex_digits()[(b % 16) as int];
        assert(ta.push(da).last() == tb.push(db).last());
        assert(ta.push(da).drop_last() == ta);
        assert(tb.push(db).drop_last() == tb);
        lemma_hex_digit_injective(a % 16, b % 16);
        lemma_hex_text_injective(a / 16, b / 16);
    } else if a < 16 {
        assert(hex_text(a).len() == 1);
        assert(hex_text(b).len() == hex_text(b / 16).len() + 1);
    } else {
        assert(hex_text(b).len() == 1);
        assert(hex_text(a).len() == hex_text(a / 16).len() + 1);
    }
}

/// Different bindings have different names.
pub proof fn lemma_binding_name_injective(a: nat, b: nat)
    requires
        binding_name(a) == binding_name(b),
    ensures
        a == b,
{
    let p = binding_prefix();
    assert((p + hex_text(a)).subrange(p.len() as int, (p + hex_text(a)).len() as int) == hex_text(a));
    assert((p + hex_text(b)).subrange(p.len() as int, (p + hex_text(b)).len() as int) == hex_text(b));
    lemma_hex_text_injective(a, b);
}

/// Every binding's name is a word, so it can stand as an identifier.
pub proof fn lemma_binding_name_is_word(id: nat)
    ensures
        is_word(binding_name(id)),
{
    lemma_hex_text_digits(id);
    let name = binding_name(id);
    let p = binding_prefix();
    assert(name[0] == 'c');
    assert forall|i: int| 0 < i < name.len() implies crate::tokens::is_word_char(
        #[trigger] name[i],
    ) by {
        if i < p.len() {
            assert(name[i] == p[i]);
        } else {
            let c = hex_text(id)[i - p.len()];
            assert(name[i] == c);
            assert(hex_digits().contains(c));
            let k = choose|k: int| 0 <= k < hex_digits().len() && hex_digits()[k] == c;
            assert(hex_digits()[k] == c);
        }
    }
}

/// One hexadecimal digit, as a text.
fn hex_digit(d: usize) -> (text: &'static str)
    requires
        d < 16,
    ensures
        text@ == seq![hex_digits()[d as int]],
{
    proof {
        reveal_strlit("0");
        reveal_strlit("1");
        reveal_strlit("2");
        reveal_strlit("3");
        reveal_strlit("4");
        reveal_strlit("5");
        reveal_strlit("6");
        reveal_strlit("7");
        reveal_strlit("8");
        reveal_strlit("9");
        reveal_strlit("a");
        reveal_strlit("b");
        reveal_strlit("c");
        reveal_strlit("d");
        reveal_strlit("e");
        reveal_strlit("f");
    }
    let text = if d == 0 {
        "0"
    } else if d == 1 {
        "1"
    } else if d == 2 {
        "2"
    } else if d == 3 {
        "3"
    } else if d == 4 {
        "4"
    } else if d == 5 {
        "5"
    } else if d == 6 {
        "6"
    } else if d == 7 {
        "7"
    } else if d == 8 {
        "8"
    } else if d == 9 {
        "9"
    } else if d == 10 {
        "a"
    } else if d == 11 {
        "b"
    } else if d == 12 {
        "c"
    } else if d == 13 {
        "d"
    } else if d == 14 {
        "e"
    } else {
        "f"
    };
    assert(text@ =~= seq![hex_digits()[d as int]]);
    text
}

/// Writes a number in hexadecimal at the end of a text.
fn push_hex(text: &mut String, n: usize)
    ensures
        final(text)@ == old(text)@ + hex_text(n as nat),
    decreases n,
{
    if n >= 16 {
        push_hex(text, n / 16);
    }
    text.append(hex_digit(n % 16));
    assert(text@ =~= old(text)@ + hex_text(n as nat));
}

/// The name of the binding with the given number, as a text.
pub fn binding_name_text(id: usize) -> (name: String)
    ensures
        name@ == binding_name(id as nat),
        is_word(name@),
{
    proof {
        reveal_strlit("code_");
        lemma_binding_name_is_word(id as nat);
    }
    let mut name = String::from_str("code_");
    assert(name@ =~= binding_prefix());
    push_hex(&mut name, id);
    name
}

/// The name that stands for the field at a position: `f` followed by the
/// position in decimal.
pub open spec fn positional_name(position: nat) -> Seq<char> {
    seq!['f'] + decimal_text(position)
}

/// A decimal text is not empty and consists of decimal digits.
pub proof fn lemma_decimal_text_digits(n: nat)
    ensures
        decimal_text(n).len() >= 1,
        forall|i: int|
            0 <= i < decimal_text(n).len() ==> decimal_digits().contains(
                #[trigger] decimal_text(n)[i],
            ),
    decreases n,
{
    if n < 10 {
        assert(decimal_digits()[n as int] == decimal_text(n)[0]);
    } else {
        lemma_decimal_text_digits(n / 10);
        let last = decimal_digits()[(n % 10) as int];
        assert(decimal_digits().contains(last));
        assert forall|i: int| 0 <= i < decimal_text(n).len() implies decimal_digits().contains(
            #[trigger] decimal_text(n)[i],
        ) by {
            if i < decimal_text(n / 10).len() {
                assert(decimal_text(n)[i] == decimal_text(n / 10)[i]);
            } else {
                assert(decimal_text(n)[i] == last);
            }
        }
    }
}

/// Every positional name is a word, so it can stand as an identifier.
pub proof fn lemma_positional_name_is_word(position: nat)
    ensures
        is_word(positional_name(position)),
{
    lemma_decimal_text_digits(position);
    let name = positional_name(position);
    assert(name[0] == 'f');
    assert forall|i: int| 0 < i < name.len() implies crate::tokens::is_word_char(
        #[trigger] name[i],
    ) by {
        let c = decimal_text(position)[i - 1];
        assert(name[i] == c);
        assert(decimal_digits().contains(c));
        let k = choose|k: int| 0 <= k < decimal_digits().len() && decimal_digits()[k] == c;
        assert(decimal_digits()[k] == c);
    }
}

/// Writes a number in decimal at the end of a text.
fn push_decimal(text: &mut String, n: usize)
    ensures
        final(text)@ == old(text)@ + decimal_text(n as nat),
    decreases n,
{
    if n >= 10 {
        push_decimal(text, n / 10);
    }
    text.append(hex_digit(n % 10));
    assert(hex_digits()[(n % 10) as int] == decimal_digits()[(n % 10) as int]);
    assert(text@ =~= old(text)@ + decimal_text(n as nat));
}

/// The name that stands for the field at a position, as a text.
pub fn positional_name_text(position: usize) -> (name: String)
    ensures
        name@ == positional_name(position as nat),
        is_word(name@),
{
    proof {
        reveal_strlit("f");
        lemma_positional_name_is_word(position as nat);
    }
    let mut name = String::from_str("f");
    assert(name@ =~= seq!['f']);
    push_decimal(&mut name, position);
    name
}

} // verus!
