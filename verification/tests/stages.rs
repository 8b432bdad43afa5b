//! Per-stage tests: the sanitizer, the character classes, the tokenizer
//! (constants, signs, implicit multiplication), the precedence table, and
//! the converter.

use calc_core::clean_string;
use calc_core::handle_constants;
use calc_core::is_constant;
use calc_core::is_operator;
use calc_core::is_root;
use calc_core::precedence;
use calc_core::to_postfix;
use calc_core::tokenise;

fn toks(v: &[&str]) -> Vec<String> {
    v.iter().map(|s| s.to_string()).collect()
}

#[test]
fn clean_keeps_the_alphabet_and_drops_the_rest() {
    assert_eq!(clean_string("2 + 3\n".to_string()), "2+3".to_string());
    assert_eq!(clean_string("2x+#3q!".to_string()), "2+3".to_string());
    assert_eq!(clean_string("pi*(1.5-e)".to_string()), "pi*(1.5-e)".to_string());
    assert_eq!(clean_string("".to_string()), "".to_string());
    assert_eq!(clean_string(" \t\nhello?".to_string()), "eo".to_string());
}

#[test]
fn operator_constant_and_root_characters() {
    for c in ['^', '$', '*', '/', '+', '-', '.'] {
        assert!(is_operator(c));
    }
    assert!(!is_operator('2'));
    assert!(!is_operator('('));
    for c in ['p', 'i', 'e', 't', 'a', 'u'] {
        assert!(is_constant(c));
    }
    assert!(!is_constant('r'));
    for c in ['r', 'o', 't'] {
        assert!(is_root(c));
    }
    assert!(!is_root('a'));
}

#[test]
fn precedence_tiers() {
    assert_eq!(precedence("+"), 1);
    assert_eq!(precedence("-"), 1);
    assert_eq!(precedence("*"), 2);
    assert_eq!(precedence("/"), 2);
    assert_eq!(precedence("^"), 3);
    assert_eq!(precedence("$"), 3);
    assert_eq!(precedence("("), 0);
    assert_eq!(precedence("42"), 0);
    assert_eq!(precedence(""), 0);
}

#[test]
fn tokenise_accumulates_numerals() {
    assert_eq!(tokenise("123".to_string()), toks(&["123"]));
    assert_eq!(tokenise("1.25".to_string()), toks(&["1.25"]));
    assert_eq!(tokenise("".to_string()), Vec::<String>::new());
}

#[test]
fn tokenise_emits_operators_and_parens() {
    assert_eq!(tokenise("2+3*4".to_string()), toks(&["2", "+", "3", "*", "4"]));
    assert_eq!(tokenise("(1+2)*3".to_string()), toks(&["(", "1", "+", "2", ")", "*", "3"]));
}

#[test]
fn tokenise_absorbs_sign_after_digit_or_at_start() {
    assert_eq!(tokenise("5-3".to_string()), toks(&["5", "-3"]));
    assert_eq!(tokenise("-7".to_string()), toks(&["-7"]));
    // After a parenthesis the minus is an ordinary operator.
    assert_eq!(tokenise("(1)-3".to_string()), toks(&["(", "1", ")", "-", "3"]));
}

#[test]
fn tokenise_expands_constants() {
    assert_eq!(tokenise("e".to_string()), toks(&["2.718281828459045"]));
    assert_eq!(tokenise("pi".to_string()), toks(&["3.141592653589793"]));
    assert_eq!(tokenise("tau".to_string()), toks(&["6.283185307179586"]));
    assert_eq!(tokenise("root".to_string()), toks(&["$"]));
}

#[test]
fn tokenise_inserts_implicit_multiplication_after_digit() {
    assert_eq!(tokenise("2pi".to_string()), toks(&["2", "*", "3.141592653589793"]));
    assert_eq!(tokenise("2e".to_string()), toks(&["2", "*", "2.718281828459045"]));
    assert_eq!(tokenise("3tau".to_string()), toks(&["3", "*", "6.283185307179586"]));
    // No implicit `*` when the constant does not follow a digit...
    assert_eq!(tokenise("(pi".to_string()), toks(&["(", "3.141592653589793"]));
    // ...and never for `root`, which is an infix operator.
    assert_eq!(tokenise("2root8".to_string()), toks(&["2", "$", "8"]));
}

#[test]
fn tokenise_drops_unrecognized_and_incomplete_names() {
    // An incomplete constant name is dropped character by character.
    assert_eq!(tokenise("2p3".to_string()), toks(&["23"]));
    assert_eq!(tokenise("ta".to_string()), Vec::<String>::new());
    // Characters outside the alphabet are dropped by the tokenizer too.
    assert_eq!(tokenise("1z2".to_string()), toks(&["12"]));
}

#[test]
fn handle_constants_recognizes_a_name_and_advances() {
    let mut index: usize = 1;
    let mut current = "2".to_string();
    let mut tokens: Vec<String> = Vec::new();
    let matched = handle_constants("2pi", &mut index, &mut current, &mut tokens);
    assert!(matched);
    assert_eq!(index, 3);
    assert_eq!(current, "".to_string());
    assert_eq!(tokens, toks(&["2", "*", "3.141592653589793"]));
}

#[test]
fn handle_constants_leaves_everything_alone_without_a_name() {
    let mut index: usize = 0;
    let mut current = "4".to_string();
    let mut tokens: Vec<String> = vec!["9".to_string()];
    let matched = handle_constants("5+1", &mut index, &mut current, &mut tokens);
    assert!(!matched);
    assert_eq!(index, 0);
    assert_eq!(current, "4".to_string());
    assert_eq!(tokens, toks(&["9"]));
}

#[test]
fn postfix_orders_by_precedence_left_associatively() {
    assert_eq!(to_postfix(toks(&["2", "+", "3", "*", "4"])), toks(&["2", "3", "4", "*", "+"]));
    assert_eq!(to_postfix(toks(&["2", "*", "3", "+", "4"])), toks(&["2", "3", "*", "4", "+"]));
    // Equal precedence pops: all operators are left-associative, `^` too.
    assert_eq!(to_postfix(toks(&["2", "^", "3", "^", "4"])), toks(&["2", "3", "^", "4", "^"]));
    assert_eq!(to_postfix(toks(&["1", "+", "2", "+", "3"])), toks(&["1", "2", "+", "3", "+"]));
}

#[test]
fn postfix_handles_parentheses() {
    assert_eq!(
        to_postfix(toks(&["(", "2", "+", "3", ")", "*", "4"])),
        toks(&["2", "3", "+", "4", "*"])
    );
    assert_eq!(
        to_postfix(toks(&["2", "*", "(", "3", "+", "4", ")"])),
        toks(&["2", "3", "4", "+", "*"])
    );
}

#[test]
fn postfix_discards_an_unmatched_closing_paren_silently() {
    // The stack is empty when `)` arrives: the discard is a no-op.
    assert_eq!(to_postfix(toks(&[")", "4"])), toks(&["4"]));
    assert_eq!(to_postfix(toks(&["2", ")", ")", "3"])), toks(&["2", "3"]));
}

#[test]
fn postfix_flushes_an_unmatched_opening_paren_to_the_output() {
    assert_eq!(to_postfix(toks(&["(", "2", "+", "3"])), toks(&["2", "3", "+", "("]));
}

#[test]
fn postfix_sends_signed_numerals_straight_to_the_output() {
    assert_eq!(to_postfix(toks(&["5", "-3"])), toks(&["5", "-3"]));
}
