//! End-to-end scenarios: sanitize, tokenize, convert, then evaluate the
//! postfix sequence the way the surrounding program does — an operand stack
//! of floats, where the first value popped for an operator is the right-hand
//! operand and is passed as the first argument of the binary function.

use calc_core::clean_string;
use calc_core::to_postfix;
use calc_core::tokenise;

fn toks(v: &[&str]) -> Vec<String> {
    v.iter().map(|s| s.to_string()).collect()
}

fn is_operator_token(t: &str) -> bool {
    t.len() == 1 && matches!(t.chars().next().unwrap(), '^' | '$' | '*' | '/' | '+' | '-')
}

fn perform_operation(a: f64, b: f64, operator: char) -> f64 {
    match operator {
        '^' => a.powf(b),
        '$' => b.powf(1.0 / a),
        '*' => a * b,
        '/' => a / b,
        '+' => a + b,
        '-' => a - b,
        _ => panic!("unsupported operator"),
    }
}

/// `None` stands for any of the fatal evaluation errors: an operator with
/// fewer than two operands, a numeral that does not parse, or an empty stack
/// at the end.
fn eval_postfix(tokens: Vec<String>) -> Option<f64> {
    let mut stack: Vec<f64> = Vec::new();
    for token in tokens {
        if is_operator_token(&token) {
            let a = stack.pop()?;
            let b = stack.pop()?;
            stack.push(perform_operation(a, b, token.chars().next().unwrap()));
        } else {
            stack.push(token.parse::<f64>().ok()?);
        }
    }
    stack.pop()
}

fn run(input: &str) -> Option<f64> {
    eval_postfix(to_postfix(tokenise(clean_string(input.to_string()))))
}

#[test]
fn sum_and_product_respect_precedence() {
    let tokens = tokenise("2+3*4".to_string());
    assert_eq!(tokens, toks(&["2", "+", "3", "*", "4"]));
    let postfix = to_postfix(tokens);
    assert_eq!(postfix, toks(&["2", "3", "4", "*", "+"]));
    let result = eval_postfix(postfix).unwrap();
    assert_eq!(format!("{:.5}", result), "14.00000");
}

#[test]
fn integer_expressions_with_balanced_parens() {
    // Additions and multiplications evaluate as under ordinary
    // left-associative precedence rules.
    assert_eq!(run("(2+3)*4"), Some(20.0));
    assert_eq!(run("2*(3+4)"), Some(14.0));
    assert_eq!(run("10+2*3"), Some(16.0));
    assert_eq!(run("((1+2))*(3+4)"), Some(21.0));
    assert_eq!(run("1+2+3+4"), Some(10.0));
    assert_eq!(run("2*3*4"), Some(24.0));
}

#[test]
fn round_trip_of_a_bare_numeral() {
    assert_eq!(tokenise("42".to_string()), toks(&["42"]));
    assert_eq!(to_postfix(toks(&["42"])), toks(&["42"]));
    assert_eq!(run("42"), Some(42.0));
    assert_eq!(run("3.5"), Some(3.5));
    assert_eq!(run("-7"), Some(-7.0));
}

#[test]
fn power_pairs_the_right_operand_first() {
    // The first value popped (the right operand, 3) is the base: 3 ^ 2.
    let postfix = to_postfix(tokenise("2^3".to_string()));
    assert_eq!(postfix, toks(&["2", "3", "^"]));
    let result = eval_postfix(postfix).unwrap();
    assert_eq!(format!("{:.5}", result), "9.00000");
}

#[test]
fn juxtaposed_constant_multiplies() {
    let tokens = tokenise("2pi".to_string());
    assert_eq!(tokens, toks(&["2", "*", "3.141592653589793"]));
    let result = run("2pi").unwrap();
    assert_eq!(format!("{:.5}", result), "6.28319");
}

#[test]
fn tau_and_e_evaluate_to_their_expansions() {
    assert_eq!(format!("{:.5}", run("tau").unwrap()), "6.28319");
    assert_eq!(format!("{:.5}", run("e").unwrap()), "2.71828");
}

#[test]
fn unmatched_closing_paren_does_not_crash_the_converter() {
    let tokens = tokenise("root2)4".to_string());
    assert_eq!(tokens, toks(&["$", "2", ")", "4"]));
    // The `)` finds no `(`: the stack empties and the discard is skipped.
    let postfix = to_postfix(tokens);
    assert_eq!(postfix, toks(&["2", "$", "4"]));
    // Evaluation then runs the root operator with one operand: underflow.
    assert_eq!(eval_postfix(postfix), None);
}

#[test]
fn absorbed_sign_leaves_two_numerals_and_no_subtraction() {
    let postfix = to_postfix(tokenise("5-3".to_string()));
    assert_eq!(postfix, toks(&["5", "-3"]));
    // No operator combines the two numerals; the evaluator returns the last
    // value pushed.
    assert_eq!(eval_postfix(postfix), Some(-3.0));
}

#[test]
fn division_pairs_the_right_operand_first() {
    let postfix = to_postfix(tokenise("10/2".to_string()));
    assert_eq!(postfix, toks(&["10", "2", "/"]));
    // The first value popped (2) is divided by the second (10).
    let result = eval_postfix(postfix).unwrap();
    assert_eq!(format!("{:.5}", result), "0.20000");
}

#[test]
fn root_operator_takes_the_degree_from_the_right() {
    // `2 root 8`: postfix [2, 8, $], first pop 8, second pop 2 -> 2^(1/8).
    let result = run("2root8").unwrap();
    assert_eq!(format!("{:.5}", result), format!("{:.5}", 2.0_f64.powf(1.0 / 8.0)));
}

#[test]
fn empty_input_gives_no_result() {
    assert_eq!(run(""), None);
    assert_eq!(run("???"), None);
}
