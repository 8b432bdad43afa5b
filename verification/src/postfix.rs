//! The infix-to-postfix converter (shunting yard).
//!
//! The converter consumes the token sequence once, with a transient operator
//! stack:
//!
//! - a numeral token goes straight to the output;
//! - an operator token first pops to the output every stacked operator of
//!   precedence greater than or equal to its own (all operators are
//!   left-associative, `^` and `$` included), then is pushed;
//! - `(` is pushed unconditionally;
//! - `)` pops to the output until a `(` is on top, then discards that `(`;
//!   with an unmatched `)` the stack empties and the discard is skipped,
//!   silently;
//! - at the end, the remaining stack is popped to the output in pop order.
//!
//! A token is an operator token exactly when it is a single character of
//! `+ - * / ^ $`; `(` and `)` are grouping tokens; every other token (a
//! signed numeral such as `-3` included) counts as a numeral and goes
//! straight to the output.
//!
//! [`shunt`] is the specification; [`to_postfix`] is proved to return it.

use vstd::prelude::*;

verus! {

/// The precedence tier of an operator character: `+ -` lowest, `* /` above
/// them, `^ $` highest. Everything else (the parentheses included) is 0, so
/// a `(` on the stack is never popped by an operator.
pub open spec fn prec_char(c: char) -> int {
    if c == '+' || c == '-' {
        1
    } else if c == '*' || c == '/' {
        2
    } else if c == '^' || c == '$' {
        3
    } else {
        0
    }
}

/// The precedence of a token: its character's tier for one-character
/// tokens, 0 for all others.
pub open spec fn spec_precedence(t: Seq<char>) -> int {
    if t.len() == 1 {
        prec_char(t[0])
    } else {
        0
    }
}

/// A binary-operator character.
pub open spec fn is_bin_op_char(c: char) -> bool {
    c == '^' || c == '$' || c == '*' || c == '/' || c == '+' || c == '-'
}

/// An operator token: exactly one character, from the operator set.
pub open spec fn is_operator_token(t: Seq<char>) -> bool {
    t.len() == 1 && is_bin_op_char(t[0])
}

/// The `(` token.
pub open spec fn is_open_paren(t: Seq<char>) -> bool {
    t.len() == 1 && t[0] == '('
}

/// The `)` token.
pub open spec fn is_close_paren(t: Seq<char>) -> bool {
    t.len() == 1 && t[0] == ')'
}

/// The postfix ordering of the tokens `ts`, given the operators already on
/// the stack (stack top last). One recursive step either consumes the first
/// token or pops one stack entry, so the converter's loops mirror it
/// exactly.
pub open spec fn shunt(ts: Seq<Seq<char>>, stack: Seq<Seq<char>>) -> Seq<Seq<char>>
    decreases ts.len(), stack.len(),
{
    if ts.len() == 0 {
        stack.reverse()
    } else {
        let t = ts[0];
        if is_operator_token(t) {
            if stack.len() > 0 && spec_precedence(stack.last()) >= spec_precedence(t) {
                seq![stack.last()] + shunt(ts, stack.drop_last())
            } else {
                shunt(ts.drop_first(), stack.push(t))
            }
        } else if is_open_paren(t) {
            shunt(ts.drop_first(), stack.push(t))
        } else if is_close_paren(t) {
            if stack.len() > 0 && !is_open_paren(stack.last()) {
                seq![stack.last()] + shunt(ts, stack.drop_last())
            } else if stack.len() > 0 {
                shunt(ts.drop_first(), stack.drop_last())
            } else {
                shunt(ts.drop_first(), stack)
            }
        } else {
            seq![t] + shunt(ts.drop_first(), stack)
        }
    }
}

/// The postfix ordering of `ts`, starting from an empty stack.
pub open spec fn to_postfix_spec(ts: Seq<Seq<char>>) -> Seq<Seq<char>> {
    shunt(ts, Seq::empty())
}

/// The precedence tier of an operator, as text: `+ -` give 1, `* /` give 2,
/// `^ $` give 3, anything else gives 0.
pub fn precedence(operation: &str) -> (p: i32)
    ensures
        p == spec_precedence(operation@),
{
    if operation.unicode_len() == 1 {
        let c: char = operation.get_char(0);
        if c == '+' || c == '-' {
            1
        } else if c == '*' || c == '/' {
            2
        } else if c == '^' || c == '$' {
            3
        } else {
            0
        }
    } else {
        0
    }
}

/// Decides whether `t` is an operator token.
fn is_operator_tok(t: &String) -> (r: bool)
    ensures
        r == is_operator_token(t@),
{
    if t.as_str().unicode_len() == 1 {
        let c: char = t.as_str().get_char(0);
        c == '^' || c == '$' || c == '*' || c == '/' || c == '+' || c == '-'
    } else {
        false
    }
}

/// Decides whether `t` is the one-character token `c`.
fn is_char_tok(t: &String, c: char) -> (r: bool)
    ensures
        r == (t@.len() == 1 && t@[0] == c),
{
    t.as_str().unicode_len() == 1 && t.as_str().get_char(0) == c
}

/// Reorders the token sequence into postfix (Reverse Polish) form. The
/// result is exactly [`to_postfix_spec`] of the input, so no token is
/// dropped except a `)` and the `(` it matches (an unmatched `(` ends up in
/// the output when the stack drains; an unmatched `)` is discarded with the
/// stack already empty).
pub fn to_postfix(tokens: Vec<String>) -> (postfix_tokens: Vec<String>)
    ensures
        postfix_tokens.deep_view() == to_postfix_spec(tokens.deep_view()),
{
    let ghost all = tokens.deep_view();
    let mut postfix_tokens: Vec<String> = Vec::new();
    let mut stack: Vec<String> = Vec::new();
    let n: usize = tokens.len();
    let mut idx: usize = 0;
    proof {
        assert(postfix_tokens.deep_view() =~= Seq::<Seq<char>>::empty());
        assert(all.skip(0) =~= all);
    }
    while idx < n
        invariant
            n == tokens.len(),
            idx <= n,
            all == tokens.deep_view(),
            postfix_tokens.deep_view() + shunt(all.skip(idx as int), stack.deep_view())
                == to_postfix_spec(all),
        decreases n - idx,
    {
        let ghost rest = all.skip(idx as int);
        let t: &String = &tokens[idx];
        proof {
            assert(rest[0] == t@);
        }
        if is_operator_tok(t) {
            let p: i32 = precedence(t.as_str());
            while stack.len() > 0 && precedence(stack[stack.len() - 1].as_str()) >= p
                invariant
                    p == spec_precedence(t@),
                    is_operator_token(t@),
                    rest.len() > 0,
                    rest[0] == t@,
                    postfix_tokens.deep_view() + shunt(rest, stack.deep_view())
                        == to_postfix_spec(all),
                decreases stack.len(),
            {
                let ghost st0 = stack.deep_view();
                let ghost dv0 = postfix_tokens.deep_view();
                let popped: String = stack.pop().unwrap();
                postfix_tokens.push(popped);
                proof {
                    assert(stack.deep_view() =~= st0.drop_last());
                    assert(postfix_tokens.deep_view() =~= dv0.push(st0.last()));
                    assert(shunt(rest, st0) == seq![st0.last()] + shunt(rest, st0.drop_last()));
                    assert(postfix_tokens.deep_view() + shunt(rest, stack.deep_view())
                        =~= dv0 + shunt(rest, st0));
                }
            }
            let ghost st1 = stack.deep_view();
            stack.push(t.clone());
            proof {
                assert(stack.deep_view() =~= st1.push(t@));
                assert(shunt(rest, st1) == shunt(rest.drop_first(), st1.push(t@)));
                assert(rest.drop_first() =~= all.skip(idx + 1));
            }
        } else if is_char_tok(t, '(') {
            let ghost st1 = stack.deep_view();
            stack.push(t.clone());
            proof {
                assert(is_open_paren(t@));
                assert(stack.deep_view() =~= st1.push(t@));
                assert(shunt(rest, st1) == shunt(rest.drop_first(), st1.push(t@)));
                assert(rest.drop_first() =~= all.skip(idx + 1));
            }
        } else if is_char_tok(t, ')') {
            proof {
                assert(is_close_paren(t@));
            }
            while stack.len() > 0 && !is_char_tok(&stack[stack.len() - 1], '(')
                invariant
                    is_close_paren(t@),
                    rest.len() > 0,
                    rest[0] == t@,
                    postfix_tokens.deep_view() + shunt(rest, stack.deep_view())
                        == to_postfix_spec(all),
                decreases stack.len(),
            {
                let ghost st0 = stack.deep_view();
                let ghost dv0 = postfix_tokens.deep_view();
                let popped: String = stack.pop().unwrap();
                postfix_tokens.push(popped);
                proof {
                    assert(stack.deep_view() =~= st0.drop_last());
                    assert(postfix_tokens.deep_view() =~= dv0.push(st0.last()));
                    assert(shunt(rest, st0) == seq![st0.last()] + shunt(rest, st0.drop_last()));
                    assert(postfix_tokens.deep_view() + shunt(rest, stack.deep_view())
                        =~= dv0 + shunt(rest, st0));
                }
            }
            let ghost st1 = stack.deep_view();
            if stack.len() > 0 {
                stack.pop();
                proof {
                    assert(is_open_paren(st1.last()));
                    assert(stack.deep_view() =~= st1.drop_last());
                    assert(shunt(rest, st1) == shunt(rest.drop_first(), st1.drop_last()));
                    assert(rest.drop_first() =~= all.skip(idx + 1));
                }
            } else {
                proof {
                    assert(st1.len() == 0);
                    assert(shunt(rest, st1) == shunt(rest.drop_first(), st1));
                    assert(rest.drop_first() =~= all.skip(idx + 1));
                }
            }
        } else {
            let ghost dv0 = postfix_tokens.deep_view();
            postfix_tokens.push(t.clone());
            proof {
                assert(postfix_tokens.deep_view() =~= dv0.push(t@));
                assert(shunt(rest, stack.deep_view()) == seq![t@] + shunt(
                    rest.drop_first(),
                    stack.deep_view(),
                ));
                assert(postfix_tokens.deep_view() =~= dv0 + seq![t@]);
                assert(rest.drop_first() =~= all.skip(idx + 1));
            }
        }
        idx += 1;
    }
    proof {
        assert(all.skip(n as int) =~= Seq::<Seq<char>>::empty());
    }
    while stack.len() > 0
        invariant
            postfix_tokens.deep_view() + stack.deep_view().reverse() == to_postfix_spec(all),
        decreases stack.len(),
    {
        let ghost st0 = stack.deep_view();
        let ghost dv0 = postfix_tokens.deep_view();
        let popped: String = stack.pop().unwrap();
        postfix_tokens.push(popped);
        proof {
            assert(stack.deep_view() =~= st0.drop_last());
            assert(postfix_tokens.deep_view() =~= dv0.push(st0.last()));
            assert(st0.reverse() =~= seq![st0.last()] + st0.drop_last().reverse());
            assert(postfix_tokens.deep_view() + stack.deep_view().reverse()
                =~= dv0 + st0.reverse());
        }
    }
    proof {
        assert(postfix_tokens.deep_view() =~= to_postfix_spec(all));
    }
    postfix_tokens
}

} // verus!
