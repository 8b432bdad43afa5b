//! An integer semantics for sum/product expressions, and the proof that the
//! converter is correct for them.
//!
//! Expressions built from non-negative integer numerals by `+` and `*`, with
//! parentheses exactly where precedence requires them, are the fragment on
//! which the pipeline agrees with ordinary left-associative precedence
//! rules: both operators keep their meaning under the evaluator's popping
//! convention (the first value popped is the right-hand operand, which
//! changes nothing for a commutative operator), and no sign is ever absorbed
//! into a numeral. [`lemma_sums_and_products_evaluate_correctly`] states the
//! result; the other items here are its machinery.

use vstd::prelude::*;

use crate::alphabet::is_digit_char;
use crate::alphabet::is_operator_char;
use crate::postfix::is_close_paren;
use crate::postfix::is_open_paren;
use crate::postfix::is_operator_token;
use crate::postfix::shunt;
use crate::postfix::spec_precedence;
use crate::postfix::to_postfix_spec;
use crate::tokenize::flush;
use crate::tokenize::is_constant_start;
use crate::tokenize::tokenise_spec;
use crate::tokenize::tokens_from;

verus! {

/// A sum/product expression: a numeral (kept as its token text), a
/// parenthesized expression, a sum, or a product.
pub enum Expr {
    Num(Seq<char>),
    Paren(Box<Expr>),
    Add(Box<Expr>, Box<Expr>),
    Mul(Box<Expr>, Box<Expr>),
}

/// How tightly the expression's outermost operator binds: sums lowest,
/// products above them, atoms (numerals and parenthesized expressions)
/// highest.
pub open spec fn level(e: Expr) -> int {
    match e {
        Expr::Num(_) => 3,
        Expr::Paren(_) => 3,
        Expr::Add(_, _) => 1,
        Expr::Mul(_, _) => 2,
    }
}

/// A well-formed expression: numerals are nonempty digit runs, and each
/// operand binds at least as tightly as its position requires, so that the
/// rendering below needs no parentheses beyond the explicit ones. (The left
/// operand may repeat the operator — chains associate to the left — but the
/// right operand may not.)
pub open spec fn wf(e: Expr) -> bool
    decreases e,
{
    match e {
        Expr::Num(t) => t.len() > 0 && forall|i: int| 0 <= i < t.len() ==> is_digit_char(t[i]),
        Expr::Paren(inner) => wf(*inner),
        Expr::Add(a, b) => wf(*a) && wf(*b) && level(*a) >= 1 && level(*b) >= 2,
        Expr::Mul(a, b) => wf(*a) && wf(*b) && level(*a) >= 2 && level(*b) >= 3,
    }
}

/// The value of a numeral token, read as a decimal number.
pub open spec fn numeral_value(t: Seq<char>) -> int
    decreases t.len(),
{
    if t.len() == 0 {
        0
    } else {
        numeral_value(t.drop_last()) * 10 + (t.last() as u32 - 48)
    }
}

/// The value of the expression.
pub open spec fn value(e: Expr) -> int
    decreases e,
{
    match e {
        Expr::Num(t) => numeral_value(t),
        Expr::Paren(inner) => value(*inner),
        Expr::Add(a, b) => value(*a) + value(*b),
        Expr::Mul(a, b) => value(*a) * value(*b),
    }
}

/// The expression rendered as an infix token sequence, the way the tokenizer
/// emits it.
pub open spec fn print(e: Expr) -> Seq<Seq<char>>
    decreases e,
{
    match e {
        Expr::Num(t) => seq![t],
        Expr::Paren(inner) => seq![seq!['(']] + print(*inner) + seq![seq![')']],
        Expr::Add(a, b) => print(*a) + seq![seq!['+']] + print(*b),
        Expr::Mul(a, b) => print(*a) + seq![seq!['*']] + print(*b),
    }
}

/// The expression rendered in postfix: operands first, operator last.
pub open spec fn rpn(e: Expr) -> Seq<Seq<char>>
    decreases e,
{
    match e {
        Expr::Num(t) => seq![t],
        Expr::Paren(inner) => rpn(*inner),
        Expr::Add(a, b) => rpn(*a) + rpn(*b) + seq![seq!['+']],
        Expr::Mul(a, b) => rpn(*a) + rpn(*b) + seq![seq!['*']],
    }
}

/// What the converter has sent to the output once it has consumed
/// `print(e)`: everything of `rpn(e)` except the operators still pending on
/// the stack.
pub open spec fn emitted(e: Expr) -> Seq<Seq<char>>
    decreases e,
{
    match e {
        Expr::Num(t) => seq![t],
        Expr::Paren(inner) => rpn(*inner),
        Expr::Add(a, b) => rpn(*a) + emitted(*b),
        Expr::Mul(a, b) => rpn(*a) + emitted(*b),
    }
}

/// The operators the converter still holds on the stack once it has
/// consumed `print(e)`, bottom first: the expression's spine of top-level
/// operators, tighter-binding ones on top.
pub open spec fn pending(e: Expr) -> Seq<Seq<char>>
    decreases e,
{
    match e {
        Expr::Num(_) => seq![],
        Expr::Paren(_) => seq![],
        Expr::Add(_, b) => seq![seq!['+']] + pending(*b),
        Expr::Mul(_, b) => seq![seq!['*']] + pending(*b),
    }
}

/// Evaluation of a postfix sequence over an operand stack of integers,
/// mirroring the evaluator's convention: the first value popped (the stack
/// top) is the first argument of the operation. Only `+` and `*` keep the
/// evaluation inside the integers; any other operator gives no result here.
pub open spec fn eval_rpn(ts: Seq<Seq<char>>, stack: Seq<int>) -> Option<Seq<int>>
    decreases ts.len(),
{
    if ts.len() == 0 {
        Some(stack)
    } else {
        let t = ts[0];
        if is_operator_token(t) {
            if stack.len() >= 2 {
                let a = stack.last();
                let b = stack.drop_last().last();
                if t[0] == '+' {
                    eval_rpn(ts.drop_first(), stack.drop_last().drop_last().push(a + b))
                } else if t[0] == '*' {
                    eval_rpn(ts.drop_first(), stack.drop_last().drop_last().push(a * b))
                } else {
                    None
                }
            } else {
                None
            }
        } else {
            eval_rpn(ts.drop_first(), stack.push(numeral_value(t)))
        }
    }
}

/// A numeral token is neither an operator nor a parenthesis.
proof fn lemma_digit_token_is_numeral(t: Seq<char>)
    requires
        t.len() > 0,
        forall|i: int| 0 <= i < t.len() ==> is_digit_char(t[i]),
    ensures
        !is_operator_token(t),
        !is_open_paren(t),
        !is_close_paren(t),
{
    assert(is_digit_char(t[0]));
}

/// Everything still pending after `print(e)` is an operator at least as
/// tight as the expression's own level.
proof fn lemma_pending_ops(e: Expr)
    requires
        wf(e),
    ensures
        forall|i: int|
            0 <= i < pending(e).len() ==> is_operator_token(#[trigger] pending(e)[i])
                && spec_precedence(pending(e)[i]) >= level(e),
    decreases e,
{
    match e {
        Expr::Num(_) => {
        },
        Expr::Paren(_) => {
        },
        Expr::Add(_, b) => {
            lemma_pending_ops(*b);
            assert(spec_precedence(seq!['+']) == 1);
            assert(forall|i: int|
                1 <= i < pending(e).len() ==> pending(e)[i] == pending(*b)[i - 1]);
        },
        Expr::Mul(_, b) => {
            lemma_pending_ops(*b);
            assert(spec_precedence(seq!['*']) == 2);
            assert(forall|i: int|
                1 <= i < pending(e).len() ==> pending(e)[i] == pending(*b)[i - 1]);
        },
    }
}

/// The postfix rendering is the emitted part followed by the pending
/// operators in pop order.
proof fn lemma_rpn_split(e: Expr)
    requires
        wf(e),
    ensures
        rpn(e) == emitted(e) + pending(e).reverse(),
    decreases e,
{
    match e {
        Expr::Num(t) => {
            assert(pending(e).reverse() =~= Seq::<Seq<char>>::empty());
            assert(rpn(e) =~= emitted(e) + pending(e).reverse());
        },
        Expr::Paren(_) => {
            assert(pending(e).reverse() =~= Seq::<Seq<char>>::empty());
            assert(rpn(e) =~= emitted(e) + pending(e).reverse());
        },
        Expr::Add(a, b) => {
            lemma_rpn_split(*b);
            assert(pending(e).reverse() =~= pending(*b).reverse() + seq![seq!['+']]);
            assert(rpn(e) =~= rpn(*a) + (emitted(*b) + pending(*b).reverse()) + seq![seq!['+']]);
            assert(rpn(e) =~= emitted(e) + pending(e).reverse());
        },
        Expr::Mul(a, b) => {
            lemma_rpn_split(*b);
            assert(pending(e).reverse() =~= pending(*b).reverse() + seq![seq!['*']]);
            assert(rpn(e) =~= rpn(*a) + (emitted(*b) + pending(*b).reverse()) + seq![seq!['*']]);
            assert(rpn(e) =~= emitted(e) + pending(e).reverse());
        },
    }
}

/// An arriving operator pops every stacked operator of precedence at least
/// its own, in pop order, and leaves the stack below untouched.
proof fn lemma_pop_run(t: Seq<char>, ts: Seq<Seq<char>>, s: Seq<Seq<char>>, p: Seq<Seq<char>>)
    requires
        is_operator_token(t),
        forall|i: int|
            0 <= i < p.len() ==> is_operator_token(#[trigger] p[i]) && spec_precedence(p[i])
                >= spec_precedence(t),
        s.len() == 0 || spec_precedence(s.last()) < spec_precedence(t),
    ensures
        shunt(seq![t] + ts, s + p) == p.reverse() + shunt(seq![t] + ts, s),
    decreases p.len(),
{
    if p.len() == 0 {
        assert(s + p =~= s);
        assert(p.reverse() =~= Seq::<Seq<char>>::empty());
        assert(p.reverse() + shunt(seq![t] + ts, s) =~= shunt(seq![t] + ts, s));
    } else {
        assert((seq![t] + ts)[0] == t);
        assert((s + p).last() == p.last());
        assert((s + p).drop_last() =~= s + p.drop_last());
        lemma_pop_run(t, ts, s, p.drop_last());
        assert(p.reverse() =~= seq![p.last()] + p.drop_last().reverse());
        assert(shunt(seq![t] + ts, s + p) == seq![p.last()] + shunt(
            seq![t] + ts,
            s + p.drop_last(),
        ));
        assert(seq![p.last()] + (p.drop_last().reverse() + shunt(seq![t] + ts, s))
            =~= p.reverse() + shunt(seq![t] + ts, s));
    }
}

/// An arriving `)` pops every stacked operator down to the nearest `(`, in
/// pop order.
proof fn lemma_pop_run_close(t: Seq<char>, ts: Seq<Seq<char>>, s: Seq<Seq<char>>, p: Seq<Seq<char>>)
    requires
        is_close_paren(t),
        forall|i: int| 0 <= i < p.len() ==> is_operator_token(#[trigger] p[i]),
        s.len() == 0 || is_open_paren(s.last()),
    ensures
        shunt(seq![t] + ts, s + p) == p.reverse() + shunt(seq![t] + ts, s),
    decreases p.len(),
{
    if p.len() == 0 {
        assert(s + p =~= s);
        assert(p.reverse() =~= Seq::<Seq<char>>::empty());
        assert(p.reverse() + shunt(seq![t] + ts, s) =~= shunt(seq![t] + ts, s));
    } else {
        assert((seq![t] + ts)[0] == t);
        assert((s + p).last() == p.last());
        assert(!is_open_paren(p.last()));
        assert((s + p).drop_last() =~= s + p.drop_last());
        lemma_pop_run_close(t, ts, s, p.drop_last());
        assert(p.reverse() =~= seq![p.last()] + p.drop_last().reverse());
        assert(shunt(seq![t] + ts, s + p) == seq![p.last()] + shunt(
            seq![t] + ts,
            s + p.drop_last(),
        ));
        assert(seq![p.last()] + (p.drop_last().reverse() + shunt(seq![t] + ts, s))
            =~= p.reverse() + shunt(seq![t] + ts, s));
    }
}

/// The heart of the correctness proof: consuming the rendering of `e` sends
/// `emitted(e)` to the output and leaves `pending(e)` on the stack, whenever
/// the stack top binds less tightly than `e` itself.
proof fn lemma_shunt_print(e: Expr, rest: Seq<Seq<char>>, stack: Seq<Seq<char>>)
    requires
        wf(e),
        stack.len() == 0 || spec_precedence(stack.last()) < level(e),
    ensures
        shunt(print(e) + rest, stack) == emitted(e) + shunt(rest, stack + pending(e)),
    decreases e,
{
    match e {
        Expr::Num(t) => {
            lemma_digit_token_is_numeral(t);
            assert((print(e) + rest)[0] == t);
            assert((print(e) + rest).drop_first() =~= rest);
            assert(stack + pending(e) =~= stack);
            assert(shunt(print(e) + rest, stack) == seq![t] + shunt(rest, stack));
        },
        Expr::Paren(inner) => {
            let open = seq!['('];
            let close = seq![')'];
            assert(print(e) + rest =~= seq![open] + (print(*inner) + (seq![close] + rest)));
            assert((seq![open] + (print(*inner) + (seq![close] + rest)))[0] == open);
            assert((seq![open] + (print(*inner) + (seq![close] + rest))).drop_first() =~= print(
                *inner,
            ) + (seq![close] + rest));
            assert(shunt(print(e) + rest, stack) == shunt(
                print(*inner) + (seq![close] + rest),
                stack.push(open),
            ));
            assert(stack.push(open).last() == open);
            lemma_shunt_print(*inner, seq![close] + rest, stack.push(open));
            lemma_pending_ops(*inner);
            assert(stack.push(open) + pending(*inner) =~= stack.push(open) + pending(*inner));
            lemma_pop_run_close(close, rest, stack.push(open), pending(*inner));
            assert((seq![close] + rest)[0] == close);
            assert((seq![close] + rest).drop_first() =~= rest);
            assert(stack.push(open).drop_last() =~= stack);
            assert(shunt(seq![close] + rest, stack.push(open)) == shunt(rest, stack));
            lemma_rpn_split(*inner);
            assert(stack + pending(e) =~= stack);
            assert(emitted(*inner) + (pending(*inner).reverse() + shunt(rest, stack))
                =~= rpn(*inner) + shunt(rest, stack));
        },
        Expr::Add(a, b) => {
            let plus = seq!['+'];
            let tail = seq![plus] + print(*b) + rest;
            assert(print(e) + rest =~= print(*a) + tail);
            lemma_shunt_print(*a, tail, stack);
            lemma_pending_ops(*a);
            assert(spec_precedence(plus) == 1);
            assert(tail =~= seq![plus] + (print(*b) + rest));
            lemma_pop_run(plus, print(*b) + rest, stack, pending(*a));
            assert((seq![plus] + (print(*b) + rest))[0] == plus);
            assert((seq![plus] + (print(*b) + rest)).drop_first() =~= print(*b) + rest);
            assert(is_operator_token(plus));
            assert(shunt(seq![plus] + (print(*b) + rest), stack) == shunt(
                print(*b) + rest,
                stack.push(plus),
            ));
            assert(stack.push(plus).last() == plus);
            lemma_shunt_print(*b, rest, stack.push(plus));
            lemma_rpn_split(*a);
            assert(stack.push(plus) + pending(*b) =~= stack + (seq![plus] + pending(*b)));
            assert(emitted(*a) + (pending(*a).reverse() + (emitted(*b) + shunt(
                rest,
                stack.push(plus) + pending(*b),
            ))) =~= (rpn(*a) + emitted(*b)) + shunt(rest, stack + pending(e)));
        },
        Expr::Mul(a, b) => {
            let star = seq!['*'];
            let tail = seq![star] + print(*b) + rest;
            assert(print(e) + rest =~= print(*a) + tail);
            lemma_shunt_print(*a, tail, stack);
            lemma_pending_ops(*a);
            assert(spec_precedence(star) == 2);
            assert(tail =~= seq![star] + (print(*b) + rest));
            lemma_pop_run(star, print(*b) + rest, stack, pending(*a));
            assert((seq![star] + (print(*b) + rest))[0] == star);
            assert((seq![star] + (print(*b) + rest)).drop_first() =~= print(*b) + rest);
            assert(is_operator_token(star));
            assert(shunt(seq![star] + (print(*b) + rest), stack) == shunt(
                print(*b) + rest,
                stack.push(star),
            ));
            assert(stack.push(star).last() == star);
            lemma_shunt_print(*b, rest, stack.push(star));
            lemma_rpn_split(*a);
            assert(stack.push(star) + pending(*b) =~= stack + (seq![star] + pending(*b)));
            assert(emitted(*a) + (pending(*a).reverse() + (emitted(*b) + shunt(
                rest,
                stack.push(star) + pending(*b),
            ))) =~= (rpn(*a) + emitted(*b)) + shunt(rest, stack + pending(e)));
        },
    }
}

/// The converter turns the infix rendering of a sum/product expression into
/// exactly its postfix rendering.
pub proof fn lemma_to_postfix_renders_rpn(e: Expr)
    requires
        wf(e),
    ensures
        to_postfix_spec(print(e)) == rpn(e),
{
    lemma_shunt_print(e, Seq::empty(), Seq::empty());
    assert(print(e) + Seq::<Seq<char>>::empty() =~= print(e));
    assert(Seq::<Seq<char>>::empty() + pending(e) =~= pending(e));
    assert(shunt(Seq::<Seq<char>>::empty(), pending(e)) == pending(e).reverse());
    lemma_rpn_split(e);
}

/// Evaluating a concatenation runs the first part first.
proof fn lemma_eval_rpn_append(
    a: Seq<Seq<char>>,
    b: Seq<Seq<char>>,
    stack: Seq<int>,
    mid: Seq<int>,
)
    requires
        eval_rpn(a, stack) == Some(mid),
    ensures
        eval_rpn(a + b, stack) == eval_rpn(b, mid),
    decreases a.len(),
{
    if a.len() == 0 {
        assert(a + b =~= b);
    } else {
        let t = a[0];
        assert((a + b)[0] == t);
        assert((a + b).drop_first() =~= a.drop_first() + b);
        if is_operator_token(t) {
            let x = stack.last();
            let y = stack.drop_last().last();
            if t[0] == '+' {
                lemma_eval_rpn_append(
                    a.drop_first(),
                    b,
                    stack.drop_last().drop_last().push(x + y),
                    mid,
                );
            } else {
                lemma_eval_rpn_append(
                    a.drop_first(),
                    b,
                    stack.drop_last().drop_last().push(x * y),
                    mid,
                );
            }
        } else {
            lemma_eval_rpn_append(a.drop_first(), b, stack.push(numeral_value(t)), mid);
        }
    }
}

/// Evaluating the postfix rendering of an expression pushes its value.
proof fn lemma_eval_rpn_value(e: Expr, stack: Seq<int>)
    requires
        wf(e),
    ensures
        eval_rpn(rpn(e), stack) == Some(stack.push(value(e))),
    decreases e,
{
    match e {
        Expr::Num(t) => {
            reveal_with_fuel(eval_rpn, 2);
            lemma_digit_token_is_numeral(t);
            assert(rpn(e)[0] == t);
            assert(rpn(e).drop_first() =~= Seq::<Seq<char>>::empty());
        },
        Expr::Paren(inner) => {
            lemma_eval_rpn_value(*inner, stack);
        },
        Expr::Add(a, b) => {
            reveal_with_fuel(eval_rpn, 2);
            let op = seq![seq!['+']];
            lemma_eval_rpn_value(*a, stack);
            lemma_eval_rpn_value(*b, stack.push(value(*a)));
            lemma_eval_rpn_append(rpn(*a), rpn(*b) + op, stack, stack.push(value(*a)));
            lemma_eval_rpn_append(
                rpn(*b),
                op,
                stack.push(value(*a)),
                stack.push(value(*a)).push(value(*b)),
            );
            assert(rpn(e) =~= rpn(*a) + (rpn(*b) + op));
            let st2 = stack.push(value(*a)).push(value(*b));
            assert(op[0] == seq!['+']);
            assert(is_operator_token(seq!['+']));
            assert(st2.last() == value(*b));
            assert(st2.drop_last().last() == value(*a));
            assert(st2.drop_last() =~= stack.push(value(*a)));
            assert(st2.drop_last().drop_last() =~= stack);
            assert(op.drop_first() =~= Seq::<Seq<char>>::empty());
        },
        Expr::Mul(a, b) => {
            reveal_with_fuel(eval_rpn, 2);
            let op = seq![seq!['*']];
            lemma_eval_rpn_value(*a, stack);
            lemma_eval_rpn_value(*b, stack.push(value(*a)));
            lemma_eval_rpn_append(rpn(*a), rpn(*b) + op, stack, stack.push(value(*a)));
            lemma_eval_rpn_append(
                rpn(*b),
                op,
                stack.push(value(*a)),
                stack.push(value(*a)).push(value(*b)),
            );
            assert(rpn(e) =~= rpn(*a) + (rpn(*b) + op));
            let st2 = stack.push(value(*a)).push(value(*b));
            assert(op[0] == seq!['*']);
            assert(is_operator_token(seq!['*']));
            assert(st2.last() == value(*b));
            assert(st2.drop_last().last() == value(*a));
            assert(st2.drop_last() =~= stack.push(value(*a)));
            assert(st2.drop_last().drop_last() =~= stack);
            assert(op.drop_first() =~= Seq::<Seq<char>>::empty());
            assert(value(*b) * value(*a) == value(*a) * value(*b)) by (nonlinear_arith);
        },
    }
}

/// A character the renderings below produce.
pub open spec fn is_simple_char(c: char) -> bool {
    is_digit_char(c) || c == '+' || c == '*' || c == '(' || c == ')'
}

/// A nonempty digit run.
pub open spec fn is_simple_numeral(t: Seq<char>) -> bool {
    t.len() > 0 && forall|i: int| 0 <= i < t.len() ==> is_digit_char(t[i])
}

/// One of the four one-character marks a rendering contains.
pub open spec fn is_simple_mark(t: Seq<char>) -> bool {
    t == seq!['+'] || t == seq!['*'] || t == seq!['('] || t == seq![')']
}

/// A token sequence as the renderings produce it: digit runs and marks, with
/// no two digit runs side by side.
pub open spec fn simple_tokens(ts: Seq<Seq<char>>) -> bool {
    &&& forall|i: int|
        0 <= i < ts.len() ==> is_simple_numeral(#[trigger] ts[i]) || is_simple_mark(ts[i])
    &&& forall|i: int|
        0 <= i < ts.len() - 1 ==> !(is_simple_numeral(#[trigger] ts[i]) && is_simple_numeral(
            ts[i + 1],
        ))
}

/// The token sequence written back out as one text.
pub open spec fn render(ts: Seq<Seq<char>>) -> Seq<char>
    decreases ts.len(),
{
    if ts.len() == 0 {
        Seq::empty()
    } else {
        ts[0] + render(ts.drop_first())
    }
}

/// Every character of a rendering is a digit or one of the four marks.
proof fn lemma_render_chars(ts: Seq<Seq<char>>)
    requires
        simple_tokens(ts),
    ensures
        forall|j: int| 0 <= j < render(ts).len() ==> is_simple_char(#[trigger] render(ts)[j]),
    decreases ts.len(),
{
    if ts.len() > 0 {
        let rest = ts.drop_first();
        assert(simple_tokens(rest)) by {
            assert(forall|i: int| 0 <= i < rest.len() ==> rest[i] == ts[i + 1]);
        }
        lemma_render_chars(rest);
        assert forall|j: int| 0 <= j < render(ts).len() implies is_simple_char(
            #[trigger] render(ts)[j],
        ) by {
            if j < ts[0].len() {
                assert(render(ts)[j] == ts[0][j]);
                assert(is_simple_numeral(ts[0]) || is_simple_mark(ts[0]));
            } else {
                assert(render(ts)[j] == render(rest)[j - ts[0].len()]);
            }
        }
    }
}

/// Over text of digits and marks, the tokenizer has no lookback: dropping a
/// consumed first character changes nothing.
proof fn lemma_tokens_from_shift(s: Seq<char>, i: nat, cur: Seq<char>)
    requires
        forall|j: int| 0 <= j < s.len() ==> is_simple_char(#[trigger] s[j]),
        1 <= i <= s.len(),
    ensures
        tokens_from(s, i, cur) == tokens_from(s.drop_first(), (i - 1) as nat, cur),
    decreases s.len() - i,
{
    let s2 = s.drop_first();
    assert(s2.len() == s.len() - 1);
    if i == s.len() {
        assert(tokens_from(s, i, cur) == flush(cur));
        assert(tokens_from(s2, (i - 1) as nat, cur) == flush(cur));
    } else {
        let c = s[i as int];
        assert(s2[i - 1] == c);
        assert(is_simple_char(c));
        assert(c != '-' && c != '.');
        assert(!is_constant_start(s, i as int));
        assert(!is_constant_start(s2, i - 1));
        if is_digit_char(c) {
            lemma_tokens_from_shift(s, i + 1, cur.push(c));
            assert(tokens_from(s, i, cur) == tokens_from(s, i + 1, cur.push(c)));
            assert(tokens_from(s2, (i - 1) as nat, cur) == tokens_from(s2, i, cur.push(c)));
        } else {
            assert(is_operator_char(c) || c == '(' || c == ')') by {
                assert(c == '+' || c == '*' || c == '(' || c == ')');
            }
            lemma_tokens_from_shift(s, i + 1, Seq::empty());
            assert(tokens_from(s, i, cur) == flush(cur) + seq![seq![c]] + tokens_from(
                s,
                i + 1,
                Seq::empty(),
            ));
            assert(tokens_from(s2, (i - 1) as nat, cur) == flush(cur) + seq![seq![c]]
                + tokens_from(s2, i, Seq::empty()));
        }
    }
}

/// Over text of digits and marks, tokenizing from position `i` is tokenizing
/// the text from `i` on.
proof fn lemma_tokens_from_skip(s: Seq<char>, i: nat, cur: Seq<char>)
    requires
        forall|j: int| 0 <= j < s.len() ==> is_simple_char(#[trigger] s[j]),
        i <= s.len(),
    ensures
        tokens_from(s, i, cur) == tokens_from(s.skip(i as int), 0, cur),
    decreases i,
{
    if i == 0 {
        assert(s.skip(0) =~= s);
    } else {
        lemma_tokens_from_shift(s, i, cur);
        let s2 = s.drop_first();
        assert(forall|j: int| 0 <= j < s2.len() ==> is_simple_char(#[trigger] s2[j]));
        lemma_tokens_from_skip(s2, (i - 1) as nat, cur);
        assert(s2.skip(i - 1) =~= s.skip(i as int));
    }
}

/// A digit run at the head of the text becomes one numeral token, flushed
/// intact when the run ends.
proof fn lemma_numeral_head(s: Seq<char>, j: nat, k: nat)
    requires
        forall|m: int| 0 <= m < s.len() ==> is_simple_char(#[trigger] s[m]),
        j <= k <= s.len(),
        k >= 1,
        forall|m: int| 0 <= m < k ==> is_digit_char(#[trigger] s[m]),
        k == s.len() || !is_digit_char(s[k as int]),
    ensures
        tokens_from(s, j, s.take(j as int)) == seq![s.take(k as int)] + tokens_from(
            s,
            k,
            Seq::empty(),
        ),
    decreases k - j,
{
    if j == k {
        if k == s.len() {
            assert(tokens_from(s, k, s.take(k as int)) == flush(s.take(k as int)));
            assert(flush(s.take(k as int)) =~= seq![s.take(k as int)]);
            assert(tokens_from(s, k, Seq::empty()) == flush(Seq::empty()));
            assert(seq![s.take(k as int)] + flush(Seq::empty()) =~= seq![s.take(k as int)]);
        } else {
            let c = s[k as int];
            assert(c != '-' && c != '.' && !is_digit_char(c));
            assert(!is_constant_start(s, k as int));
            assert(tokens_from(s, k, s.take(k as int)) == flush(s.take(k as int)) + seq![seq![c]]
                + tokens_from(s, k + 1, Seq::empty()));
            assert(tokens_from(s, k, Seq::empty()) == flush(Seq::empty()) + seq![seq![c]]
                + tokens_from(s, k + 1, Seq::empty()));
            assert(flush(s.take(k as int)) =~= seq![s.take(k as int)]);
            assert(flush(s.take(k as int)) + seq![seq![c]] + tokens_from(s, k + 1, Seq::empty())
                =~= seq![s.take(k as int)] + (flush(Seq::empty()) + seq![seq![c]] + tokens_from(
                s,
                k + 1,
                Seq::empty(),
            )));
        }
    } else {
        let c = s[j as int];
        assert(is_digit_char(c));
        assert(s.take(j as int).push(c) =~= s.take(j as int + 1));
        lemma_numeral_head(s, j + 1, k);
    }
}

/// Tokenizing a rendered token sequence of digit runs and marks gives back
/// exactly those tokens.
pub proof fn lemma_tokenise_render(ts: Seq<Seq<char>>)
    requires
        simple_tokens(ts),
    ensures
        tokenise_spec(render(ts)) == ts,
    decreases ts.len(),
{
    let s = render(ts);
    lemma_render_chars(ts);
    if ts.len() == 0 {
        assert(tokens_from(s, 0, Seq::empty()) == flush(Seq::empty()));
        assert(flush(Seq::empty()) =~= ts);
    } else {
        let t = ts[0];
        let rest = ts.drop_first();
        assert(simple_tokens(rest)) by {
            assert(forall|i: int| 0 <= i < rest.len() ==> rest[i] == ts[i + 1]);
        }
        assert(s == t + render(rest));
        if is_simple_mark(t) {
            let c = t[0];
            assert(s[0] == c);
            assert(c != '-' && c != '.' && !is_digit_char(c));
            assert(!is_constant_start(s, 0));
            assert(tokens_from(s, 0, Seq::empty()) == flush(Seq::empty()) + seq![seq![c]]
                + tokens_from(s, 1, Seq::empty()));
            lemma_tokens_from_skip(s, 1, Seq::empty());
            assert(s.skip(1) =~= render(rest));
            lemma_tokenise_render(rest);
            assert(seq![c] =~= t);
            assert(flush(Seq::empty()) + seq![t] + rest =~= ts);
        } else {
            let k = t.len();
            assert(forall|m: int| 0 <= m < k ==> s[m] == t[m]);
            if rest.len() == 0 {
                assert(render(rest) =~= Seq::<char>::empty());
                assert(s =~= t);
                assert(k == s.len());
            } else {
                assert(!(is_simple_numeral(ts[0]) && is_simple_numeral(ts[1])));
                assert(rest[0] == ts[1]);
                assert(is_simple_mark(rest[0]));
                assert(render(rest)[0] == rest[0][0]);
                assert(s[k as int] == rest[0][0]);
                assert(!is_digit_char(s[k as int]));
            }
            assert(s.take(0) =~= Seq::<char>::empty());
            lemma_numeral_head(s, 0, k as nat);
            assert(s.take(k as int) =~= t);
            lemma_tokens_from_skip(s, k as nat, Seq::empty());
            assert(s.skip(k as int) =~= render(rest));
            lemma_tokenise_render(rest);
            assert(seq![t] + rest =~= ts);
        }
    }
}

/// A one-character mark is not a digit run.
proof fn lemma_mark_not_numeral(c: char)
    requires
        !is_digit_char(c),
    ensures
        !is_simple_numeral(seq![c]),
{
    assert(seq![c][0] == c);
}

/// Two renderable token sequences joined without putting digit runs side by
/// side are renderable.
proof fn lemma_simple_concat(a: Seq<Seq<char>>, b: Seq<Seq<char>>)
    requires
        simple_tokens(a),
        simple_tokens(b),
        a.len() == 0 || b.len() == 0 || !(is_simple_numeral(a.last()) && is_simple_numeral(b[0])),
    ensures
        simple_tokens(a + b),
{
    let c = a + b;
    assert forall|i: int| 0 <= i < c.len() implies is_simple_numeral(#[trigger] c[i])
        || is_simple_mark(c[i]) by {
        if i < a.len() {
            assert(c[i] == a[i]);
        } else {
            assert(c[i] == b[i - a.len()]);
        }
    }
    assert forall|i: int| 0 <= i < c.len() - 1 implies !(is_simple_numeral(#[trigger] c[i])
        && is_simple_numeral(c[i + 1])) by {
        if i + 1 < a.len() {
            assert(c[i] == a[i] && c[i + 1] == a[i + 1]);
        } else if i + 1 == a.len() {
            assert(c[i] == a.last() && c[i + 1] == b[0]);
        } else {
            assert(c[i] == b[i - a.len()] && c[i + 1] == b[i + 1 - a.len()]);
        }
    }
}

/// The rendering of a well-formed expression is a renderable token sequence.
proof fn lemma_print_simple(e: Expr)
    requires
        wf(e),
    ensures
        simple_tokens(print(e)),
        print(e).len() > 0,
    decreases e,
{
    match e {
        Expr::Num(t) => {
            assert(print(e) =~= seq![t]);
        },
        Expr::Paren(inner) => {
            lemma_print_simple(*inner);
            assert(is_simple_mark(seq!['(']) && is_simple_mark(seq![')']));
            lemma_mark_not_numeral('(');
            lemma_mark_not_numeral(')');
            assert(simple_tokens(seq![seq!['(']]));
            lemma_simple_concat(seq![seq!['(']], print(*inner));
            assert(simple_tokens(seq![seq![')']]));
            assert((seq![seq!['(']] + print(*inner)).last() == print(*inner).last());
            lemma_simple_concat(seq![seq!['(']] + print(*inner), seq![seq![')']]);
        },
        Expr::Add(a, b) => {
            lemma_print_simple(*a);
            lemma_print_simple(*b);
            assert(is_simple_mark(seq!['+']));
            lemma_mark_not_numeral('+');
            assert(simple_tokens(seq![seq!['+']]));
            lemma_simple_concat(print(*a), seq![seq!['+']]);
            assert((print(*a) + seq![seq!['+']]).last() == seq!['+']);
            lemma_simple_concat(print(*a) + seq![seq!['+']], print(*b));
        },
        Expr::Mul(a, b) => {
            lemma_print_simple(*a);
            lemma_print_simple(*b);
            assert(is_simple_mark(seq!['*']));
            lemma_mark_not_numeral('*');
            assert(simple_tokens(seq![seq!['*']]));
            lemma_simple_concat(print(*a), seq![seq!['*']]);
            assert((print(*a) + seq![seq!['*']]).last() == seq!['*']);
            lemma_simple_concat(print(*a) + seq![seq!['*']], print(*b));
        },
    }
}

/// The whole pipeline on a sum/product expression of non-negative integer
/// numerals, with parentheses balanced as rendered: tokenizing its rendered
/// text gives exactly its infix tokens, converting those gives exactly its
/// postfix rendering, and evaluating that yields exactly its value under
/// left-associative precedence rules, `*` binding tighter than `+`.
pub proof fn lemma_integer_pipeline_is_correct(e: Expr)
    requires
        wf(e),
    ensures
        tokenise_spec(render(print(e))) == print(e),
        to_postfix_spec(print(e)) == rpn(e),
        eval_rpn(rpn(e), Seq::empty()) == Some(seq![value(e)]),
        eval_rpn(to_postfix_spec(print(e)), Seq::empty()) == Some(seq![value(e)]),
{
    lemma_print_simple(e);
    lemma_tokenise_render(print(e));
    lemma_to_postfix_renders_rpn(e);
    lemma_eval_rpn_value(e, Seq::empty());
    assert(Seq::<int>::empty().push(value(e)) =~= seq![value(e)]);
}

} // verus!
