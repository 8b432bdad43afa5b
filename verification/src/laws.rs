//! Laws relating the pipeline stages.

use vstd::multiset::Multiset;
use vstd::prelude::*;

use crate::alphabet::is_digit_char;
use crate::postfix::is_close_paren;
use crate::postfix::spec_precedence;
use crate::postfix::is_open_paren;
use crate::postfix::is_operator_token;
use crate::postfix::shunt;
use crate::postfix::to_postfix_spec;
use crate::tokenize::flush;
use crate::tokenize::tokenise_spec;
use crate::tokenize::tokens_from;

verus! {

/// A numeral token: neither an operator token nor a parenthesis. The
/// converter sends such a token straight to the output.
pub open spec fn is_numeral_token(t: Seq<char>) -> bool {
    !is_operator_token(t) && !is_open_paren(t) && !is_close_paren(t)
}

/// The numeral-token predicate, as a value to filter with.
pub open spec fn numeral_pred() -> spec_fn(Seq<char>) -> bool {
    |t: Seq<char>| is_numeral_token(t)
}

/// A sequence none of whose tokens is a numeral (as the operator stack
/// always is: it holds operators and `(` only).
pub open spec fn no_numerals(stack: Seq<Seq<char>>) -> bool {
    forall|i: int| 0 <= i < stack.len() ==> !is_numeral_token(#[trigger] stack[i])
}

/// Filtering a sequence in which nothing satisfies the predicate leaves
/// nothing.
proof fn lemma_filter_all_false(s: Seq<Seq<char>>, pred: spec_fn(Seq<char>) -> bool)
    requires
        forall|i: int| 0 <= i < s.len() ==> !pred(#[trigger] s[i]),
    ensures
        s.filter(pred) =~= Seq::<Seq<char>>::empty(),
    decreases s.len(),
{
    reveal(Seq::filter);
    if s.len() > 0 {
        lemma_filter_all_false(s.drop_last(), pred);
    }
}

/// The converter never emits, drops or reorders a numeral: whatever sits on
/// the operator stack, the numerals of the output are exactly the numerals
/// of the remaining input, in the same order.
proof fn lemma_shunt_preserves_numerals(ts: Seq<Seq<char>>, stack: Seq<Seq<char>>)
    requires
        no_numerals(stack),
    ensures
        shunt(ts, stack).filter(numeral_pred()) == ts.filter(numeral_pred()),
    decreases ts.len(), stack.len(),
{
    broadcast use Seq::filter_distributes_over_add;

    let pred = numeral_pred();
    if ts.len() == 0 {
        assert(forall|i: int|
            0 <= i < stack.reverse().len() ==> !pred(#[trigger] stack.reverse()[i]));
        lemma_filter_all_false(stack.reverse(), pred);
        lemma_filter_all_false(ts, pred);
    } else {
        let t = ts[0];
        assert(ts =~= seq![t] + ts.drop_first());
        if is_operator_token(t) {
            if stack.len() > 0 && spec_precedence(stack.last()) >= spec_precedence(t) {
                lemma_shunt_preserves_numerals(ts, stack.drop_last());
                lemma_filter_all_false(seq![stack.last()], pred);
            } else {
                assert(no_numerals(stack.push(t)));
                lemma_shunt_preserves_numerals(ts.drop_first(), stack.push(t));
                lemma_filter_all_false(seq![t], pred);
            }
        } else if is_open_paren(t) {
            assert(no_numerals(stack.push(t)));
            lemma_shunt_preserves_numerals(ts.drop_first(), stack.push(t));
            lemma_filter_all_false(seq![t], pred);
        } else if is_close_paren(t) {
            if stack.len() > 0 && !is_open_paren(stack.last()) {
                lemma_shunt_preserves_numerals(ts, stack.drop_last());
                lemma_filter_all_false(seq![stack.last()], pred);
            } else if stack.len() > 0 {
                lemma_shunt_preserves_numerals(ts.drop_first(), stack.drop_last());
                lemma_filter_all_false(seq![t], pred);
            } else {
                lemma_shunt_preserves_numerals(ts.drop_first(), stack);
                lemma_filter_all_false(seq![t], pred);
            }
        } else {
            lemma_shunt_preserves_numerals(ts.drop_first(), stack);
            assert(seq![t].filter(pred) =~= seq![t]) by {
                reveal(Seq::filter);
                assert(seq![t].drop_last() =~= Seq::<Seq<char>>::empty());
            }
        }
    }
}

/// No numeral is ever dropped, invented or reordered by the converter: the
/// numerals of the postfix output are exactly the numerals of the input
/// token sequence, in the same order. (Only parenthesis tokens can go
/// missing: a `)` and the `(` it matches.)
pub proof fn lemma_postfix_preserves_numerals(ts: Seq<Seq<char>>)
    ensures
        to_postfix_spec(ts).filter(numeral_pred()) == ts.filter(numeral_pred()),
{
    lemma_shunt_preserves_numerals(ts, Seq::empty());
}

/// The operator-token predicate, as a value to filter with.
pub open spec fn operator_pred() -> spec_fn(Seq<char>) -> bool {
    |t: Seq<char>| is_operator_token(t)
}

/// Reversing a sequence does not change what a filter of it holds, counted
/// as a multiset.
proof fn lemma_reverse_filter_to_multiset(s: Seq<Seq<char>>, pred: spec_fn(Seq<char>) -> bool)
    ensures
        s.reverse().filter(pred).to_multiset() =~= s.filter(pred).to_multiset(),
    decreases s.len(),
{
    broadcast use Seq::filter_distributes_over_add;
    broadcast use vstd::seq_lib::lemma_multiset_commutative;
    broadcast use vstd::seq_lib::group_to_multiset_ensures;
    broadcast use vstd::multiset::group_multiset_axioms;

    if s.len() == 0 {
        assert(s.reverse() =~= s);
    } else {
        assert(s.reverse() =~= seq![s.last()] + s.drop_last().reverse());
        assert(s =~= s.drop_last() + seq![s.last()]);
        lemma_reverse_filter_to_multiset(s.drop_last(), pred);
    }
}

/// The converter never drops or duplicates an operator: whatever sits on the
/// operator stack, the operators of the output are the operators of the
/// remaining input together with those of the stack, counted as multisets.
proof fn lemma_shunt_conserves_operators(ts: Seq<Seq<char>>, stack: Seq<Seq<char>>)
    ensures
        shunt(ts, stack).filter(operator_pred()).to_multiset() =~= ts.filter(
            operator_pred(),
        ).to_multiset().add(stack.filter(operator_pred()).to_multiset()),
    decreases ts.len(), stack.len(),
{
    broadcast use Seq::filter_distributes_over_add;
    broadcast use vstd::seq_lib::lemma_multiset_commutative;
    broadcast use vstd::seq_lib::group_to_multiset_ensures;
    broadcast use vstd::multiset::group_multiset_axioms;

    let pred = operator_pred();
    if ts.len() == 0 {
        lemma_reverse_filter_to_multiset(stack, pred);
        lemma_filter_all_false(ts, pred);
    } else {
        let t = ts[0];
        assert(ts =~= seq![t] + ts.drop_first());
        assert(seq![t].drop_last() =~= Seq::<Seq<char>>::empty());
        if is_operator_token(t) {
            if stack.len() > 0 && spec_precedence(stack.last()) >= spec_precedence(t) {
                lemma_shunt_conserves_operators(ts, stack.drop_last());
                assert(stack =~= stack.drop_last() + seq![stack.last()]);
                assert(seq![stack.last()].drop_last() =~= Seq::<Seq<char>>::empty());
                assert(seq![stack.last()].filter(pred) == if pred(stack.last()) {
                    seq![stack.last()]
                } else {
                    Seq::<Seq<char>>::empty()
                }) by {
                    reveal(Seq::filter);
                }
            } else {
                lemma_shunt_conserves_operators(ts.drop_first(), stack.push(t));
                assert(stack.push(t).drop_last() =~= stack);
                assert(stack.push(t).filter(pred) == stack.filter(pred).push(t)) by {
                    reveal(Seq::filter);
                }
                assert(seq![t].filter(pred) =~= seq![t]) by {
                    reveal(Seq::filter);
                }
            }
        } else if is_open_paren(t) {
            lemma_shunt_conserves_operators(ts.drop_first(), stack.push(t));
            assert(stack.push(t).drop_last() =~= stack);
            assert(stack.push(t).filter(pred) == stack.filter(pred)) by {
                reveal(Seq::filter);
            }
            assert(!pred(t));
            lemma_filter_all_false(seq![t], pred);
        } else if is_close_paren(t) {
            if stack.len() > 0 && !is_open_paren(stack.last()) {
                lemma_shunt_conserves_operators(ts, stack.drop_last());
                assert(stack =~= stack.drop_last() + seq![stack.last()]);
                assert(seq![stack.last()].drop_last() =~= Seq::<Seq<char>>::empty());
                assert(seq![stack.last()].filter(pred) == if pred(stack.last()) {
                    seq![stack.last()]
                } else {
                    Seq::<Seq<char>>::empty()
                }) by {
                    reveal(Seq::filter);
                }
            } else if stack.len() > 0 {
                lemma_shunt_conserves_operators(ts.drop_first(), stack.drop_last());
                assert(stack.filter(pred) == stack.drop_last().filter(pred)) by {
                    reveal(Seq::filter);
                }
                assert(!pred(t));
                lemma_filter_all_false(seq![t], pred);
            } else {
                lemma_shunt_conserves_operators(ts.drop_first(), stack);
                assert(!pred(t));
                lemma_filter_all_false(seq![t], pred);
            }
        } else {
            lemma_shunt_conserves_operators(ts.drop_first(), stack);
            assert(!pred(t));
            lemma_filter_all_false(seq![t], pred);
        }
    }
}

/// No operator is ever dropped or duplicated by the converter: the operator
/// tokens of the postfix output are exactly the operator tokens of the input
/// sequence, counted as a multiset.
pub proof fn lemma_postfix_conserves_operators(ts: Seq<Seq<char>>)
    ensures
        to_postfix_spec(ts).filter(operator_pred()).to_multiset() =~= ts.filter(
            operator_pred(),
        ).to_multiset(),
{
    broadcast use vstd::seq_lib::group_to_multiset_ensures;
    broadcast use vstd::multiset::group_multiset_axioms;

    lemma_shunt_conserves_operators(ts, Seq::empty());
    assert(Seq::<Seq<char>>::empty().to_multiset() =~= Multiset::<Seq<char>>::empty());
    lemma_filter_all_false(Seq::empty(), operator_pred());
}

/// An unmatched `)` that arrives with the operator stack empty is discarded
/// silently: conversion goes on as if the token were not there. (That the
/// converter cannot fail on any input is already in its contract, which has
/// no precondition.)
pub proof fn lemma_unmatched_close_paren_is_discarded(t: Seq<char>, ts: Seq<Seq<char>>)
    requires
        is_close_paren(t),
    ensures
        shunt(seq![t] + ts, Seq::empty()) == shunt(ts, Seq::empty()),
{
    assert((seq![t] + ts)[0] == t);
    assert((seq![t] + ts).drop_first() =~= ts);
}

/// Text that reads as one bare numeral: nonempty, made of digits and `.`,
/// with at most a leading sign.
pub open spec fn is_bare_numeral_text(s: Seq<char>) -> bool {
    &&& s.len() > 0
    &&& forall|i: int|
        0 <= i < s.len() ==> is_digit_char(#[trigger] s[i]) || s[i] == '.' || (i == 0 && s[i]
            == '-')
}

/// From any position inside a bare numeral, the tokenizer accumulates the
/// rest of the text onto the numeral in progress and emits the whole text as
/// the only token.
proof fn lemma_numeral_run(s: Seq<char>, i: int)
    requires
        is_bare_numeral_text(s),
        1 <= i <= s.len(),
    ensures
        tokens_from(s, i as nat, s.take(i)) == seq![s],
    decreases s.len() - i,
{
    if i == s.len() {
        assert(s.take(i) =~= s);
        assert(tokens_from(s, i as nat, s.take(i)) == flush(s));
        assert(flush(s) =~= seq![s]);
    } else {
        let c = s[i];
        assert(is_digit_char(c) || c == '.');
        lemma_numeral_run(s, i + 1);
        assert(s.take(i).push(c) =~= s.take(i + 1));
        assert(tokens_from(s, i as nat, s.take(i)) == tokens_from(
            s,
            (i + 1) as nat,
            s.take(i).push(c),
        ));
    }
}

/// Round trip of a bare numeral: tokenizing text that is one numeral yields
/// exactly that one token, and converting the one-token sequence to postfix
/// returns it unchanged. (Evaluating the one-token postfix sequence then
/// parses the numeral back, outside this library.)
pub proof fn lemma_bare_numeral_round_trip(s: Seq<char>)
    requires
        is_bare_numeral_text(s),
    ensures
        tokenise_spec(s) == seq![s],
        to_postfix_spec(seq![s]) == seq![s],
{
    // Tokenizing: the first character opens the numeral, the rest extend it.
    let c = s[0];
    if c == '-' {
        assert(s.take(1) =~= seq!['-']);
        assert(tokens_from(s, 0, Seq::empty()) == flush(Seq::empty()) + tokens_from(
            s,
            1,
            seq!['-'],
        ));
        lemma_numeral_run(s, 1);
        assert(flush(Seq::empty()) + seq![s] =~= seq![s]);
    } else {
        assert(is_digit_char(c) || c == '.');
        assert(Seq::empty().push(c) =~= s.take(1));
        assert(tokens_from(s, 0, Seq::empty()) == tokens_from(s, 1, s.take(1)));
        lemma_numeral_run(s, 1);
    }
    // Converting: a numeral goes straight to the output; the one token that
    // is also an operator shape (the bare sign "-") is pushed and then
    // popped back out, so the result is the same.
    let ts = seq![s];
    assert(!is_open_paren(s) && !is_close_paren(s));
    if is_operator_token(s) {
        assert(shunt(ts, Seq::empty()) == shunt(ts.drop_first(), Seq::empty().push(s)));
        assert(ts.drop_first() =~= Seq::<Seq<char>>::empty());
        assert(shunt(Seq::empty(), Seq::empty().push(s)) == Seq::empty().push(s).reverse());
        assert(Seq::empty().push(s).reverse() =~= seq![s]);
    } else {
        assert(shunt(ts, Seq::empty()) == seq![s] + shunt(ts.drop_first(), Seq::empty()));
        assert(ts.drop_first() =~= Seq::<Seq<char>>::empty());
        assert(Seq::<Seq<char>>::empty().reverse() =~= Seq::<Seq<char>>::empty());
        assert(seq![s] + Seq::<Seq<char>>::empty() =~= seq![s]);
    }
}

} // verus!
