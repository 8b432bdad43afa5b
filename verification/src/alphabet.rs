//! The recognized character alphabet and the input sanitizer.
//!
//! The sanitizer keeps exactly the characters the later stages know about:
//! decimal digits, `.`, the operator set, the letters of the constant names
//! (`pi`, `e`, `tau`), the letters of `root`, and parentheses. Everything
//! else (whitespace included) is dropped, and the order of the kept
//! characters is preserved.

use vstd::prelude::*;

verus! {

/// A decimal digit `0` ..= `9`.
pub open spec fn is_digit_char(c: char) -> bool {
    48 <= c as u32 && c as u32 <= 57
}

/// A character of the operator set. `.` is listed with the operators so the
/// sanitizer keeps it, but the tokenizer always folds it into a numeral.
pub open spec fn is_operator_char(c: char) -> bool {
    c == '^' || c == '$' || c == '*' || c == '/' || c == '+' || c == '-' || c == '.'
}

/// A letter of one of the named constants `pi`, `e`, `tau`.
pub open spec fn is_constant_char(c: char) -> bool {
    c == 'p' || c == 'i' || c == 'e' || c == 't' || c == 'a' || c == 'u'
}

/// A letter of the operator name `root`.
pub open spec fn is_root_char(c: char) -> bool {
    c == 'r' || c == 'o' || c == 't'
}

/// A character the sanitizer keeps.
pub open spec fn is_allowed_char(c: char) -> bool {
    ||| is_digit_char(c)
    ||| is_operator_char(c)
    ||| is_constant_char(c)
    ||| is_root_char(c)
    ||| c == '('
    ||| c == ')'
}

/// Decides whether `c` is a decimal digit.
pub fn is_digit(c: char) -> (r: bool)
    ensures
        r == is_digit_char(c),
{
    48 <= c as u32 && c as u32 <= 57
}

/// Decides whether `c` is in the operator set (which includes `.`).
pub fn is_operator(c: char) -> (r: bool)
    ensures
        r == is_operator_char(c),
{
    c == '^' || c == '$' || c == '*' || c == '/' || c == '+' || c == '-' || c == '.'
}

/// Decides whether `c` is a letter of a named constant.
pub fn is_constant(c: char) -> (r: bool)
    ensures
        r == is_constant_char(c),
{
    c == 'p' || c == 'i' || c == 'e' || c == 't' || c == 'a' || c == 'u'
}

/// Decides whether `c` is a letter of `root`.
pub fn is_root(c: char) -> (r: bool)
    ensures
        r == is_root_char(c),
{
    c == 'r' || c == 'o' || c == 't'
}

/// Strips every character outside the recognized alphabet, keeping the rest
/// in their original order.
pub fn clean_string(input: String) -> (r: String)
    ensures
        r@ == input@.filter(|c: char| is_allowed_char(c)),
{
    let s: &str = input.as_str();
    let n: usize = s.unicode_len();
    let mut out: String = String::new();
    let mut i: usize = 0;
    while i < n
        invariant
            n == input@.len(),
            i <= n,
            s@ == input@,
            out@ == input@.subrange(0, i as int).filter(|c: char| is_allowed_char(c)),
        decreases n - i,
    {
        let c: char = s.get_char(i);
        proof {
            let pred = |c: char| is_allowed_char(c);
            let sub0 = input@.subrange(0, i as int);
            let sub1 = input@.subrange(0, i + 1);
            assert(sub1.drop_last() =~= sub0);
            assert(sub1.last() == c);
            reveal_with_fuel(Seq::filter, 2);
            assert(sub1.filter(pred) == if pred(c) {
                sub0.filter(pred).push(c)
            } else {
                sub0.filter(pred)
            });
        }
        if is_digit(c) || is_operator(c) || is_constant(c) || is_root(c) || c == '(' || c == ')' {
            let piece: &str = s.substring_char(i, i + 1);
            proof {
                assert(piece@ =~= seq![c]);
                assert(out@ + piece@ =~= out@.push(c));
            }
            out.append(piece);
        }
        i += 1;
    }
    proof {
        assert(input@.subrange(0, n as int) =~= input@);
    }
    out
}

} // verus!
