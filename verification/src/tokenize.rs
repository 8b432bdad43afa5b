//! The single-pass tokenizer.
//!
//! The tokenizer walks the sanitized text left to right exactly once and
//! emits string tokens:
//!
//! - a run of digits and `.` accumulates into one numeral token;
//! - a `-` at position 0, or one whose immediately preceding character is a
//!   digit, is a sign: it ends the numeral in progress and opens a new
//!   numeral beginning with `-` (so `5-3` becomes the numerals `5` and `-3`,
//!   with no subtraction operator);
//! - the names `e`, `pi` and `tau` are recognized by fixed-length lookahead
//!   and emit the decimal expansion of the constant as a numeral token; when
//!   the character just before the name is a digit, an implicit `*` token is
//!   emitted first (juxtaposition means multiplication);
//! - the name `root` emits the `$` operator token;
//! - an operator character ends the numeral in progress and is emitted as a
//!   one-character operator token; parentheses pass through the same way;
//! - every other character is dropped;
//! - at the end of the text, a numeral still in progress is emitted.
//!
//! [`tokens_from`] is the specification: it gives the exact token sequence
//! for every input, and [`tokenise`] is proved to return it.

use vstd::prelude::*;

use crate::alphabet::is_digit;
use crate::alphabet::is_digit_char;
use crate::alphabet::is_operator;
use crate::alphabet::is_operator_char;

verus! {

/// The decimal expansion of Euler's number, as the tokenizer emits it.
pub open spec fn euler_text() -> Seq<char> {
    "2.718281828459045"@
}

/// The decimal expansion of pi, as the tokenizer emits it.
pub open spec fn pi_text() -> Seq<char> {
    "3.141592653589793"@
}

/// The decimal expansion of tau, as the tokenizer emits it.
pub open spec fn tau_text() -> Seq<char> {
    "6.283185307179586"@
}

/// The tokens emitted when the numeral in progress is flushed: none when it
/// is empty, the numeral itself otherwise.
pub open spec fn flush(cur: Seq<char>) -> Seq<Seq<char>> {
    if cur.len() == 0 {
        seq![]
    } else {
        seq![cur]
    }
}

/// An implicit multiplication token, present exactly when `b` holds.
pub open spec fn star_if(b: bool) -> Seq<Seq<char>> {
    if b {
        seq![seq!['*']]
    } else {
        seq![]
    }
}

/// Whether one of the names `e`, `pi`, `tau`, `root` begins at position `i`.
pub open spec fn is_constant_start(s: Seq<char>, i: int) -> bool {
    ||| s[i] == 'e'
    ||| (s[i] == 'p' && i + 1 < s.len() && s[i + 1] == 'i')
    ||| (s[i] == 't' && i + 2 < s.len() && s[i + 1] == 'a' && s[i + 2] == 'u')
    ||| (s[i] == 'r' && i + 3 < s.len() && s[i + 1] == 'o' && s[i + 2] == 'o' && s[i + 3]
        == 't')
}

/// How many characters the name beginning at `i` consumes.
pub open spec fn constant_advance(s: Seq<char>, i: int) -> int
    recommends
        is_constant_start(s, i),
{
    if s[i] == 'e' {
        1
    } else if s[i] == 'p' {
        2
    } else if s[i] == 't' {
        3
    } else {
        4
    }
}

/// The token text the name beginning at `i` emits.
pub open spec fn constant_token(s: Seq<char>, i: int) -> Seq<char>
    recommends
        is_constant_start(s, i),
{
    if s[i] == 'e' {
        euler_text()
    } else if s[i] == 'p' {
        pi_text()
    } else if s[i] == 't' {
        tau_text()
    } else {
        seq!['$']
    }
}

/// All tokens emitted when a name is recognized at `i` with the numeral
/// `cur` in progress: the flushed numeral, then — for the three value
/// constants only — an implicit `*` when a digit immediately precedes the
/// name, then the name's token.
pub open spec fn constant_tokens_at(s: Seq<char>, i: int, cur: Seq<char>) -> Seq<Seq<char>>
    recommends
        is_constant_start(s, i),
{
    if s[i] == 'r' {
        flush(cur) + seq![seq!['$']]
    } else {
        flush(cur) + star_if(i > 0 && is_digit_char(s[i - 1])) + seq![constant_token(s, i)]
    }
}

/// The tokens emitted from position `i` to the end of `s`, with the numeral
/// `cur` in progress. `tokenise` realizes this sequence.
pub open spec fn tokens_from(s: Seq<char>, i: nat, cur: Seq<char>) -> Seq<Seq<char>>
    decreases s.len() - i,
{
    if i >= s.len() {
        flush(cur)
    } else {
        let c = s[i as int];
        if c == '-' && (i == 0 || is_digit_char(s[i as int - 1])) {
            flush(cur) + tokens_from(s, i + 1, seq!['-'])
        } else if is_digit_char(c) || c == '.' {
            tokens_from(s, i + 1, cur.push(c))
        } else if is_constant_start(s, i as int) {
            constant_tokens_at(s, i as int, cur) + tokens_from(
                s,
                (i + constant_advance(s, i as int)) as nat,
                Seq::empty(),
            )
        } else if is_operator_char(c) || c == '(' || c == ')' {
            flush(cur) + seq![seq![c]] + tokens_from(s, i + 1, Seq::empty())
        } else {
            tokens_from(s, i + 1, cur)
        }
    }
}

/// The token sequence of the whole text.
pub open spec fn tokenise_spec(s: Seq<char>) -> Seq<Seq<char>> {
    tokens_from(s, 0, Seq::empty())
}

/// Emits the numeral in progress, if any, and leaves it empty.
fn flush_numeral(current_token: &mut String, tokens: &mut Vec<String>)
    ensures
        final(tokens).deep_view() == old(tokens).deep_view() + flush(old(current_token)@),
        final(current_token)@ == Seq::<char>::empty(),
{
    let ghost dv0 = tokens.deep_view();
    if !current_token.as_str().is_empty() {
        tokens.push(current_token.clone());
        proof {
            assert(tokens.deep_view() =~= dv0 + flush(old(current_token)@));
        }
        *current_token = String::new();
    } else {
        proof {
            assert(tokens.deep_view() =~= dv0 + flush(old(current_token)@));
        }
    }
}

/// Recognizes a constant or `root` name at `*index`. When one is there, it
/// flushes the numeral in progress, emits the name's tokens (including the
/// implicit `*`), advances `*index` past the name, and returns true; when
/// none is there, it changes nothing and returns false.
pub fn handle_constants(
    input: &str,
    index: &mut usize,
    current_token: &mut String,
    tokens: &mut Vec<String>,
) -> (matched: bool)
    requires
        *old(index) < input@.len(),
    ensures
        matched == is_constant_start(input@, *old(index) as int),
        matched ==> *final(index) == *old(index) + constant_advance(input@, *old(index) as int),
        matched ==> final(current_token)@ == Seq::<char>::empty(),
        matched ==> final(tokens).deep_view() == old(tokens).deep_view() + constant_tokens_at(
            input@,
            *old(index) as int,
            old(current_token)@,
        ),
        !matched ==> *final(index) == *old(index),
        !matched ==> final(current_token)@ == old(current_token)@,
        !matched ==> final(tokens)@ == old(tokens)@,
{
    let i: usize = *index;
    let n: usize = input.unicode_len();
    let c: char = input.get_char(i);
    let ghost cur0 = current_token@;
    if c == 'e' {
        flush_numeral(current_token, tokens);
        let ghost dv1 = tokens.deep_view();
        let starred: bool = i > 0 && is_digit(input.get_char(i - 1));
        if starred {
            tokens.push("*".to_owned());
            proof {
                reveal_strlit("*");
                assert("*"@ =~= seq!['*']);
                assert(tokens.deep_view() =~= dv1.push(seq!['*']));
            }
        }
        let ghost dv2 = tokens.deep_view();
        tokens.push("2.718281828459045".to_owned());
        proof {
            assert(tokens.deep_view() =~= dv2.push(euler_text()));
            assert(tokens.deep_view() =~= old(tokens).deep_view() + constant_tokens_at(
                input@,
                i as int,
                cur0,
            ));
        }
        *index = i + 1;
        true
    } else if c == 'p' && n - i > 1 && input.get_char(i + 1) == 'i' {
        flush_numeral(current_token, tokens);
        let ghost dv1 = tokens.deep_view();
        let starred: bool = i > 0 && is_digit(input.get_char(i - 1));
        if starred {
            tokens.push("*".to_owned());
            proof {
                reveal_strlit("*");
                assert("*"@ =~= seq!['*']);
                assert(tokens.deep_view() =~= dv1.push(seq!['*']));
            }
        }
        let ghost dv2 = tokens.deep_view();
        tokens.push("3.141592653589793".to_owned());
        proof {
            assert(tokens.deep_view() =~= dv2.push(pi_text()));
            assert(tokens.deep_view() =~= old(tokens).deep_view() + constant_tokens_at(
                input@,
                i as int,
                cur0,
            ));
        }
        *index = i + 2;
        true
    } else if c == 't' && n - i > 2 && input.get_char(i + 1) == 'a' && input.get_char(i + 2)
        == 'u' {
        flush_numeral(current_token, tokens);
        let ghost dv1 = tokens.deep_view();
        let starred: bool = i > 0 && is_digit(input.get_char(i - 1));
        if starred {
            tokens.push("*".to_owned());
            proof {
                reveal_strlit("*");
                assert("*"@ =~= seq!['*']);
                assert(tokens.deep_view() =~= dv1.push(seq!['*']));
            }
        }
        let ghost dv2 = tokens.deep_view();
        tokens.push("6.283185307179586".to_owned());
        proof {
            assert(tokens.deep_view() =~= dv2.push(tau_text()));
            assert(tokens.deep_view() =~= old(tokens).deep_view() + constant_tokens_at(
                input@,
                i as int,
                cur0,
            ));
        }
        *index = i + 3;
        true
    } else if c == 'r' && n - i > 3 && input.get_char(i + 1) == 'o' && input.get_char(i + 2) == 'o'
        && input.get_char(i + 3) == 't' {
        flush_numeral(current_token, tokens);
        let ghost dv1 = tokens.deep_view();
        tokens.push("$".to_owned());
        proof {
            reveal_strlit("$");
            assert("$"@ =~= seq!['$']);
            assert(tokens.deep_view() =~= dv1.push(seq!['$']));
            assert(tokens.deep_view() =~= old(tokens).deep_view() + constant_tokens_at(
                input@,
                i as int,
                cur0,
            ));
        }
        *index = i + 4;
        true
    } else {
        false
    }
}

/// Tokenizes the text in one left-to-right pass. The result is exactly
/// [`tokenise_spec`] of the input.
pub fn tokenise(input_string: String) -> (tokens: Vec<String>)
    ensures
        tokens.deep_view() == tokenise_spec(input_string@),
{
    let s: &str = input_string.as_str();
    let n: usize = s.unicode_len();
    let mut tokens: Vec<String> = Vec::new();
    let mut current_token: String = String::new();
    let mut i: usize = 0;
    proof {
        assert(tokens.deep_view() =~= Seq::<Seq<char>>::empty());
    }
    while i < n
        invariant
            n == s@.len(),
            s@ == input_string@,
            i <= n,
            tokens.deep_view() + tokens_from(s@, i as nat, current_token@) == tokenise_spec(s@),
        decreases n - i,
    {
        let ghost dv0 = tokens.deep_view();
        let ghost cur0 = current_token@;
        let c: char = s.get_char(i);
        if c == '-' && (i == 0 || is_digit(s.get_char(i - 1))) {
            proof {
                assert(tokens_from(s@, i as nat, cur0) == flush(cur0) + tokens_from(
                    s@,
                    (i + 1) as nat,
                    seq!['-'],
                ));
            }
            flush_numeral(&mut current_token, &mut tokens);
            current_token.append("-");
            proof {
                reveal_strlit("-");
                assert(current_token@ =~= seq!['-']);
                assert(tokens.deep_view() + tokens_from(s@, (i + 1) as nat, current_token@)
                    =~= dv0 + tokens_from(s@, i as nat, cur0));
            }
            i += 1;
        } else if is_digit(c) || c == '.' {
            let piece: &str = s.substring_char(i, i + 1);
            proof {
                assert(piece@ =~= seq![c]);
                assert(cur0 + piece@ =~= cur0.push(c));
                assert(tokens_from(s@, i as nat, cur0) == tokens_from(
                    s@,
                    (i + 1) as nat,
                    cur0.push(c),
                ));
            }
            current_token.append(piece);
            i += 1;
        } else {
            let ghost i0 = i as nat;
            let matched: bool = handle_constants(s, &mut i, &mut current_token, &mut tokens);
            if matched {
                proof {
                    assert(tokens_from(s@, i0, cur0) == constant_tokens_at(s@, i0 as int, cur0)
                        + tokens_from(s@, (i0 + constant_advance(s@, i0 as int)) as nat,
                    Seq::empty()));
                    assert(i as nat == (i0 + constant_advance(s@, i0 as int)) as nat);
                    assert(tokens.deep_view() + tokens_from(s@, i as nat, current_token@)
                        =~= dv0 + tokens_from(s@, i0, cur0));
                }
            } else if is_operator(c) || c == '(' || c == ')' {
                proof {
                    assert(tokens_from(s@, i as nat, cur0) == flush(cur0) + seq![seq![c]]
                        + tokens_from(s@, (i + 1) as nat, Seq::<char>::empty()));
                }
                flush_numeral(&mut current_token, &mut tokens);
                let ghost dv1 = tokens.deep_view();
                let piece: &str = s.substring_char(i, i + 1);
                proof {
                    assert(piece@ =~= seq![c]);
                }
                tokens.push(piece.to_owned());
                proof {
                    assert(tokens.deep_view() =~= dv1.push(seq![c]));
                    assert(tokens.deep_view() + tokens_from(s@, (i + 1) as nat, current_token@)
                        =~= dv0 + tokens_from(s@, i as nat, cur0));
                }
                i += 1;
            } else {
                proof {
                    assert(tokens_from(s@, i as nat, cur0) == tokens_from(
                        s@,
                        (i + 1) as nat,
                        cur0,
                    ));
                }
                i += 1;
            }
        }
    }
    proof {
        assert(tokens_from(s@, i as nat, current_token@) == flush(current_token@));
    }
    flush_numeral(&mut current_token, &mut tokens);
    proof {
        assert(tokens.deep_view() =~= tokenise_spec(input_string@));
    }
    tokens
}

} // verus!
