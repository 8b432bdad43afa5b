//! Core of a small arithmetic-expression calculator.
//!
//! The pipeline has three verified stages: a sanitizer that strips
//! unrecognized characters ([`clean_string`]), a single-pass tokenizer that
//! turns the cleaned text into numeral, operator and grouping tokens
//! ([`tokenise`]), and a shunting-yard converter that reorders the tokens
//! into postfix form ([`to_postfix`]). Evaluating the postfix sequence needs
//! floating-point arithmetic, which stays outside this library.

pub mod alphabet;
pub mod laws;
pub mod postfix;
pub mod semantics;
pub mod tokenize;

pub use alphabet::clean_string;
pub use alphabet::is_constant;
pub use alphabet::is_operator;
pub use alphabet::is_root;
pub use postfix::precedence;
pub use postfix::to_postfix;
pub use tokenize::handle_constants;
pub use tokenize::tokenise;
