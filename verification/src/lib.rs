//! A bidirectional codec between a compact textual token stream and an
//! in-memory tree of terms in a small lambda calculus: a base-94 integer
//! numeral codec, a 94-symbol string alphabet, a tagged token layer, an
//! arity-driven term renderer and parser that round-trip exactly, and a
//! small combinator layer that builds recursive terms with no native
//! recursion primitive in the term language.

pub mod base94;
pub mod chars;
pub mod errors;
pub mod expr;
pub mod term;
pub mod text;
pub mod token;

pub use base94::{encode_base94, parse_base94};
pub use errors::{EncodingError, TokenError, TokenStreamError};
pub use term::{get_expr_from_toks, parse_expr, Expr, ExprView};
pub use text::{encode_str, parse_str};
pub use token::{encode_token, parse_token, parse_toks, Tok, TokView};
