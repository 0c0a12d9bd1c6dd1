//! The text the parser's errors are shown with: the offending token is
//! written as its debug form (`LeftBrace`, `String("key")`, `Some(Colon)`).

use vstd::prelude::*;
use super::spec::{Tok, Found, bool_text};

verus! {

/// What `format!("{:?}", s)` makes of a string: `s` in double quotes with
/// quotes, backslashes and control characters escaped as Rust escapes them.
pub uninterp spec fn debug_quoted(s: Seq<char>) -> Seq<char>;

/// `format!("{:?}", s)` for a string; the result is named by `debug_quoted`.
#[verifier::external_body]
pub(crate) fn debug_quote(s: &str) -> (text: String)
    ensures
        text@ == debug_quoted(s@),
{
    format!("{:?}", s)
}

/// The debug form of a token; a number is shown with its source text.
pub open spec fn token_debug(t: Tok) -> Seq<char> {
    match t {
        Tok::LBrace => "LeftBrace"@,
        Tok::RBrace => "RightBrace"@,
        Tok::LBracket => "LeftBracket"@,
        Tok::RBracket => "RightBracket"@,
        Tok::Colon => "Colon"@,
        Tok::Comma => "Comma"@,
        Tok::Str(s) => "String("@ + debug_quoted(s) + ")"@,
        Tok::Num(n) => "Number("@ + n + ")"@,
        Tok::Bool(b) => "Boolean("@ + bool_text(b) + ")"@,
        Tok::Null => "Null"@,
    }
}

/// The debug form of what the parser found: the token, or, after a key
/// without a colon, the optional next token (`Some(..)` or `None`).
pub open spec fn found_debug(f: Found) -> Seq<char> {
    match f {
        Found::Token(t) => token_debug(t),
        Found::Next(Some(t)) => "Some("@ + token_debug(t) + ")"@,
        Found::Next(None) => "None"@,
    }
}

} // verus!
