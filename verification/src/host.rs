//! What the host language says of a word: whether it may name something.

use crate::text::is_word_char;
use vstd::prelude::*;

verus! {

/// Whether Rust takes `word` for an identifier: a word that is neither a
/// keyword nor a lone underscore, and does not begin with a digit.
pub uninterp spec fn rust_identifier(word: Seq<char>) -> bool;

/// `syn::parse_str::<syn::Ident>`: whether a word made of ASCII letters,
/// digits and underscores parses as a Rust identifier. The answer depends on
/// the word alone; no more is claimed of it.
#[verifier::external_body]
pub(crate) fn is_identifier(word: &str) -> (accepted: bool)
    requires
        word@.len() > 0,
        forall|i: int| 0 <= i < word@.len() ==> is_word_char(#[trigger] word@[i]),
    ensures
        accepted == rust_identifier(word@),
{
    syn::parse_str::<syn::Ident>(word).is_ok()
}

} // verus!
