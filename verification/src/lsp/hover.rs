//! Text of the language server's hovers.

use vstd::prelude::*;
use vstd::string::StringSliceAdditionalSpecFns;
use vstd::utf8::encode_utf8;

use crate::lsp::code_lens::{counted_noun, pluralize};

verus! {

/// `count + " " + noun`, appending `s` when the count is not 1; the hover
/// wording of component-intel summaries, identical to the code lenses'.
pub fn intel_pluralize(count: u32, noun: &str) -> (r: String)
    ensures
        encode_utf8(r@) == counted_noun(count, noun.spec_bytes()),
{
    pluralize(count, noun)
}

} // verus!
