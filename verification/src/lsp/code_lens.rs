//! Text of the language server's code lenses.

use vstd::prelude::*;
use vstd::string::StringSliceAdditionalSpecFns;
use vstd::utf8::{encode_utf8, valid_utf8};

use crate::text;
use crate::text::{decimal, LOWER_S, SPACE};

verus! {

/// `count`, a space and `noun`, with an `s` appended unless `count` is 1.
pub open spec fn counted_noun(count: u32, noun: Seq<u8>) -> Seq<u8> {
    decimal(count as nat) + seq![SPACE] + noun + if count == 1 {
        Seq::<u8>::empty()
    } else {
        seq![LOWER_S]
    }
}

/// `count + " " + noun`, appending `s` when the count is not 1
/// (`"1 reference"`, `"3 references"`, `"0 references"`).
pub fn pluralize(count: u32, noun: &str) -> (r: String)
    ensures
        encode_utf8(r@) == counted_noun(count, noun.spec_bytes()),
{
    let nb = noun.as_bytes();
    let mut out: Vec<u8> = Vec::new();
    text::push_decimal(&mut out, count);
    out.push(SPACE);
    text::push_range(&mut out, nb, 0, nb.len());
    if count != 1 {
        out.push(LOWER_S);
    }
    proof {
        let d = decimal(count as nat);
        let tail: Seq<u8> = if count == 1 {
            Seq::<u8>::empty()
        } else {
            seq![LOWER_S]
        };
        assert(nb@.subrange(0, nb@.len() as int) =~= nb@);
        assert(out@ =~= counted_noun(count, nb@));
        text::lemma_decimal_valid(count as nat);
        text::lemma_ascii_byte_valid(SPACE);
        vstd::utf8::encode_utf8_valid_utf8(noun@);
        vstd::utf8::valid_utf8_concat(d, seq![SPACE]);
        vstd::utf8::valid_utf8_concat(d + seq![SPACE], nb@);
        if count != 1 {
            text::lemma_ascii_byte_valid(LOWER_S);
        } else {
            assert(valid_utf8(tail)) by {
                reveal_with_fuel(valid_utf8, 1);
            }
        }
        vstd::utf8::valid_utf8_concat(d + seq![SPACE] + nb@, tail);
    }
    match text::utf8_string(out) {
        Some(st) => st,
        None => String::new(),
    }
}

} // verus!
