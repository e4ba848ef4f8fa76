//! Tailwind CSS arbitrary-value detection.
//!
//! Tailwind "arbitrary value" utilities (`w-[13px]`, `bg-[#abc]`,
//! `grid-cols-[1fr_2fr]`) hardcode a one-off value in markup instead of a
//! configured scale token. [`scan_tailwind_arbitrary_values`] finds them; the
//! token shape is matched by the `regex` crate, while the rejection of
//! arbitrary *variants* (`data-[x]:`, `group-data-[x]/name:`) and the line
//! numbering are proved here. Callers gate this on the project using Tailwind:
//! the `prefix-[value]` shape is Tailwind-specific in practice but not
//! exclusive.

use vstd::prelude::*;
use vstd::string::StringSliceAdditionalSpecFns;
use vstd::utf8::{encode_utf8, is_char_boundary};

use crate::css_classes::line_at;
use crate::regex_scan::{boundary_span, ordered_spans, regex_find_iter, regex_find_spans};
use crate::text;
use crate::text::{lf_count, BACKTICK, COLON, CR, DQUOTE, LF, SLASH, SPACE, SQUOTE, TAB};

verus! {

/// A Tailwind arbitrary-value utility token: a lowercase kebab utility prefix
/// directly followed by a bracketed value of 1 to 100 bytes without quotes,
/// backticks, brackets or whitespace. Variant prefixes (`hover:`) are not part
/// of the token.
pub const ARBITRARY_VALUE_PATTERN: &'static str = "[a-z][a-z0-9]*(?:-[a-z0-9]+)*-\\[[^\\]\\[\\s\"'`]{1,100}\\]";

/// One use of a Tailwind arbitrary-value utility, with the 1-based line it
/// appears on.
#[derive(Debug, Clone, PartialEq, Eq)]
pub struct TailwindArbitraryUse {
    /// The matched `prefix-[value]` token.
    pub value: String,
    /// 1-based line in the source.
    pub line: u32,
}

/// A byte that ends a class token: whitespace or a quote.
pub open spec fn token_stop(b: u8) -> bool {
    b == SPACE || b == LF || b == CR || b == TAB || b == DQUOTE || b == SQUOTE || b == BACKTICK
}

/// Scanning `s[i..]`, a `:` comes before any token-ending byte.
pub open spec fn colon_before_stop(s: Seq<u8>, i: int) -> bool
    decreases s.len() - i,
{
    if i < 0 || i >= s.len() {
        false
    } else if s[i] == COLON {
        true
    } else if token_stop(s[i]) {
        false
    } else {
        colon_before_stop(s, i + 1)
    }
}

/// A match ending at `end` is an arbitrary *variant* rather than a value: it
/// is followed by `:` (`data-[side=left]:x`), or by `/name` and then a `:`
/// before the token ends (`group-data-[size=sm]/dialog:grid`).
pub open spec fn arbitrary_variant(s: Seq<u8>, end: int) -> bool {
    if 0 <= end < s.len() && s[end] == COLON {
        true
    } else if 0 <= end < s.len() && s[end] == SLASH {
        colon_before_stop(s, end + 1)
    } else {
        false
    }
}

/// The uses among the first `k` match spans: `(start, end, line)` of every
/// span that is not an arbitrary variant, in order.
pub open spec fn arbitrary_uses(s: Seq<u8>, spans: Seq<(usize, usize)>, k: int) -> Seq<(int, int, u32)>
    decreases k,
{
    if k <= 0 {
        seq![]
    } else {
        let prev = arbitrary_uses(s, spans, k - 1);
        let sp = spans[k - 1];
        if arbitrary_variant(s, sp.1 as int) {
            prev
        } else {
            prev.push((sp.0 as int, sp.1 as int, line_at(s, sp.0 as int)))
        }
    }
}

pub open spec fn spans_or_empty(o: Option<Seq<(usize, usize)>>) -> Seq<(usize, usize)> {
    match o {
        Some(v) => v,
        None => seq![],
    }
}

/// The spans `regex` reports for [`ARBITRARY_VALUE_PATTERN`] in `source`.
pub open spec fn arbitrary_value_spans(source: &str) -> Seq<(usize, usize)> {
    spans_or_empty(regex_find_spans(ARBITRARY_VALUE_PATTERN@, source@))
}

/// `uses` are exactly the tokens and lines described by `spec`.
pub open spec fn uses_match(uses: Seq<TailwindArbitraryUse>, s: Seq<u8>, spec: Seq<(int, int, u32)>) -> bool {
    &&& uses.len() == spec.len()
    &&& forall|k: int|
        0 <= k < uses.len() ==> encode_utf8((#[trigger] uses[k]).value@) == s.subrange(spec[k].0, spec[k].1)
            && uses[k].line == spec[k].2
}

/// Whether the match ending at `end` is an arbitrary variant (see
/// [`arbitrary_variant`]).
pub fn is_arbitrary_variant_match(source: &[u8], end: usize) -> (r: bool)
    ensures
        r == arbitrary_variant(source@, end as int),
{
    if end < source.len() && source[end] == COLON {
        return true;
    }
    if !(end < source.len() && source[end] == SLASH) {
        return false;
    }
    let mut i = end + 1;
    while i < source.len()
        invariant
            end < i <= source@.len(),
            source@[end as int] == SLASH,
            colon_before_stop(source@, end + 1) == colon_before_stop(source@, i as int),
        decreases source@.len() - i,
    {
        let b = source[i];
        if b == COLON {
            return true;
        }
        if b == SPACE || b == LF || b == CR || b == TAB || b == DQUOTE || b == SQUOTE || b == BACKTICK {
            return false;
        }
        i = i + 1;
    }
    false
}

/// Scan markup source for Tailwind arbitrary-value utility tokens, one entry
/// per occurrence, in source order, each with its 1-based line (saturated to
/// `u32::MAX`). Matches that are arbitrary variants are skipped.
pub fn scan_tailwind_arbitrary_values(source: &str) -> (r: Vec<TailwindArbitraryUse>)
    ensures
        uses_match(
            r@,
            source.spec_bytes(),
            arbitrary_uses(source.spec_bytes(), arbitrary_value_spans(source), arbitrary_value_spans(source).len() as int),
        ),
{
    let spans = match regex_find_iter(ARBITRARY_VALUE_PATTERN, source) {
        Some(v) => v,
        None => Vec::new(),
    };
    assert(arbitrary_value_spans(source) =~= spans@);
    arbitrary_values_from_spans(source, &spans)
}

/// The arbitrary-value uses of `source` given the matches `spans` of
/// [`ARBITRARY_VALUE_PATTERN`] (in order, not overlapping, on character
/// boundaries): one entry per match that is not an arbitrary variant, with
/// its 1-based line (saturated to `u32::MAX`).
pub fn arbitrary_values_from_spans(source: &str, spans: &Vec<(usize, usize)>) -> (r: Vec<TailwindArbitraryUse>)
    requires
        ordered_spans(spans@),
        forall|x: int| 0 <= x < spans@.len() ==> boundary_span(source.spec_bytes(), #[trigger] spans@[x]),
    ensures
        uses_match(r@, source.spec_bytes(), arbitrary_uses(source.spec_bytes(), spans@, spans@.len() as int)),
{
    let s = source.as_bytes();
    let ghost sp = spans@;
    proof {
        vstd::utf8::encode_utf8_valid_utf8(source@);
        vstd::utf8::is_char_boundary_start_end_of_seq(s@);
    }
    let mut out: Vec<TailwindArbitraryUse> = Vec::new();
    // Lines are counted incrementally: only the line feeds between the
    // previous reported match and this one are scanned.
    let mut last_pos: usize = 0;
    let mut last_line: usize = 1;
    let mut k: usize = 0;
    while k < spans.len()
        invariant
            s@ == source.spec_bytes(),
            sp == spans@,
            k <= spans@.len(),
            ordered_spans(spans@),
            forall|x: int| 0 <= x < spans@.len() ==> boundary_span(s@, #[trigger] spans@[x]),
            last_pos <= s@.len(),
            is_char_boundary(s@, last_pos as int),
            forall|x: int| k <= x < spans@.len() ==> last_pos <= (#[trigger] spans@[x]).0,
            last_line == if 1 + lf_count(s@, 0, last_pos as int) > usize::MAX {
                usize::MAX as int
            } else {
                1 + lf_count(s@, 0, last_pos as int) as int
            },
            uses_match(out@, s@, arbitrary_uses(s@, sp, k as int)),
        decreases spans@.len() - k,
    {
        let (st, en) = spans[k];
        proof {
            assert(boundary_span(s@, spans@[k as int]));
            assert forall|x: int| k < x < spans@.len() implies st <= (#[trigger] spans@[x]).0 by {
                assert(spans@[k as int].1 <= spans@[x].0);
            }
        }
        if is_arbitrary_variant_match(s, en) {
            k = k + 1;
        } else {
            let n = text::count_lf(s, last_pos, st);
            proof {
                text::lemma_lf_count_split(s@, 0, last_pos as int, st as int);
            }
            last_line = last_line.saturating_add(n);
            last_pos = st;
            let value = text::substring(source, st, en).to_owned();
            let line: u32 = if last_line > 0xffff_ffff {
                0xffff_ffff
            } else {
                last_line as u32
            };
            let ghost prev = out@;
            let ghost want = arbitrary_uses(s@, sp, k as int);
            out.push(TailwindArbitraryUse { value, line });
            proof {
                let np = want.push((st as int, en as int, line_at(s@, st as int)));
                assert(arbitrary_uses(s@, sp, k + 1) == np);
                assert forall|x: int| 0 <= x < out@.len() implies encode_utf8((#[trigger] out@[x]).value@)
                    == s@.subrange(np[x].0, np[x].1) && out@[x].line == np[x].2 by {
                    if x < prev.len() {
                        assert(out@[x] == prev[x]);
                    }
                }
            }
            k = k + 1;
        }
    }
    out
}

} // verus!
