//! Regular-expression matching, delegated to the `regex` crate.
//!
//! The scanners hand a pattern and a haystack to `regex` and get back the byte
//! spans of the matches. What `regex` matches is named here, not restated:
//! `regex_find_spans` / `regex_capture_spans` are whatever `regex` computes for
//! that pattern and haystack. Beside the names, the contracts state only what
//! the `regex` documentation guarantees of every match: `start <= end`, both
//! offsets lie on UTF-8 boundaries of the haystack, and the successive matches
//! of one search do not overlap.

use vstd::prelude::*;
use vstd::string::StringSliceAdditionalSpecFns;
use vstd::utf8::is_char_boundary;

verus! {

/// The `(start, end)` byte spans of the successive non-overlapping matches of
/// `pattern` in `haystack` (`regex::Regex::find_iter`), or `None` when
/// `pattern` does not compile.
pub uninterp spec fn regex_find_spans(pattern: Seq<char>, haystack: Seq<char>) -> Option<Seq<(usize, usize)>>;

/// For each successive non-overlapping match of `pattern` in `haystack`
/// (`regex::Regex::captures_iter`), the span of every capture group, indexed
/// by group number (group 0 is the whole match; `None` for a group that did
/// not participate), or `None` when `pattern` does not compile.
pub uninterp spec fn regex_capture_spans(pattern: Seq<char>, haystack: Seq<char>) -> Option<Seq<Seq<Option<(usize, usize)>>>>;

/// `(start, end)` is a span of `bytes` whose ends fall on UTF-8 boundaries.
pub open spec fn boundary_span(bytes: Seq<u8>, sp: (usize, usize)) -> bool {
    &&& sp.0 <= sp.1 <= bytes.len()
    &&& is_char_boundary(bytes, sp.0 as int)
    &&& is_char_boundary(bytes, sp.1 as int)
}

/// Successive spans in `spans` are ordered and do not overlap.
pub open spec fn ordered_spans(spans: Seq<(usize, usize)>) -> bool {
    forall|i: int, j: int| 0 <= i < j < spans.len() ==> spans[i].1 <= spans[j].0
}

pub open spec fn vec_view_opt<T>(v: Option<Vec<T>>) -> Option<Seq<T>> {
    match v {
        Some(v) => Some(v@),
        None => None,
    }
}

pub open spec fn group_seqs(v: Seq<Vec<Option<(usize, usize)>>>) -> Seq<Seq<Option<(usize, usize)>>> {
    v.map_values(|g: Vec<Option<(usize, usize)>>| g@)
}

/// The whole-match spans of a capture list.
pub open spec fn whole_spans(caps: Seq<Seq<Option<(usize, usize)>>>) -> Seq<(usize, usize)> {
    caps.map_values(|g: Seq<Option<(usize, usize)>>| g[0].unwrap())
}

/// `regex::Regex::new(pattern)` then `find_iter(haystack)`: the match spans.
///
/// Trusted: the spans equal `regex_find_spans(pattern, haystack)`; each lies
/// in `haystack` with both ends on UTF-8 boundaries; successive spans do not
/// overlap. `None` exactly when `regex` rejects the pattern.
#[verifier::external_body]
pub(crate) fn regex_find_iter(pattern: &str, haystack: &str) -> (r: Option<Vec<(usize, usize)>>)
    ensures
        vec_view_opt(r) == regex_find_spans(pattern@, haystack@),
        r matches Some(v) ==> ordered_spans(v@) && forall|i: int|
            0 <= i < v@.len() ==> boundary_span(haystack.spec_bytes(), #[trigger] v@[i]),
{
    let re = match regex::Regex::new(pattern) {
        Ok(re) => re,
        Err(_) => return None,
    };
    let mut out = Vec::new();
    for m in re.find_iter(haystack) {
        out.push((m.start(), m.end()));
    }
    Some(out)
}

/// `regex::Regex::new(pattern)` then `captures_iter(haystack)`: per match, the
/// span of each capture group by index (`Captures::get`).
///
/// Trusted: the result equals `regex_capture_spans(pattern, haystack)`; every
/// match lists at least group 0, which is present;
/// every present span lies in `haystack` with both ends on UTF-8 boundaries,
/// inside the span of the whole match;
/// the successive whole-match spans do not overlap. `None` exactly when
/// `regex` rejects the pattern.
#[verifier::external_body]
pub(crate) fn regex_captures_iter(pattern: &str, haystack: &str) -> (r: Option<Vec<Vec<Option<(usize, usize)>>>>)
    ensures
        match r {
            Some(v) => regex_capture_spans(pattern@, haystack@) == Some(group_seqs(v@)),
            None => regex_capture_spans(pattern@, haystack@) is None,
        },
        r matches Some(v) ==> {
            &&& forall|i: int|
                0 <= i < v@.len() ==> (#[trigger] v@[i])@.len() >= 1 && v@[i]@[0] is Some
            &&& forall|i: int, g: int|
                0 <= i < v@.len() && 0 <= g < v@[i]@.len() && (#[trigger] v@[i]@[g]) is Some
                    ==> boundary_span(haystack.spec_bytes(), v@[i]@[g].unwrap())
                    && v@[i]@[0].unwrap().0 <= v@[i]@[g].unwrap().0
                    && v@[i]@[g].unwrap().1 <= v@[i]@[0].unwrap().1
            &&& ordered_spans(whole_spans(group_seqs(v@)))
        },
{
    let re = match regex::Regex::new(pattern) {
        Ok(re) => re,
        Err(_) => return None,
    };
    let mut out = Vec::new();
    for caps in re.captures_iter(haystack) {
        out.push(caps.iter().map(|g| g.map(|m| (m.start(), m.end()))).collect());
    }
    Some(out)
}

} // verus!
